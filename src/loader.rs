//! The host's side of loading a plugin: the shared object's file name for a
//! logical plugin name, and the decision to open it only once it is known to
//! exist.
use vstd::prelude::*;

verus! {

/// The family of the platform the host runs on, which fixes the shared
/// object suffix.
#[derive(PartialEq, Eq, Structural, Debug, Clone, Copy)]
pub enum Platform {
    Windows,
    Unix,
}

pub open spec fn extension_of(platform: Platform) -> Seq<char> {
    match platform {
        Platform::Windows => ".dll"@,
        Platform::Unix => ".so"@,
    }
}

/// The file suffix of a shared object on `platform`.
pub fn get_library_extension(platform: Platform) -> (r: &'static str)
    ensures
        r@ == extension_of(platform),
{
    match platform {
        Platform::Windows => ".dll",
        Platform::Unix => ".so",
    }
}

/// The file name of the shared object of plugin `plugin_name`.
pub fn plugin_file_name(plugin_name: &str, platform: Platform) -> (r: String)
    ensures
        r@ == plugin_name@ + extension_of(platform),
{
    let name = String::from_str(plugin_name);
    name.concat(get_library_extension(platform))
}

/// The loader's next step for a plugin file.
#[derive(PartialEq, Eq, Debug)]
pub enum LoadStep {
    /// The file exists: open it.
    Open(String),
    /// No such file: report it, without trying to open it.
    NotFound(String),
}

/// Decides what the loader does with `path`, given whether it exists.
pub fn plan_load(path: String, exists: bool) -> (r: LoadStep)
    ensures
        exists ==> (r matches LoadStep::Open(p) && p@ == path@),
        !exists ==> (r matches LoadStep::NotFound(p) && p@ == path@),
{
    if exists {
        LoadStep::Open(path)
    } else {
        LoadStep::NotFound(path)
    }
}

} // verus!
