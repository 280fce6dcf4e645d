use image_plugins::loader::{get_library_extension, plan_load, plugin_file_name, LoadStep, Platform};

#[test]
fn extension_per_platform() {
    assert_eq!(get_library_extension(Platform::Windows), ".dll");
    assert_eq!(get_library_extension(Platform::Unix), ".so");
}

#[test]
fn file_name_appends_extension() {
    assert_eq!(plugin_file_name("blur_plugin", Platform::Unix), "blur_plugin.so");
    assert_eq!(plugin_file_name("mirror", Platform::Windows), "mirror.dll");
}

#[test]
fn absent_plugin_is_not_found() {
    let path = String::from("plugins/missing.so");
    assert_eq!(plan_load(path.clone(), false), LoadStep::NotFound(path));
}

#[test]
fn present_plugin_is_opened() {
    let path = String::from("plugins/blur_plugin.so");
    assert_eq!(plan_load(path.clone(), true), LoadStep::Open(path));
}
