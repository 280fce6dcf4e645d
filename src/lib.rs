//! Pixel-buffer transformation plugins behind a status-code boundary:
//! dimension validation, parameter decoding, the blur and mirror kernels,
//! and the host's plugin file naming and status interpretation.
pub mod abi;
pub mod blur;
pub mod loader;
pub mod mirror;
pub mod numeral;
pub mod params;
pub mod plugin;
