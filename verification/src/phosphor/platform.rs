//! Window and backend configuration of a Phosphor application.

use vstd::prelude::*;

verus! {

/// A rendering backend.
#[derive(Debug, Clone, Copy, PartialEq, Eq, Structural)]
pub enum GpuBackend {
    /// CPU rasterisation into a software frame buffer.
    Raster,
}

impl GpuBackend {
    /// The best backend available on this platform: raster, the one backend
    /// there is.
    pub fn best_for_platform() -> (r: Self)
        ensures
            r == GpuBackend::Raster,
    {
        GpuBackend::Raster
    }
}

/// Settings of the application window.
pub struct AppConfig {
    /// Window title.
    pub title: String,
    /// Initial size in logical pixels, as (width, height).
    pub size: (u32, u32),
    /// Target frames per second; `0` means unlimited.
    pub fps: u32,
    /// Whether the window can be resized.
    pub resizable: bool,
    /// Backend to use; `None` selects the best one for the platform.
    pub backend: Option<GpuBackend>,
}

impl Default for AppConfig {
    /// A resizable 1280 by 720 window titled "Phosphor", at 60 frames per
    /// second, on the platform's best backend.
    fn default() -> (r: Self)
        ensures
            r.title@ == "Phosphor"@,
            r.size == (1280u32, 720u32),
            r.fps == 60,
            r.resizable,
            r.backend is None,
    {
        AppConfig {
            title: "Phosphor".to_owned(),
            size: (1280, 720),
            fps: 60,
            resizable: true,
            backend: None,
        }
    }
}

} // verus!
