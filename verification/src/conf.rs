//! Window configuration for the demo harness.
//!
//! The harness turns this plain-value description into whatever its
//! windowing framework expects; the library only decides the values.

use vstd::prelude::*;

verus! {

/// What the demo asks of its window: a title and a fixed size in pixels.
#[derive(Debug)]
pub struct WindowConf {
    pub window_title: String,
    pub window_width: u32,
    pub window_height: u32,
}

/// The window configuration of the spider demo.
pub fn window_conf() -> (c: WindowConf)
    ensures
        c.window_title@ == "Macroquad - Procedural Spider"@,
        c.window_width == 1400u32,
        c.window_height == 1000u32,
{
    WindowConf {
        window_title: "Macroquad - Procedural Spider".to_owned(),
        window_width: 1400,
        window_height: 1000,
    }
}

} // verus!
