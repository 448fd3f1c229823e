use vstd::prelude::*;

verus! {

/// The session's fixed configuration: window geometry, window title, cell
/// size, and the vertical strip at the top reserved for UI text.
pub struct Settings {
    pub window_width: usize,
    pub window_height: usize,
    pub window_title: String,
    pub square_width: usize,
    pub top_offset: usize,
}

/// The configuration the session runs with.
pub fn get_settings() -> (s: Settings)
    ensures
        s.window_width == 1600,
        s.window_height == 1000,
        s.window_title@ == "Pathfinding"@,
        s.square_width == 50,
        s.top_offset == 100,
{
    Settings {
        window_width: 1600,
        window_height: 1000,
        window_title: "Pathfinding".to_string(),
        square_width: 50,
        top_offset: 100,
    }
}

} // verus!
