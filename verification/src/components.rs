//! What the parts of the calculator's window decide, apart from drawing them.

pub mod buttons_grid;
pub mod screen_textview;
