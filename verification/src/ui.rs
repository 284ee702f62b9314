//! The decisions of the launcher's window, apart from the window itself.

pub mod session;
