pub mod autotype;
pub mod dialogs;
pub mod main_window;
pub mod theme;
