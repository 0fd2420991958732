pub mod allocator;
pub mod gap_laws;
pub mod gaps;
pub mod keymap;
pub mod keys;
pub mod layout;
pub mod lines;
pub mod record;
pub mod reopen;
