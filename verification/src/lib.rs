//! Activity tracking for a one-time role reward.
//!
//! Each user's messages are counted, with a cooldown between two counted
//! messages, until the user has earned the role. `tracker` holds that
//! decision and `table` the counts; `session` is one turn of the loop that
//! feeds the tracker.
//!
//! `persist` turns the table into a block of bytes and back, so that the
//! counts outlive the process. `format` lays down what those bytes are,
//! `record` the layout of one user's record among them, and `checksum` the
//! FNV-1a checksum that guards them; `tamper` shows what the checksum and
//! the checks of a load are good for.

pub mod checksum;
pub mod format;
pub mod persist;
pub mod record;
pub mod session;
pub mod table;
pub mod tamper;
pub mod tracker;

pub use session::handle_event;
pub use table::MessageMap;
pub use table::UserData;
pub use tracker::should_assign_role;
pub use tracker::AssignConfig;
pub use tracker::NewMessage;
