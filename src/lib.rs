//! A live, memory-bounded view over merged log streams: per-source ordered
//! buffers, a stable timestamp merge, a query filter, the search worker's
//! follow/skip protocol and the row layout of the terminal viewport.

pub mod level;
pub mod text;
pub mod message;
pub mod merge;
pub mod messages;
pub mod query;
pub mod search;
pub mod record;
pub mod viewport;
pub mod pick_list;

pub use level::{Level, LevelMask};
pub use merge::MergeAscending;
pub use message::Message;
pub use messages::Messages;
pub use query::{Query, QueryText, parse_query};
pub use record::{LogFields, parse_log_entry, time_text};
pub use search::{CommandMessage, ResultMessage, Storage};
pub use viewport::{Frame, Header, Key, Row, Viewport, layout, record_height, record_rows, sub_strings};
pub use pick_list::{PickList, running_names};
