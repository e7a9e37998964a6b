//! A multi map which keeps the total order of the inserted key-value pairs.
pub mod model;
pub mod map;
pub mod entry;
pub mod iter;
pub mod map_iter;
pub mod utils;
pub mod laws;
mod capacity;
mod index;

pub use entry::Entry;
pub use iter::{Iter, IterMut};
pub use map::{EntryValues, EntryValuesMut, TotalOrderMultiMap};
pub use map_iter::{Group, GroupMut, GroupedValues, GroupedValuesMut, Keys, Values, ValuesMut};
pub use utils::DebugIterableOpaque;
