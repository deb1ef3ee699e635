//! Frecency ranking of visited directories: ordered matching of typed
//! tokens against path components, scoring by use count and age, the history
//! of visits, and the line format in which that history is kept.

pub mod decimal;
pub mod score;
pub mod text;
pub mod order;
pub mod sorting;
pub mod matcher;
pub mod item;
pub mod history;
pub mod persist;
pub mod round_trip;
pub mod location;
pub mod listing;
pub mod jump;
pub mod save;
