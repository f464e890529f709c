pub mod bst;
pub mod entry;
pub mod utils;
pub mod wordcount;
