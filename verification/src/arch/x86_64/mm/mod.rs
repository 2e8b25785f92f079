//! Four-level address translation.

pub mod page_table;
pub mod table_entry;
pub mod table_memory;
