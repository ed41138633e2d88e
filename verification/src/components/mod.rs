pub mod cursor;
pub mod pager;
pub mod row;
pub mod table;
