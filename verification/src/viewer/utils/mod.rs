pub mod input;
pub mod list;
pub mod table;
pub mod tabs;
pub mod tree;
