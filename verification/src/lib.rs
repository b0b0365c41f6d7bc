pub mod source;
pub mod text;
pub mod fstar;
pub mod graph;
pub mod api;
pub mod source_order;
