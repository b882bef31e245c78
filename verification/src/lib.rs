pub mod hex;
pub mod chars;
pub mod node_id;
pub mod model;
pub mod text;
pub mod graph;
pub mod query;
pub mod traverse;
pub mod local_view;
pub mod sidebar;
