pub mod broadcast;
pub mod echo;
pub mod node_map;
pub mod protocol;
pub mod runtime;
pub mod unique_ids;
pub mod value_set;
