pub mod branch;
pub mod node;
pub mod node_children;
pub mod node_iter;
pub mod param_group;
