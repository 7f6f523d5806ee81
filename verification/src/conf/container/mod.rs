pub mod record;
pub mod param_group;
pub mod value;
pub mod value_iter;
pub mod value_str_iter;
pub mod value_parsed_iter;
pub mod child_iter;
pub mod ancestor_iter;
