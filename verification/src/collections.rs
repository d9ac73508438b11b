pub mod bvh_tree;
pub mod hitable_vec;
