pub mod btree;
pub mod btree_page;
pub mod children_laws;
pub mod codec;
pub mod database_laws;
pub mod header;
pub mod model;
pub mod order;
pub mod page;
pub mod page_laws;
pub mod pager;
pub mod pager_laws;
pub mod search_laws;
pub mod slotted;
pub mod slotted_laws;
pub mod steady_laws;
pub mod tree;
pub mod tree_fewest;
pub mod tree_groups;
pub mod tree_laws;
pub mod tree_leaves;
pub mod tree_model;
pub mod tree_nodes;
pub mod tree_path;
pub mod tree_refusal;
pub mod tree_root;
pub mod tree_search;
pub mod tree_shares;
pub mod tree_short;
pub mod tree_splice;
pub mod tree_step;
pub mod tree_store;
pub mod tree_window;
