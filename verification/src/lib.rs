//! A small blog platform core: category tree assembly, blog/tag/category
//! aggregation, tag reconciliation, login and claims checks, upload path
//! validation, and the response envelope, all with verified contracts.
//! Persistence, HTTP routing and token signing live outside the library.

pub mod auth;
pub mod blog_combine;
pub mod category_tree;
pub mod entities;
pub mod error;
pub mod response;
pub mod tag_reconcile;
pub mod tree_count;
pub mod util;
