//! Pages and resources: the page tree flattened into an ordered page list.

pub mod builder;
pub mod page;
pub mod page_tree;

pub use page::{Page, Resources};
pub use page_tree::PageTree;
