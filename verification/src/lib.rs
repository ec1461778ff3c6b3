//! An unbalanced binary search tree with verified insertion, membership
//! lookup, and two lazy stack-based traversal iterators (in-order and
//! preorder).

mod order;
mod tree;

pub use order::StrictTotalOrder;
pub use tree::lemma_membership_after_add;
pub use tree::lemma_sorted_unique;
pub use tree::sorted;
pub use tree::InOrderIterator;
pub use tree::PreOrderIterator;
pub use tree::Tree;
pub use tree::TreeNode;
