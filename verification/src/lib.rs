//! Classical containers and sorting routines, each with a machine-checked contract.

pub mod avl_tree;
pub mod binary_search;
pub mod binary_search_tree;
pub mod bubble_sort;
pub mod heap;
pub mod linked_list;
pub mod merge_sort;
pub mod merkle_tree;
pub mod order;
pub mod queue;
pub mod quick_sort;
pub mod radix_sort;
pub mod search_fixed_point;
pub mod sequences;
pub mod set_algebra;
pub mod shell_sort;
pub mod stack;
pub mod visitor;
