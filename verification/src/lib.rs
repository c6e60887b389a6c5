pub mod decompose;
pub mod order;
pub mod sorting;

pub use decompose::decompose;
pub use order::Keyed;
pub use order::Sortable;
pub use sorting::merge_sort;
