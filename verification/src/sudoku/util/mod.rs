pub mod iterators;
