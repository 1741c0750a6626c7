//! Line-oriented utilities over delimited text records: a binary-search query
//! engine for sorted files, line counting, grouping and top-k selection.

pub mod bsq;
pub mod count;
pub mod group;
pub mod input;
pub mod number;
pub mod order;
pub mod rank;
pub mod text;
pub mod topk;
