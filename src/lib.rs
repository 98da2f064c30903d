//! Exact fixed-point decimals with a total order, the sorting and grouping
//! algorithms that rely on that order, and the decimals' text form.
pub mod decimal;
pub mod grouping;
pub mod text;
