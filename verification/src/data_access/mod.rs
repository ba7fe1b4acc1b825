//! The rows of the `key_values` table and the computations around its queries.

pub mod actions;
pub mod models;
