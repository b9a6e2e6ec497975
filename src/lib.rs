//! Per-file churn counting over the history of a content-addressed
//! repository: every directory snapshot of every commit is folded into a
//! tree of per-directory records, and each distinct (path, content) pair is
//! counted once.

pub mod types;
pub mod path;
pub mod cache;
pub mod order;
pub mod laws;
