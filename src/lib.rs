//! Verified core of a dictionary-to-database converter: key partitioning
//! across workers, text sanitizing, and the decisions of the single loader
//! that drains worker results into one transaction.

pub mod load;
pub mod partition;
pub mod sanitize;
