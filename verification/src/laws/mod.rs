//! What the library promises of its operations, each said of what goes in and what comes out.

pub mod changing;
pub mod checking;
pub mod clauses;
pub mod converting;
pub mod describing;
pub mod expressions;
pub mod federating;
pub mod finding;
pub mod grouping;
pub mod ignoring;
pub mod journaling;
pub mod matching;
pub mod numbers;
pub mod packets;
pub mod planning;
pub mod projections;
pub mod queries;
pub mod records;
pub mod rows;
pub mod texts;
pub mod validating;
pub mod writing;
