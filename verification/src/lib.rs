pub mod error;
pub mod extensions;
pub mod history;
pub mod listing;
pub mod report;
pub mod scan;
pub mod tree;
