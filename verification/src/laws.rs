//! What holds of the library as a whole.

pub mod commands;
pub mod container;
pub mod fat;
pub mod files;
pub mod index;
pub mod numbers;
pub mod reparse;
pub mod report;
pub mod signature;
pub mod signing;
pub mod soundness;
pub mod streaming;
pub mod superblob;
pub mod thin;
pub mod verification;
