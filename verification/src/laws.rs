//! What holds of the library as a whole.

pub mod descending;
pub mod drawing;
pub mod emitting;
pub mod engines;
pub mod filters;
pub mod forking;
pub mod ignore_files;
pub mod listing;
pub mod output;
pub mod paths;
pub mod results;
pub mod rules;
pub mod schedules;
pub mod shape;
pub mod streaming;
pub mod tasks;
pub mod trees;
pub mod visiting;
pub mod walking;
