pub mod config;
pub mod disk;
pub mod elapsed;
pub mod grouping;
pub mod keys;
pub mod messages;
pub mod model;
pub mod report;
pub mod results;
pub mod sampling;
pub mod selection;
pub mod text;
