pub mod dashboard;
pub mod filenames;
pub mod grouping;
pub mod health;
pub mod laws;
pub mod listing;
pub mod model;
pub mod sorting;
pub mod text;
