pub mod laws;
pub mod model;
pub mod url;
