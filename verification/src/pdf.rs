pub mod builder;
pub mod flate_api;
pub mod image_api;
pub mod images;
pub mod lopdf_api;
pub mod merger;
pub mod model;
pub mod reader;
pub mod writer;
