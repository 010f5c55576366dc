pub mod charset;
pub mod strategy;
pub mod zip_data;
