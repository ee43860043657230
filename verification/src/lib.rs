//! Verified page-scraping rules for two Chinese comic catalogues.
pub mod text;
pub mod model;
pub mod kxmanhua;
pub mod nnhanman;
