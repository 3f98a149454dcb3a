//! The decisions of a reverse proxy that converts images: what a request asks
//! for, whether its answer is converted, where the converted image is kept and
//! how long, and what the client gets.
pub mod accept;
pub mod body;
pub mod cache;
pub mod cleanup;
pub mod config;
pub mod flight;
pub mod formats;
pub mod headers;
pub mod images;
pub mod numbers;
pub mod paths;
pub mod proxy;
pub mod quality;
pub mod query;
pub mod response;
pub mod sorting;
pub mod target;
pub mod text;
pub mod transform;
