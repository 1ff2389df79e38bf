pub mod camera;
pub mod canvas;
pub mod feature_detection;
pub mod host;
pub mod image_handler;
pub mod manager;
pub mod painter;
pub mod service;
mod rng;
pub mod wire;
