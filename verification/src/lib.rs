//! Driver logic for an 8x8 RGB LED matrix: the pixel and image model, the
//! gamma table, the shift-register protocol, the serial frame receiver and
//! the refresh scheduling, together with two small sequential utilities.

pub mod fibo;
pub mod gamma;
pub mod image;
pub mod lines;
pub mod machine;
pub mod matrix;
pub mod protocol;
pub mod scheduler;

pub use image::{Color, Image};
pub use matrix::Matrix;
