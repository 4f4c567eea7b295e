//! Aftershock: a software-rendered graphics library. Pixels live in plain byte buffers
//! (four bytes per pixel: red, green, blue, alpha) and every drawing operation is an
//! integer computation on such a buffer.
pub mod color;
pub mod math;
pub mod shader;
pub mod region;
pub mod buffer;
pub mod shapes;
pub mod draw;
pub mod compose;
pub mod stack;
pub mod laws;
pub mod partitioned_buffer;
pub mod image;
pub mod framebuffer;
pub mod font;
pub mod gui;
pub mod line;
pub mod rasterizer;
pub mod partitioned_rasterizer;
pub mod operation_laws;
