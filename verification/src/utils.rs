pub mod ring_buffer;
pub mod print;
