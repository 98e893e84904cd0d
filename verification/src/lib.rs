//! A driver for ST7789V displays: frame buffers, dirty regions and the
//! bus transactions that the controller expects.

pub mod cmd;
pub mod region;
pub mod frame;
pub mod bus;
pub mod st7789;
