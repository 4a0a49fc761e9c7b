//! Conway's Game of Life for a small colour display: the rules of the
//! game on a wrapping grid, the play loop's state machine, the rendering
//! of the grid into display rows, the byte framing used to feed the
//! display over SPI, and the LED chaser.

pub mod color;
pub mod leds;
pub mod playfield;
pub mod playlife;
pub mod spi_display;
