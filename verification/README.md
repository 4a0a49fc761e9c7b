# life2

Conway's Game of Life on a 240 x 240 colour display, as a verified library
and the firmware around it.

- `src/playlife/life.rs`: one generation on a wrapping grid, proved to
  follow the rules of the game cell by cell.
- `src/playlife.rs`: the play state machine (new random board, running,
  flipping, pausing once the board dies out) and its laws.
- `src/playlife/counter.rs`: the saturating frame counters it uses.
- `src/playfield.rs`: the frame on the display and how each row of pixels
  is drawn from the grid.
- `src/color.rs`: the two colours and their RGB565 bytes.
- `src/spi_display.rs`: the SPI interface's parts and the buffering of a
  byte stream into fixed-size bus writes.
- `src/leds.rs`: the three-LED chaser.
- `app/`: the Embassy firmware for the micro:bit v2 that reads the buttons,
  drives the display over SPI and waits out each frame.
