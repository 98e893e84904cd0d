# st7789v_driver

A driver for ST7789V displays, verified with Verus.

- `src/cmd.rs` – the controller's instruction opcodes.
- `src/frame.rs` – an RGB565 frame buffer: clearing, copying rectangles, drawing pixels
  and computing the pixels that differ between two frames.
- `src/region.rs` – rectangles remembered for a later refresh.
- `src/bus.rs` – bus steps (pin levels, SPI transfers, delays) and how data and commands
  are cut into transfers.
- `src/st7789.rs` – the driver: settings, regions, and the bus steps of each operation.
- `app/lib.rs` – the STM32F1 side: it carries out the bus steps on the pins and the SPI
  DMA, and connects the driver and frame buffers to `embedded-graphics`.
