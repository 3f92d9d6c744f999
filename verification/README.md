# tg_rcore_tutorial

Framebuffer drawing and small games for the chapter kernels of a RISC-V
teaching operating system, with their behaviour stated as contracts and proved
with Verus.

## Layout

- `src/` — the verified library.
  - `display.rs`: the framebuffer view (`FrameBuffer`), pixel formats, errors,
    the checks on a scanout the GPU reports, and the display stub of a machine
    without the GPU.
  - `raster.rs`: pixel encoding, `clear`, `fill_rect`, and the model of a
    painted framebuffer (`paint`) that every drawing contract is stated in.
  - `tangram.rs`, `render.rs`: the "OS" pictures of chapters 1 and 2, built
    from convex polygons and triangles.
  - `snake.rs`, `snake_draw.rs`: the Snake game of chapter 3 and its screen.
  - `board.rs`, `shapes.rs`, `tetris.rs`, `tetris_draw.rs`: the Tetris game of
    chapter 4 and its screen; `tetris_user.rs`: the terminal Tetris of the
    user program.
  - `bump.rs`: the heap and DMA page allocators; `text.rs`: decimal and
    hexadecimal digits for the debug console.
- `tests/` — tests of the library on concrete values.
- `app/` — what touches the machine: the VirtIO GPU driver glue, the
  allocators' static memory, the UART, the timer, the SBI console, and the
  loops of the games.
