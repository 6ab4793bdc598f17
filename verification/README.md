# mikan_os

A hobby x86-64 operating system, split into a verified library and the code
around it.

`src/` (verified with Verus):

- `frame_buffer_config`, `pixel_color`: what the boot loader tells the kernel
  about the screen.
- `pixel_writer`: writing one pixel into a linear frame buffer, specified by
  `paint`, with laws on reading back, overwriting and commuting writes.
- `font`, `font_writer`: drawing 8x16 glyphs, from the built-in glyph or from
  a font file.
- `kernel`: the boot screen the kernel draws.
- `loader`: the boot loader's plan for putting the kernel's ELF segments in
  memory; program headers are read with the `elf` crate.
- `bdf`: reading a BDF font into glyph bitmaps and writing the font file.

`app/`: the font converter's command line, and the firmware and hardware side
of the boot loader and the kernel (UEFI calls, raw memory).
