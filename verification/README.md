# bitruler

`bitruler` shows an unsigned number (up to `u128`) as bits, hexadecimal digit
art, a power-of-two unit ruler, bit positions, and the `HEX`, `DEC`, `OCT`,
`BIN` and `ASC` text lines. Input may be hexadecimal, decimal, octal or binary,
with underscores as separators and `K`/`M`/`G` binary size suffixes.

The library in `src/` is verified with Verus: every public function states
what it returns over a mathematical model (`Seq<char>` lines and spec
functions), and the laws of the library are proof functions.

- `parse`: input numbers (radix prefixes, separators, size suffixes).
- `format`: the text area and the displayed digits and bytes.
- `cli`, `command`: flags, the help text, and what a command line asks for.
- `render`: the visual area (`layout`, `style`, `hex`, `bit`, `ruler`).
- `terminal`, `output`: ANSI-aware width, trimming, clipping, assembly.
- `properties`, `monochrome`: laws that span several modules.

`app/main.rs` is the command: it reads the arguments and the terminal width
and prints what the library returns.
