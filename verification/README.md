# fssa

A library that patches the buffer files of a game with PXScript, and
converts IPXScript (PXScript with `loop N { .. }` blocks and `$name=value;`
macros) into PXScript. The library in `src/` is verified with Verus; `app/` is
the command-line program around it (arguments, files, terminal output).

- `src/text.rs`: text as `Seq<char>`: lines, trimming, replacing, UTF-8 widths.
- `src/numbers.rs`: the decimal iteration counts of loop headers.
- `src/fiber.rs`, `src/fiber_structs.rs`: loops and macros, and the whole conversion.
- `src/experimental.rs`: the standard macros and the `$open_buy_menu(id);` snippet.
- `src/utils.rs`: ASCII filtering, comment lines, byte replacement, hex decoding.
- `src/patcher.rs`, `src/patches.rs`: fitting a patch to its buffer (cut or padded with NUL bytes), which patches a
  patch type asks for, and the text written into a buffer file.
- `src/error.rs`: why a script or a patch is refused.

`app/` expects a `constants` module with the splash text and the hex lookup
values of the game's code blocks.
