# game_support

The verified logic of a small 2D game built on `geng`.

- `src/text.rs`: cutting text into lines (as `str::lines` does) and words (as
  `str::split_whitespace` does), with the lines of several texts in a row.
- `src/wrap.rs`: greedy wrapping of text into lines of limited width. The width of a
  candidate line is measured by the caller with a font; `TextWrap` asks for one answer at a
  time. The proof functions state that the wrapping follows the width test, keeps every
  word in order, ends a line only when the next word does not fit, and leaves only lines
  that fit or hold a single word.
- `src/logging.rs`: choosing the log level from the command line, the build's setting or
  the build kind.
- `app/`: the game itself (window, assets, rendering, options), which uses the library for
  its text layout and log level.
