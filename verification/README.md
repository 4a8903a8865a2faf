# hextatui

A hex explorer: it finds the printable strings of a binary file, lists them in a
terminal, and shows the bytes around each of them or all bytes of a range.

## Layout

- `src/` is the library, verified with Verus. It reads no file and draws nothing: it
  is given bytes, keys and sizes, and says what was found, what the viewer's state
  becomes, and which texts are shown where.
- `app/` is the program: its command line, its files, its threads and its terminal,
  and the percentages, which are floating point.
- `tests/` runs the library on concrete values.

## What is proved

- A region of a file yields the strings that begin in it, whatever the sizes of the
  reads (`scanner.rs`). All regions together yield each string once and in order,
  and the whole file's strings wherever none reaches further past its region than
  the overlap (`whole.rs`). The strings are the longest stretches of printable bytes.
- A report lists the strings that are returned and shows every byte of the region
  once (`listing.rs`).
- Results may arrive in any order and in any batches (`merge.rs`).
- No key takes the selection out of the list or the cursor out of the range
  (`keys.rs`), and the selected row is on the screen (`table.rs`). The list follows a
  filter while it is typed; Enter applies it and Esc leaves the one before.
- Offsets read back from the ways in which they are written (`cli.rs`).

Public proof functions whose names begin with `law_` state these.

## What is trusted

`String::push`, `String::pop`, `str::to_lowercase` and `PathBuf::clone` of the standard
library, and ratatui's `Layout::split`. The doc comment above each says what is
claimed of it.
