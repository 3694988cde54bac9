# hayashi

The verified core of a directory-as-buffer file explorer for Neovim.

- `src/` is the library, proved with Verus:
  - `explorer.rs`: directory entries, their listing order and a stable
    sort, size and permission text, parent directories, and reading an
    entry name back from a display line;
  - `order.rs`: the listing order as a three-way comparison;
  - `render.rs`: display lines for entries and for `../`, and the proof
    that a display line gives back the name it shows;
  - `commands.rs`: what the explorer's commands decide;
  - `text.rs`: decimal digits, whitespace and trimming.
- `app/` is the Neovim plugin around it: file system access, buffers,
  user commands and keymaps.
- `tests/` runs the library on concrete values.
