# treeish

A zsh command-line syntax highlighter built on tree-sitter, with its core
logic verified by Verus.

## Layout

- `src/` — the verified library.
  - `protocol.rs`: the `key=length:value` request format, parsed whole or
    line by line from a stream, with the laws that what the shell writes is
    read back.
  - `spans.rs`: byte-to-character offsets, capture-to-span conversion,
    ordering and merging of spans.
  - `highlight.rs`: the highlight engine; tree-sitter parses and queries the
    text behind small trusted wrappers, and everything done with the
    captures is verified.
  - `dynamic.rs`: which words look like paths, how paths are expanded, and
    the path spans (existence is asked of a caller-supplied probe).
  - `regions.rs`: from spans over prebuffer and buffer to zsh
    `region_highlight` entries over the buffer.
  - `theme.rs`, `theme_file.rs`: styles, the built-in theme, and theme files
    with palettes, inheritance and capture fallbacks.
  - `strmap.rs`, `text.rs`: a string map and character helpers.
- `app/` — the command-line program: the daemon (sockets, forking, bencode),
  reading theme files from disk (TOML), and the zsh-module glue.
- `tests/` — tests of the library.
