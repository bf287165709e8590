# piwrite

A distraction-free Markdown writing app. This crate holds its logic as a
library verified with Verus; the window, files, file watching and theme
detection live in `app/`.

## Layout

- `src/document.rs`: the open document (text, path, saved state, status
  line), window settings, word counts and suggested file names.
- `src/inline.rs`: bold, italic and link markup found in a line.
- `src/markdown.rs`: hidden marker ranges around the cursor, case-insensitive
  search (each range lower-cased as a whole), smart return in lists and code fences, line-ending normalization.
- `src/links.rs`: link escaping, the Ctrl+K link snippet, clipboard URL
  normalization.
- `src/recovery.rs`: recovery snapshots and the order in which recovery
  slots are tried.
- `src/session.rs`: editor decisions (external changes, search stepping and
  replacing, word and match labels, print status, start-up, periodic work,
  the unsaved-changes question).
- `src/theme.rs`: Omarchy theme files, hex colors, fallback palettes, the
  desktop color scheme.
- `src/icons.rs`: the icon the app ships beside the bundled set.
- `src/text.rs`, `src/unicode.rs`, `src/paths.rs`: characters, Unicode
  classes (through `regex`) and path names (through `std::path`).
- `tests/`: tests of the library on concrete values.
- `app/`: the gpui-kit application around the library.

Each public function states what it returns in its `ensures`; the
`law_*` proof functions state properties that span several calls.
