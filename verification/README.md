# rust_writer

The logic of a fullscreen, distraction-free writing application, verified
with Verus, and the egui application around it.

- `src/` — the verified library:
  - `search.rs`: leftmost-first, non-overlapping find (optionally ignoring
    case and restricted to whole words), find next / previous with
    wrap-around, replace and replace-all, the match counter, and the
    stretches that the writing area highlights;
  - `document.rs`: documents (word, character, line and paragraph counts)
    and the tabs of open documents;
  - `theme.rs`: colors and the eight built-in themes;
  - `settings.rs`: background image modes;
  - `updater.rs`: version numbers, release tags and the update decision;
  - `shortcuts.rs`: which keyboard shortcuts fire in a frame, in order;
  - `text.rs`: character helpers shared by the above.
- `app/` — the egui application: windows and dialogs, file and network
  I/O, sound, settings files, and the update thread.
- `tests/` — tests of the library on concrete values.
