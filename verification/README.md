# LEXIS · Word Atlas

A desktop viewer for a vocabulary kept as a folder of Markdown notes: one
note per word, `[[links]]` between words, and ISO week tags such as
`modified/2026-W02` in each note's frontmatter. The words are drawn as a
graph of bubbles, coloured by connected cluster and filtered by week range,
link distance and search. A second library, one note per book read, is filed
under authors and countries for a globe view.

## Layout

- `src/` — the library, verified with Verus:
  - `text`, `week`, `note`: reading notes (frontmatter, week tags, plain
    tags, wiki links) character by character;
  - `graph`, `components`, `order`: building the word graph, numbering its
    connected components largest first, sorted sets;
  - `view`: what the atlas shows — week ranges across reloads, the
    selection by weeks, focus and hops, the links among shown words, search;
  - `screen`, `hotkey`, `single_instance`: display choice, window placement
    and shape, the frame-by-frame window rules, and this platform's window
    services;
  - `reading`, `images`: the reading map (books, authors, countries),
    decoding pictures to RGBA, and the pictures handed to the globe.
- `app/` — the program: the egui/eframe interface, the force layout and the
  OpenGL globe (floating point), file walking and reading, and the Windows
  system calls.
- `tests/` — tests of the library.

Images (`assets/*.png`) are read at run time from an `assets` directory in
the working directory or next to the executable.
