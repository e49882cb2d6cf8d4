# DiNoScore library

DiNoScore shows sheet music on a screen, page by page, for playing from it. This crate holds the
logic behind the viewer, the editor and the command line tools, stated in contracts and proved
with Verus:

- `collection`: the song metadata (staves, pieces, sections) and the rules a song file must obey;
- `editor`: the editor's song and every editing step, each keeping the song consistent;
- `editor_laws`: what saving and loading the editor's song guarantee;
- `page_files`: the names of the page files inside a song file, and finding them again;
- `layout`, `navigation`: distributing staves onto the screen's pages and turning pages;
- `recognition`: refining the staff boxes found on a page image;
- `render_queue`: the order in which pages are rendered in the background;
- `upgrade`: bringing metadata of older format versions to the current one;
- `search`, `pedal`, `library`: searching the library, page turning by MIDI pedal, sizing modes.

Calls into other crates (`uuid`, `midi-event`, `image`, `imageproc`) go through the items in
`outside.rs`, `collection.rs` and `pedal.rs` whose contracts are trusted.

`app/` holds what is left around the library: reading and writing song files (zip and JSON), the
layouts and bookkeeping that work in floating point, and the threads that render pages and read
the pedal.
