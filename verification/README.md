# chibipop

The verified core of a Japanese popup dictionary: what the program decides
between the pixels on a screen and the popup beside the pointer.

Everything under `src/` is checked by Verus. What a function returns or changes
is stated in its contract, over plain sequences, maps and integers. Properties
that span several functions stand beside them as public proof functions.

| Where | What it holds |
|---|---|
| `src/geom.rs` | rectangles, where a popup goes, the region that keeps it open |
| `src/text.rs`, `src/plugin/` | recognised text, and the plugins that read it |
| `src/lookup/` | deconjugation, the ranked search, what a database row means |
| `src/dict/` | glossary trees, stylesheets and their cascade, pitch, images |
| `src/present.rs`, `src/search.rs` | cards, rows, sentence and dictionary search |
| `src/select/` | what is selected on a card, and the clicks and drags that select it |
| `src/config.rs`, `src/settings.rs` | the configuration and the settings form |
| `src/library.rs`, `src/rebuild.rs`, `src/lock.rs` | the folder of archives, and its builds |
| `src/input/` | the mouse and keyboard state behind the hooks |
| `src/image.rs`, `src/shot.rs` | screenshots and the notes that carry them |
| `src/chars.rs`, `src/json.rs` | texts, and JSON read one level at a time |
| `src/cli.rs`, `src/paths.rs` | the command line and the files around the program |

`app/` is the program around it: the database, the file system, processes,
threads, windows and the floating-point score of a match.

A few facts about `std`, `serde_json`, `base64` and `png` are taken on trust.
Each stands as one small function or specification, with a comment that says
what is claimed of the outside code.
