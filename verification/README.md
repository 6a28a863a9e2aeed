# tesseract_rs: the hierarchy of a page

Turns what an OCR engine says of a page, word by word, into a tree of blocks,
paragraphs, text lines and words. Nothing is aggregated: each level keeps its own
box, and consumers pick the level that they need.

- `src/` is the library, verified with Verus.
  - `geometry`: boxes.
  - `hierarchy`: the tree, and flat access to its lines and words.
  - `text`: trimming the texts of words, joining them to the text of a line.
  - `layout`: the model. Which tree belongs to a sequence of words with boundaries.
  - `commit`: closing a line, a paragraph or a block.
  - `builder`: the tree under construction.
  - `walk`: the walk over the engine's words, as a state machine that asks and is
    told.
- `app/` is ordinary Rust: the loop that drives a walk with an engine, what is
  computed in floating point, and the types with serde's derives.
- `tests/` runs the library.

A block, paragraph or line ends where the next one of its level, or of a level
above it, begins. Words without visible text are passed over, and with them the
boundaries at them.
