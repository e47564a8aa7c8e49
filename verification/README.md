# docx2md

Style-driven conversion of DOCX documents to Markdown, verified with Verus.

The structure of a document is taken from the metadata that the DOCX file
carries, not guessed from its text:

- **Headings**: `w:pStyle` is looked up in `styles.xml`; a style named
  `heading N`, with N from 1 to 9, makes a heading of level N. Paragraphs of a table of contents are
  left out unless `keep_toc` is set.
- **Lists**: `numPr(numId, ilvl)` is followed through `w:num` to the levels of a
  `w:abstractNum` in `numbering.xml`. A `numPr` of the paragraph comes before that
  of its style, and a `numId` of `0` takes a paragraph out of any list.
- **Numbers**: counters for each list and level fill in `%1` to `%9` of a level's
  `lvlText`, in the formats of `numFmt`: `1.1.2`, `(1)`, `①`, Roman and Chinese
  numerals among them.
- **Tables**: `w:tbl` becomes a Markdown table.

## Layout

- `src/` is the library. `text` holds the operations on text, `xml` the document
  tree, `styles` and `numbering` the readers of the two side files, `numerals` and
  `counters` the numbering, `paragraph` and `table` the blocks of a document,
  `archive` the ZIP file, `convert` the conversion itself, and `subtree` what it
  means that two parts of documents are the same or that parts are left out. The contract of
  `convert_bytes` and `convert_xml` gives the whole outcome, text or error, over
  spec functions; what holds of every document is stated as public proof functions
  beside them.
- `app/` is the command line program and `convert_file`, which reads from disk.
- `tests/` runs the library on whole documents and archives and on single
  functions.

What is not proved but believed: the ZIP reader (`zip`), the XML parser
(`roxmltree`), `str::to_lowercase`, `==` on `str`, and appending to a `String`.
The doc comment of each such item says what is claimed of it.

## Usage

```bash
docx2md input.docx                # to stdout
docx2md input.docx -o output.md   # to a file
docx2md input.docx --keep-toc     # with the table of contents
```

```rust
use docx2md::{convert_bytes, ConvertOptions};

let md = convert_bytes(&bytes, &ConvertOptions::default())?;
```

## Limits

- Images are not exported.
- List markers inside table cells are lost.
- `lvlOverride` is not followed.
- Merged cells give empty columns.
