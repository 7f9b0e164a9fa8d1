# pdf_inspector

Inspection of PDF files: telling text documents from scanned ones, reading the text of a page in
reading order, and writing it as Markdown. The library is written in Verus: what each function does
is stated in its contract and proved.

- `src/` is the library. It takes bytes, loaded documents and plain values.
- `app/` is the command line program. It reads files and does the arithmetic on positions, in
  floating point, and hands the library what the measurements amount to.
- `tests/` run the library on concrete documents and layouts.

PDF files are parsed by the `lopdf` crate. What the library relies on is stated in `src/pdf.rs`,
`src/error.rs`, `src/text.rs` and `src/text_utils.rs`, above each call; `src/limits.rs` and
`src/loading.rs` keep input away from `lopdf` on which it would stop the program.

## Modules

| Module | What it holds |
|---|---|
| `detector` | What kind of document a PDF is, and which pages need character recognition |
| `validation`, `error` | What is no PDF, and how failures are reported |
| `lexing`, `loading` | Tokens, and which files can be loaded |
| `pdf`, `limits` | The parts of a loaded document |
| `tounicode`, `font_cmaps`, `encodings`, `widths`, `page_fonts` | Fonts: characters and widths |
| `resources`, `content`, `extract` | The operations of a page, and the steps by which its text is placed |
| `layout`, `reading`, `page_lines`, `spacing` | Columns, lines, reading order, and spaces |
| `tables`, `union_find` | Tables that rectangles draw |
| `classify`, `preprocess`, `convert`, `pieces`, `markdown` | Headings, lists, code, and Markdown |
| `process` | The steps from a document to its result |
| `text`, `text_utils`, `numbers`, `ordering` | Characters, real numbers by their bits, sorting |
