# pdfl

`pdfl` validates PDF files against scripts written in PDFLang, a small
language of checks (`check "name" { assert ... }`), profiles, rules and
namespaced functions (`text::`, `codes::`, `data::`, `struct::`, `visual::`,
`prepress::`, `fix::`).

## Layout

- `src/` is the library, written in Verus and verified: the lexer, parser,
  formatter and linter of the language; the report model and its formats
  (text, Markdown, HTML, CSV, JUnit); the text, code, data and structure
  rules of the namespaces; page alignment for document comparison; pixel
  comparison on integer images; the watch-mode decisions; package integrity;
  the summary rules of `pdfl inspect`; and the command-line value parsers.
  Calls into outside crates (SHA-256, regular expressions, JSON, paths) go
  through a few trusted wrappers whose contracts are documented beside them.
- `tests/` holds the tests of the library.
- `app/` is the program around it: the command line, file and process I/O,
  PDF loading and rendering (pdfium, lopdf, printpdf), images, watching
  folders, and the interpreter, whose values are floating point.
