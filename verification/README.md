# presse

A command-line tool that compresses PDF documents (re-encoding their images
as JPEG and Flate-compressing their streams) and merges several documents,
or pictures, into one.

The decisions of the tool live in a library verified with Verus:

- `src/cli/` — the command line (`Cli`, `Commands`) and where outputs go.
  `path.rs` models Unix path handling (file name, stem, parent, joining) as
  spec functions, with executable counterparts proved against them;
  `args.rs` resolves output paths and states their laws.
- `src/pdf/model.rs` — PDF objects as mathematical values: dictionaries as
  sequences of entries, documents as maps from identifiers to objects.
- `src/pdf/lopdf_api.rs`, `src/pdf/image_api.rs`, `src/pdf/flate_api.rs` —
  the calls into `lopdf`, `image` and `flate2`, each behind a small trusted
  wrapper whose contract says what the call does.
- `src/pdf/reader.rs` — reading a document from the bytes of a PDF file.
- `src/pdf/images.rs` — re-encoding the images of a document.
- `src/pdf/builder.rs` — a one-page document for a picture.
- `src/pdf/merger.rs` — merging two documents.
- `src/pdf/writer.rs` — the clean-up before a document is written, and
  writing it to bytes, compactly (object and cross-reference streams) or
  plainly.

`app/` is the program around the library: argument parsing with `clap`,
reading and writing files, the progress bar, and the size summary.

A picture turned into a page is always stored Flate-encoded, as its
documentation promises; lopdf's own `Stream::compress` only does so when it
saves more than 19 bytes, so the library calls `flate2` directly for this.

`tests/` exercises the library on concrete documents and paths.
