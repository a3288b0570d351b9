# ndlocr_lite_rs

OCR of Japanese page images: a layout model finds the text lines of a page,
a cascade of three line-recognition models (30, 50 and 100 characters) reads
them, and the lines are put in reading order and cleaned up into text, XML,
JSON or a Word document.

## Layout

- `src/` is the library, verified with Verus. It holds the logic of the
  pipeline with its contracts and laws:
  - `pipeline/`: cropping line boxes, finding text bands by binarisation,
    reading order of horizontal and vertical lines, the recognition cascade
    and the page run that ties them together;
  - `cascade.rs`: the character-count estimate of a line crop, its bucket and
    the cascade's state machine;
  - `infer/`: the integer side of the models (pixel mapping, class table,
    box clamping, token decoding, character set, thread counts, and how a
    session pool shares out work);
  - `postprocess/`: structural page rules, rule packs, replacement
    dictionaries and morphological correction of unknown tokens;
  - `output/`: plain text, the XML page and the Word document parts;
  - `page.rs`, `io.rs`, `cli.rs`: the decisions of the command line (mock
    pages, line crops, long-line splitting, line statistics, final lines).
- `app/` is the command-line program around the library: argument parsing,
  image and file I/O, the ONNX Runtime sessions and their thread pools, and
  the parts that compute on floating point.
- `tests/` exercises the library on concrete values.
