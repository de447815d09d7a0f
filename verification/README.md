# docx_opencc

Converts the text of a Word `.docx` file character by character with OpenCC
(for example between traditional and simplified Chinese) while keeping the
document's markup, and writes an HTML page in which changed characters are
highlighted.

Layout:

- `src/` — the verified library (Verus):
  - `xml_simp_parser.rs`: the tokenizer that cuts an XML part into tags and
    text and classifies each piece; reading the tokens back gives the input.
  - `paragraphs.rs`: the model of paragraphs (`<w:p>`) and text runs
    (`<w:t>`), of the converter's output (character + marker digit), of
    writing converted characters back into the runs, and the laws about them.
  - `docx_xml.rs`: a document part: counting, finding paragraphs, checking and
    writing back converted text, HTML.
  - `report.rs`: the HTML page around the parts' converted text.
  - `common.rs`, `text.rs`: token records and character helpers.
- `app/` — the program: unpacks the `.docx`, calls the OpenCC C library for
  each paragraph, hands the results to the library, packs the document again.
- `tests/` — tests of the library.
