//! A small DOCX text converter: a tokenizer for the XML parts of a `.docx`
//! package and the bookkeeping that splits paragraph text out of the
//! `<w:p>`/`<w:t>` runs, hands it to a character converter, and writes the
//! converted characters back into the runs.
pub mod common;
pub mod docx_xml;
pub mod paragraphs;
pub mod report;
pub mod text;
pub mod xml_simp_parser;

pub use common::{TokenizedText, XMLSimpToken};
pub use docx_xml::DocxXMl;
pub use xml_simp_parser::XMLSimpParser;
