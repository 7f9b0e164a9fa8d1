//! Inspection of PDF files: telling text documents from scanned ones, reading the text of a page,
//! and writing it as Markdown.
//!
//! The library takes bytes, loaded documents and plain values. Reading files, and arithmetic on
//! positions, is left to its callers, which hand in what their measurements amount to.

pub mod classify;
pub mod cmap_laws;
pub mod content;
pub mod content_laws;
pub mod convert;
pub mod detection_laws;
pub mod detector;
pub mod document_laws;
pub mod encodings;
pub mod error;
pub mod extract;
pub mod file_laws;
pub mod font_cmaps;
pub mod font_laws;
pub mod grid_laws;
pub mod layout;
pub mod layout_laws;
pub mod lexing;
pub mod limits;
pub mod loading;
pub mod markdown;
pub mod markdown_laws;
pub mod number_laws;
pub mod numbers;
pub mod ordering;
pub mod page_fonts;
pub mod page_lines;
pub mod pdf;
pub mod pieces;
pub mod preprocess;
pub mod preprocess_laws;
pub mod process;
pub mod process_laws;
pub mod reading;
pub mod reading_laws;
pub mod resource_laws;
pub mod resources;
pub mod row_laws;
pub mod spacing;
pub mod spacing_laws;
pub mod table_laws;
pub mod tables;
pub mod text;
pub mod text_utils;
pub mod tounicode;
pub mod union_find;
pub mod validation;
pub mod widths;

pub use detector::{
    detect_pdf_type_mem, detect_pdf_type_mem_with_config, DetectionConfig, PdfType, PdfTypeResult,
    ScanStrategy,
};
pub use error::PdfError;
pub use extract::{extract_pages_mem, PageSteps};
pub use font_cmaps::FontCMaps;
pub use loading::load_document;
pub use markdown::{to_markdown, ItemType, MarkdownOptions};
pub use process::{ExtractedText, LayoutComplexity, PdfProcessResult, ProcessMode};
pub use tounicode::ToUnicodeCMap;
