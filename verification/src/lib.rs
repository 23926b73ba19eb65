//! Cindermark: an incremental Markdown parser for native text editors.
pub mod ast;
pub mod block_rules;
pub mod ffi;
pub mod html;
pub mod incremental;
pub mod inline;
pub mod json;
pub mod lexer;
pub mod lines;
pub mod parser;
pub mod preview;
pub mod resources;
pub mod text;
pub mod utf16;

pub use ffi::{
    CindermarkParser, FfiBlock, FfiBlockType, FfiDocumentStats, FfiHeading, FfiIncrementalResult,
    FfiIncrementalStyleResult, FfiInlineSpan, FfiInlineType, FfiListItem, FfiParseResult,
    FfiPreviewSpan, FfiRenderedPreview, FfiSaveParseResult,
};
