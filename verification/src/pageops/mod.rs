//! Page operations: rotating, extracting, splitting and merging.

pub mod rotate;

pub use rotate::rotate_page;
pub mod extract;

pub use extract::extract_pages;
pub mod split;

pub use split::PdfSplitter;
pub mod merge;

pub use merge::PdfMerger;
pub mod watermark;

pub use watermark::{add_watermark_streams, ensure_helvetica_font, watermark_text_stream};
pub mod overlay;

pub use overlay::{overlay_pages, OverlayPlacement};
