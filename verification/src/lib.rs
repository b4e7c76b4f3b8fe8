pub mod bytes;
pub mod cos;
pub mod document;
pub mod font;
pub mod forms;
pub mod image_extract;
pub mod io;
pub mod metadata;
pub mod parser;
pub mod outline;
pub mod pageops;
pub mod pdmodel;
pub mod preflight;
pub mod text;

pub use cos::ObjectId as PdfObjectId;
pub use document::{Document, ObjectStore, PdfError, PdfResult, RecoveryReport, StreamCache};
pub use io::FilterError;
pub use pdmodel::{Page, PageTree};
