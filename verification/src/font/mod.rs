//! Fonts: ToUnicode maps, encodings, glyph names, descriptors and font kinds.

pub mod cmap;
pub mod descriptor;
pub mod encoding;
pub mod glyphs;
pub mod hex;
pub mod resolve;
pub mod simple;
pub mod text;
pub mod type0;

pub use cmap::{ToUnicodeCMap, parse_to_unicode_cmap};
pub use descriptor::FontFlags;
pub use encoding::{BaseEncoding, Encoding};
pub use glyphs::glyph_name_to_char;
pub use simple::SimpleFontSubtype;
pub use text::{SimpleFont, Type0Font};
pub use type0::{CidFontType, CidSystemInfo};
pub use resolve::{FontResolver, PdfFont};
