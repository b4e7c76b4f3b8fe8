//! Font descriptor flags (`/Flags`).

use vstd::prelude::*;

verus! {

/// Bits of the `/Flags` entry of a font descriptor.
#[derive(Debug, Clone, Copy, PartialEq, Eq, Structural)]
pub struct FontFlags(pub u32);

impl FontFlags {
    pub const FIXED_PITCH: u32 = 1;
    pub const SERIF: u32 = 2;
    pub const SYMBOLIC: u32 = 4;
    pub const SCRIPT: u32 = 8;
    pub const NON_SYMBOLIC: u32 = 32;
    pub const ITALIC: u32 = 64;
    pub const ALL_CAP: u32 = 0x10000;
    pub const SMALL_CAP: u32 = 0x20000;
    pub const FORCE_BOLD: u32 = 0x40000;

    pub fn is_fixed_pitch(self) -> (r: bool)
        ensures r == (self.0 & 1 != 0),
    {
        self.0 & Self::FIXED_PITCH != 0
    }

    pub fn is_serif(self) -> (r: bool)
        ensures r == (self.0 & 2 != 0),
    {
        self.0 & Self::SERIF != 0
    }

    pub fn is_symbolic(self) -> (r: bool)
        ensures r == (self.0 & 4 != 0),
    {
        self.0 & Self::SYMBOLIC != 0
    }

    pub fn is_italic(self) -> (r: bool)
        ensures r == (self.0 & 64 != 0),
    {
        self.0 & Self::ITALIC != 0
    }

    pub fn is_non_symbolic(self) -> (r: bool)
        ensures r == (self.0 & 32 != 0),
    {
        self.0 & Self::NON_SYMBOLIC != 0
    }

    pub fn is_all_cap(self) -> (r: bool)
        ensures r == (self.0 & 0x10000 != 0),
    {
        self.0 & Self::ALL_CAP != 0
    }

    pub fn is_small_cap(self) -> (r: bool)
        ensures r == (self.0 & 0x20000 != 0),
    {
        self.0 & Self::SMALL_CAP != 0
    }

    pub fn is_force_bold(self) -> (r: bool)
        ensures r == (self.0 & 0x40000 != 0),
    {
        self.0 & Self::FORCE_BOLD != 0
    }
}

impl Default for FontFlags {
    fn default() -> (r: FontFlags)
        ensures r.0 == 0,
    {
        FontFlags(0)
    }
}

} // verus!
