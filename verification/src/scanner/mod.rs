//! Reading what package managers and the file system report.
//!
//! Running programs and reading directories is done by the caller; the
//! functions here interpret the text and values that come back.

pub mod appimage;
pub mod desktop_entries;
pub mod desktop_file;
pub mod desktop_scanner;
pub mod flatpak;
pub mod maintenance;
pub mod pacman;
pub mod registry;

use vstd::prelude::*;

verus! {

/// A scanner failure: the scanner's name and a message.
#[derive(Debug)]
pub struct ScanError {
    pub source: &'static str,
    pub message: String,
}

impl ScanError {
    /// The error as shown to the user: `"[<source>] <message>"`.
    pub fn text(&self) -> (r: String)
        ensures
            r@ == "["@ + self.source@ + "] "@ + self.message@,
    {
        let mut v: Vec<char> = Vec::new();
        crate::text::push_str(&mut v, "[");
        crate::text::push_str(&mut v, self.source);
        crate::text::push_str(&mut v, "] ");
        crate::text::push_str(&mut v, self.message.as_str());
        proof {
            assert(v@ =~= "["@ + self.source@ + "] "@ + self.message@);
        }
        crate::text::string_of(&v)
    }
}

} // verus!
