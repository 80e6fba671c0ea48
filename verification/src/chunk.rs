//! A chunk of a tender document: one leaf section of the parsed text.
use vstd::prelude::*;

use crate::dup::Dup;

verus! {

/// A chunk of the document.
pub struct Chunk {
    /// Its id, such as "ch_042".
    pub chunk_id: String,
    /// The headings above it, outermost first.
    pub section_path: Vec<String>,
    /// Its text.
    pub text: String,
    /// First page.
    pub page_start: u32,
    /// Last page.
    pub page_end: u32,
}

/// The content of a chunk.
pub ghost struct ChunkView {
    pub chunk_id: Seq<char>,
    pub section_path: Seq<Seq<char>>,
    pub text: Seq<char>,
    pub page_start: u32,
    pub page_end: u32,
}

impl DeepView for Chunk {
    type V = ChunkView;

    open spec fn deep_view(&self) -> ChunkView {
        ChunkView {
            chunk_id: self.chunk_id@,
            section_path: self.section_path.deep_view(),
            text: self.text@,
            page_start: self.page_start,
            page_end: self.page_end,
        }
    }
}

impl Dup for Chunk {
    fn dup(&self) -> (r: Self) {
        Chunk {
            chunk_id: self.chunk_id.clone(),
            section_path: self.section_path.dup(),
            text: self.text.clone(),
            page_start: self.page_start,
            page_end: self.page_end,
        }
    }
}

} // verus!
