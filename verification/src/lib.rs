//! Core of a DEFLATE encoder that searches the LZ77 parameter space with a
//! cost-model-guided "squeeze": the token store with rolling histograms, the
//! longest-match cache, bounded package-merge code-length assignment, the
//! Huffman shaping heuristics and the block bit-cost accounting.

pub mod util;
pub mod symbols;
pub mod squeeze;
pub mod deflate;
pub mod cache;
pub mod lz77;
pub mod katajainen;
