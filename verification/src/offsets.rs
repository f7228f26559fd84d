//! Chunking in one call: from a buffer and its settings to the offsets of
//! all chunks.

use crate::chunker::{delimiter_config, offsets_view, pattern_config, Chunker};
use crate::error::InvalidConfig;
use crate::split::offsets_from;
use vstd::prelude::*;

verus! {

/// Splits `text` on single bytes and returns the offsets of all chunks.
/// A missing setting takes its default; a target size of zero is refused.
pub fn chunk_offsets(
    text: &[u8],
    size: Option<usize>,
    delimiters: Option<String>,
    prefix: Option<bool>,
) -> (result: Result<Vec<(usize, usize)>, InvalidConfig>)
    ensures
        size == Some(0usize) <==> result is Err,
        result matches Err(e) ==> e == InvalidConfig::ZeroTargetSize,
        result matches Ok(offsets) ==> offsets_view(offsets@) == offsets_from(
            delimiter_config(size, delimiters, prefix),
            text@,
            0,
        ),
{
    match Chunker::new(text, size, delimiters, prefix) {
        Ok(chunker) => {
            let mut chunker = chunker;
            Ok(chunker.collect_offsets())
        },
        Err(e) => Err(e),
    }
}

/// Splits `text` on a pattern and returns the offsets of all chunks.
/// A target size of zero is refused, and so is an empty pattern.
pub fn chunk_offsets_pattern(text: &[u8], size: usize, pattern: &[u8], prefix: Option<bool>) -> (result:
    Result<Vec<(usize, usize)>, InvalidConfig>)
    ensures
        match result {
            Ok(offsets) => {
                &&& size > 0
                &&& pattern@.len() > 0
                &&& offsets_view(offsets@) == offsets_from(
                    pattern_config(size, pattern@, prefix),
                    text@,
                    0,
                )
            },
            Err(InvalidConfig::ZeroTargetSize) => size == 0,
            Err(InvalidConfig::EmptyPattern) => size > 0 && pattern@.len() == 0,
        },
{
    match Chunker::with_pattern(text, size, pattern, prefix) {
        Ok(chunker) => {
            let mut chunker = chunker;
            Ok(chunker.collect_offsets())
        },
        Err(e) => Err(e),
    }
}

/// Lays offsets out flat: the start of the first chunk, its end, the start
/// of the second, and so on.
pub fn flatten_offsets(offsets: &[(usize, usize)]) -> (flat: Vec<usize>)
    ensures
        flat@.len() == 2 * offsets@.len(),
        forall|i: int|
            0 <= i < offsets@.len() ==> flat@[2 * i] == (#[trigger] offsets@[i]).0 && flat@[2 * i
                + 1] == offsets@[i].1,
{
    let mut flat: Vec<usize> = Vec::new();
    let mut k: usize = 0;
    while k < offsets.len()
        invariant
            k <= offsets@.len(),
            flat@.len() == 2 * k,
            forall|i: int|
                0 <= i < k ==> flat@[2 * i] == (#[trigger] offsets@[i]).0 && flat@[2 * i + 1]
                    == offsets@[i].1,
        decreases offsets@.len() - k,
    {
        let range: (usize, usize) = offsets[k];
        flat.push(range.0);
        flat.push(range.1);
        k += 1;
    }
    flat
}

} // verus!
