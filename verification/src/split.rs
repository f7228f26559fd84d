//! The mathematical model of chunking: where each chunk ends, the sequence
//! of chunk offsets that follows from it, and what holds of that sequence.

use crate::search::occurs_at;
use vstd::prelude::*;

verus! {

/// Largest index below `bound` at which `hit` holds, if there is one.
pub open spec fn last_index_below(bound: int, hit: spec_fn(int) -> bool) -> Option<int>
    decreases bound,
{
    if bound <= 0 {
        None
    } else if hit(bound - 1) {
        Some(bound - 1)
    } else {
        last_index_below(bound - 1, hit)
    }
}

/// `found` is the largest index below `bound` at which `hit` holds, and is
/// `None` exactly when `hit` holds nowhere below `bound`.
pub open spec fn is_last_index_below(bound: int, hit: spec_fn(int) -> bool, found: Option<int>) -> bool {
    match found {
        Some(i) => {
            &&& 0 <= i < bound
            &&& hit(i)
            &&& forall|j: int| i < j < bound ==> !#[trigger] hit(j)
        },
        None => forall|j: int| 0 <= j < bound ==> !#[trigger] hit(j),
    }
}

/// `last_index_below` returns the one value that `is_last_index_below`
/// describes.
pub proof fn lemma_last_index_below(bound: int, hit: spec_fn(int) -> bool, found: Option<int>)
    ensures
        is_last_index_below(bound, hit, found) <==> last_index_below(bound, hit) == found,
    decreases bound,
{
    if bound > 0 {
        if hit(bound - 1) {
        } else {
            lemma_last_index_below(bound - 1, hit, found);
            if is_last_index_below(bound, hit, found) {
                assert(is_last_index_below(bound - 1, hit, found));
            }
            if is_last_index_below(bound - 1, hit, found) {
                assert(is_last_index_below(bound, hit, found));
            }
        }
    } else {
    }
}

/// What marks a place where a chunk may end: one byte out of a set of
/// delimiters, or one occurrence of a byte pattern.
pub enum Boundary {
    Delimiters(Seq<u8>),
    Pattern(Seq<u8>),
}

impl Boundary {
    /// Number of bytes that one match covers.
    pub open spec fn match_len(self) -> nat {
        match self {
            Boundary::Delimiters(_) => 1,
            Boundary::Pattern(pattern) => pattern.len(),
        }
    }

    /// A match starts at index `i` of `window` and lies wholly inside it.
    pub open spec fn matches_at(self, window: Seq<u8>, i: int) -> bool {
        match self {
            Boundary::Delimiters(delimiters) => 0 <= i < window.len() && delimiters.contains(
                window[i],
            ),
            Boundary::Pattern(pattern) => occurs_at(window, pattern, i),
        }
    }

    /// Start of the last match that lies wholly inside `window`.
    pub open spec fn last_match(self, window: Seq<u8>) -> Option<int> {
        last_index_below(
            window.len() - self.match_len() + 1,
            |i: int| self.matches_at(window, i),
        )
    }
}

/// The configuration of a chunker.
pub struct Config {
    /// Length of the window, and so the most that a chunk but the last holds.
    pub target_size: nat,
    /// What a chunk may end at.
    pub boundary: Boundary,
    /// Whether a match opens the next chunk instead of closing this one.
    pub prefix: bool,
}

impl Config {
    /// The window is not empty, and neither is the pattern.
    pub open spec fn valid(self) -> bool {
        &&& self.target_size > 0
        &&& self.boundary.match_len() > 0
    }
}

/// End of the chunk that starts at `pos`.
///
/// What is left of the text at `pos` is one chunk when it fits the window.
/// Else the chunk ends behind the last match inside the window, or, in prefix
/// mode, in front of it; with no match, and in prefix mode also when the only
/// match opens the window, it ends where the window does.
pub open spec fn split_point(config: Config, text: Seq<u8>, pos: int) -> int {
    if text.len() - pos <= config.target_size {
        text.len() as int
    } else {
        let window = text.subrange(pos, pos + config.target_size);
        match config.boundary.last_match(window) {
            Some(i) => if !config.prefix {
                pos + i + config.boundary.match_len()
            } else if i > 0 {
                pos + i
            } else {
                pos + config.target_size
            },
            None => pos + config.target_size,
        }
    }
}

/// Every chunk but the last is cut by a search of its window; this is the
/// condition under which the chunk at `pos` is such a chunk.
pub open spec fn has_full_window(config: Config, text: Seq<u8>, pos: int) -> bool {
    0 <= pos && text.len() - pos > config.target_size
}

/// The chunk at `pos` is not empty and does not pass the end of the text;
/// one cut by a search holds at most `target_size` bytes.
pub proof fn lemma_split_point_bounds(config: Config, text: Seq<u8>, pos: int)
    requires
        config.valid(),
        0 <= pos < text.len(),
    ensures
        pos < split_point(config, text, pos) <= text.len(),
        has_full_window(config, text, pos) ==> split_point(config, text, pos) - pos
            <= config.target_size,
        has_full_window(config, text, pos) <==> split_point(config, text, pos) < text.len(),
{
    if has_full_window(config, text, pos) {
        let window = text.subrange(pos, pos + config.target_size);
        let bound = window.len() - config.boundary.match_len() + 1;
        let hit = |i: int| config.boundary.matches_at(window, i);
        lemma_last_index_below(bound, hit, last_index_below(bound, hit));
    }
}

/// The offsets of all chunks from `pos` to the end of the text, in order.
pub open spec fn offsets_from(config: Config, text: Seq<u8>, pos: int) -> Seq<(int, int)>
    decreases text.len() - pos,
    when config.valid() && 0 <= pos
    via offsets_from_decreases
{
    if pos >= text.len() {
        Seq::empty()
    } else {
        let end = split_point(config, text, pos);
        seq![(pos, end)] + offsets_from(config, text, end)
    }
}

#[via_fn]
proof fn offsets_from_decreases(config: Config, text: Seq<u8>, pos: int) {
    if pos < text.len() {
        lemma_split_point_bounds(config, text, pos);
    }
}

/// The bytes of the chunks that `offsets` cut out of `text`.
pub open spec fn chunk_bytes(text: Seq<u8>, offsets: Seq<(int, int)>) -> Seq<Seq<u8>> {
    offsets.map_values(|range: (int, int)| text.subrange(range.0, range.1))
}

/// Offsets are contiguous: the first chunk starts at `pos`, each chunk
/// starts where the one before it ended, the last one ends with the text,
/// and none is empty. Each chunk ends at the split point of its start.
pub proof fn lemma_offsets_contiguous(config: Config, text: Seq<u8>, pos: int)
    requires
        config.valid(),
        0 <= pos <= text.len(),
    ensures
        ({
            let offsets = offsets_from(config, text, pos);
            &&& offsets.len() == 0 <==> pos == text.len()
            &&& pos < text.len() ==> offsets.first().0 == pos && offsets.last().1 == text.len()
            &&& forall|i: int|
                0 <= i < offsets.len() ==> {
                    &&& pos <= (#[trigger] offsets[i]).0 < offsets[i].1 <= text.len()
                    &&& offsets[i].1 == split_point(config, text, offsets[i].0)
                }
            &&& forall|i: int|
                0 <= i < offsets.len() - 1 ==> (#[trigger] offsets[i]).1 == offsets[i + 1].0
        }),
    decreases text.len() - pos,
{
    if pos < text.len() {
        let end = split_point(config, text, pos);
        lemma_split_point_bounds(config, text, pos);
        lemma_offsets_contiguous(config, text, end);
        let offsets = offsets_from(config, text, pos);
        let rest = offsets_from(config, text, end);
        assert(offsets == seq![(pos, end)] + rest);
        assert forall|i: int| 0 <= i < offsets.len() implies {
            &&& pos <= (#[trigger] offsets[i]).0 < offsets[i].1 <= text.len()
            &&& offsets[i].1 == split_point(config, text, offsets[i].0)
        } by {
            if i > 0 {
                assert(offsets[i] == rest[i - 1]);
            }
        }
        assert forall|i: int| 0 <= i < offsets.len() - 1 implies (#[trigger] offsets[i]).1
            == offsets[i + 1].0 by {
            assert(offsets[i + 1] == rest[i]);
            if i > 0 {
                assert(offsets[i] == rest[i - 1]);
            }
        }
        if rest.len() > 0 {
            assert(offsets.last() == rest.last());
        }
    }
}

/// Nothing is lost: the chunks from `pos` on, put together in order, are the
/// text from `pos` on.
pub proof fn lemma_chunks_rebuild_text(config: Config, text: Seq<u8>, pos: int)
    requires
        config.valid(),
        0 <= pos <= text.len(),
    ensures
        chunk_bytes(text, offsets_from(config, text, pos)).flatten() == text.subrange(
            pos,
            text.len() as int,
        ),
    decreases text.len() - pos,
{
    let chunks = chunk_bytes(text, offsets_from(config, text, pos));
    if pos < text.len() {
        let end = split_point(config, text, pos);
        lemma_split_point_bounds(config, text, pos);
        lemma_chunks_rebuild_text(config, text, end);
        let rest = chunk_bytes(text, offsets_from(config, text, end));
        assert(chunks.first() == text.subrange(pos, end));
        assert(chunks.drop_first() =~= rest);
        assert(text.subrange(pos, end) + text.subrange(end, text.len() as int) =~= text.subrange(
            pos,
            text.len() as int,
        ));
    } else {
        assert(chunks.flatten() =~= text.subrange(pos, text.len() as int));
    }
}

/// No chunk holds more than `target_size` bytes.
pub proof fn lemma_chunks_within_target(config: Config, text: Seq<u8>, pos: int)
    requires
        config.valid(),
        0 <= pos <= text.len(),
    ensures
        forall|i: int|
            0 <= i < offsets_from(config, text, pos).len() ==> (#[trigger] offsets_from(
                config,
                text,
                pos,
            )[i]).1 - offsets_from(config, text, pos)[i].0 <= config.target_size,
{
    let offsets = offsets_from(config, text, pos);
    lemma_offsets_contiguous(config, text, pos);
    assert forall|i: int| 0 <= i < offsets.len() implies (#[trigger] offsets[i]).1 - offsets[i].0
        <= config.target_size by {
        lemma_split_point_bounds(config, text, offsets[i].0);
    }
}

/// A chunk that is cut by a search is as long as the window exactly when
/// the search found nothing, in every case but two. In the default mode the
/// last match may end where the window ends, and in prefix mode the only
/// match may open the window: both chunks fill the window although a match
/// was found, and this statement leaves them out.
pub proof fn lemma_full_chunk_without_match(config: Config, text: Seq<u8>, pos: int)
    requires
        config.valid(),
        has_full_window(config, text, pos),
        ({
            let window = text.subrange(pos, pos + config.target_size);
            match config.boundary.last_match(window) {
                Some(i) => if config.prefix {
                    i != 0
                } else {
                    i + config.boundary.match_len() != config.target_size
                },
                None => true,
            }
        }),
    ensures
        split_point(config, text, pos) - pos <= config.target_size,
        split_point(config, text, pos) - pos == config.target_size
            <==> config.boundary.last_match(text.subrange(pos, pos + config.target_size)) is None,
{
    let window = text.subrange(pos, pos + config.target_size);
    let bound = window.len() - config.boundary.match_len() + 1;
    let hit = |i: int| config.boundary.matches_at(window, i);
    lemma_last_index_below(bound, hit, last_index_below(bound, hit));
}

/// With no delimiter at all nothing is ever found: a chunk that is cut by a
/// search fills its window.
pub proof fn lemma_no_delimiters_hard_split(config: Config, text: Seq<u8>, pos: int)
    requires
        config.valid(),
        config.boundary == Boundary::Delimiters(Seq::<u8>::empty()),
        has_full_window(config, text, pos),
    ensures
        split_point(config, text, pos) == pos + config.target_size,
{
    let window = text.subrange(pos, pos + config.target_size);
    let hit = |i: int| config.boundary.matches_at(window, i);
    lemma_last_index_below(window.len() as int, hit, None);
}

/// A text that fits the window is one chunk, and an empty text is none.
pub proof fn lemma_short_text_is_one_chunk(config: Config, text: Seq<u8>)
    requires
        config.valid(),
        text.len() <= config.target_size,
    ensures
        offsets_from(config, text, 0) == if text.len() == 0 {
            Seq::<(int, int)>::empty()
        } else {
            seq![(0int, text.len() as int)]
        },
{
    if text.len() > 0 {
        assert(offsets_from(config, text, text.len() as int) =~= Seq::<(int, int)>::empty());
        assert(offsets_from(config, text, 0) =~= seq![(0int, text.len() as int)]);
    }
}

/// Two delimiter sets hold the same bytes.
pub open spec fn same_delimiters(a: Seq<u8>, b: Seq<u8>) -> bool {
    forall|byte: u8| #[trigger] a.contains(byte) == b.contains(byte)
}

/// How the delimiters are written down, and so which search serves them,
/// does not show in the result: two sets with the same bytes give the same
/// split point everywhere, and the same offsets.
pub proof fn lemma_same_delimiters_same_offsets(
    first: Seq<u8>,
    second: Seq<u8>,
    target_size: nat,
    prefix: bool,
    text: Seq<u8>,
    pos: int,
)
    requires
        same_delimiters(first, second),
        target_size > 0,
        0 <= pos <= text.len(),
    ensures
        ({
            let a = Config { target_size, boundary: Boundary::Delimiters(first), prefix };
            let b = Config { target_size, boundary: Boundary::Delimiters(second), prefix };
            &&& pos < text.len() ==> split_point(a, text, pos) == split_point(b, text, pos)
            &&& offsets_from(a, text, pos) == offsets_from(b, text, pos)
        }),
    decreases text.len() - pos,
{
    let a = Config { target_size, boundary: Boundary::Delimiters(first), prefix };
    let b = Config { target_size, boundary: Boundary::Delimiters(second), prefix };
    if pos < text.len() {
        if has_full_window(a, text, pos) {
            let window = text.subrange(pos, pos + target_size);
            let hit_a = |i: int| a.boundary.matches_at(window, i);
            let hit_b = |i: int| b.boundary.matches_at(window, i);
            let found = last_index_below(window.len() as int, hit_a);
            lemma_last_index_below(window.len() as int, hit_a, found);
            assert forall|j: int| hit_a(j) == #[trigger] hit_b(j) by {
                if 0 <= j < window.len() {
                    assert(first.contains(window[j]) == second.contains(window[j]));
                }
            }
            assert(is_last_index_below(window.len() as int, hit_b, found));
            lemma_last_index_below(window.len() as int, hit_b, found);
        }
        lemma_split_point_bounds(a, text, pos);
        lemma_same_delimiters_same_offsets(
            first,
            second,
            target_size,
            prefix,
            text,
            split_point(a, text, pos),
        );
    }
}

/// For a match that does not open the window, the two modes differ by the
/// matched bytes alone: the default mode ends the chunk behind the match,
/// prefix mode ends it in front of the match, and the bytes in between,
/// which are the match, go from the end of this chunk to the start of the
/// next.
pub proof fn lemma_prefix_moves_match(config: Config, text: Seq<u8>, pos: int, i: int)
    requires
        config.valid(),
        has_full_window(config, text, pos),
        config.boundary.last_match(text.subrange(pos, pos + config.target_size)) == Some(i),
        i > 0,
    ensures
        ({
            let closing = split_point(Config { prefix: false, ..config }, text, pos);
            let opening = split_point(Config { prefix: true, ..config }, text, pos);
            &&& opening == pos + i
            &&& closing == opening + config.boundary.match_len()
            &&& closing <= pos + config.target_size
            &&& config.boundary.matches_at(text.subrange(opening, closing), 0)
            &&& text.subrange(pos, closing) == text.subrange(pos, opening) + text.subrange(
                opening,
                closing,
            )
        }),
{
    let window = text.subrange(pos, pos + config.target_size);
    let bound = window.len() - config.boundary.match_len() + 1;
    let hit = |i: int| config.boundary.matches_at(window, i);
    lemma_last_index_below(bound, hit, Some(i));
    let opening = pos + i;
    let closing = opening + config.boundary.match_len();
    let moved = text.subrange(opening, closing);
    assert(text.subrange(pos, closing) =~= text.subrange(pos, opening) + moved);
    match config.boundary {
        Boundary::Delimiters(delimiters) => {
            assert(moved[0] == window[i]);
        },
        Boundary::Pattern(pattern) => {
            assert(moved =~= window.subrange(i, i + pattern.len()));
            assert(moved.subrange(0, pattern.len() as int) =~= moved);
        },
    }
}

} // verus!
