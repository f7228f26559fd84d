//! The chunker: a buffer, a configuration and a cursor that only advances.

use crate::error::InvalidConfig;
use crate::search::{
    build_table, find_last_pattern, find_last_with_needles, find_last_with_table,
    is_last_byte_position, marks,
};
use crate::split::{
    is_last_index_below, lemma_last_index_below, lemma_split_point_bounds, offsets_from,
    split_point, Boundary, Config,
};
use vstd::prelude::*;
use vstd::slice::{slice_subrange, slice_to_vec};

verus! {

/// Target size of a chunker that was given none.
pub const DEFAULT_TARGET_SIZE: usize = 4096;

/// The delimiters of a chunker that was given none: newline, full stop and
/// question mark.
pub const DEFAULT_DELIMITERS: [u8; 3] = [0x0A, 0x2E, 0x3F];

/// The default delimiters as a sequence.
pub open spec fn default_delimiter_bytes() -> Seq<u8> {
    seq![0x0Au8, 0x2Eu8, 0x3Fu8]
}

/// Returns the default target size.
pub fn default_target_size() -> (size: usize)
    ensures
        size == DEFAULT_TARGET_SIZE,
{
    DEFAULT_TARGET_SIZE
}

/// Returns the default delimiters.
pub fn default_delimiters() -> (delimiters: Vec<u8>)
    ensures
        delimiters@ == default_delimiter_bytes(),
{
    let delimiters = slice_to_vec(DEFAULT_DELIMITERS.as_slice());
    assert(delimiters@ =~= default_delimiter_bytes());
    delimiters
}

/// The bytes that a chunker reads: lent by the caller, or a copy of its own.
pub enum Buffer<'a> {
    Borrowed(&'a [u8]),
    Owned(Vec<u8>),
}

impl<'a> View for Buffer<'a> {
    type V = Seq<u8>;

    open spec fn view(&self) -> Seq<u8> {
        match self {
            Buffer::Borrowed(bytes) => bytes@,
            Buffer::Owned(bytes) => bytes@,
        }
    }
}

impl<'a> Buffer<'a> {
    /// The bytes, whoever owns them.
    pub fn as_slice(&self) -> (bytes: &[u8])
        ensures
            bytes@ == self@,
    {
        match self {
            Buffer::Borrowed(bytes) => bytes,
            Buffer::Owned(bytes) => bytes.as_slice(),
        }
    }
}

/// What a chunker is, to its callers.
pub struct ChunkerView {
    /// The whole buffer.
    pub text: Seq<u8>,
    /// The configuration.
    pub config: Config,
    /// Start of the next chunk; the length of `text` once all is consumed.
    pub cursor: int,
}

impl ChunkerView {
    /// The offsets of the chunks that are still to come.
    pub open spec fn remaining_offsets(self) -> Seq<(int, int)> {
        offsets_from(self.config, self.text, self.cursor)
    }

    /// Nothing is left to produce.
    pub open spec fn exhausted(self) -> bool {
        self.cursor >= self.text.len()
    }

    /// The same chunker with its cursor back at the start.
    pub open spec fn rewound(self) -> ChunkerView {
        ChunkerView { cursor: 0, ..self }
    }

    /// However far two chunkers have gone, once rewound they produce the
    /// same offsets if they hold the same buffer and configuration.
    pub proof fn lemma_rewound_offsets_agree(self, other: ChunkerView)
        requires
            self.text == other.text,
            self.config == other.config,
        ensures
            self.rewound().remaining_offsets() == other.rewound().remaining_offsets(),
            self.rewound().remaining_offsets() == offsets_from(self.config, self.text, 0),
    {
    }
}

/// Splits a buffer into chunks of at most a target size, one chunk at a time
/// or all offsets at once.
pub struct Chunker<'a> {
    text: Buffer<'a>,
    target_size: usize,
    delimiters: Vec<u8>,
    pattern: Option<Vec<u8>>,
    prefix_mode: bool,
    pos: usize,
    table: Option<[bool; 256]>,
    initialized: bool,
}

impl<'a> View for Chunker<'a> {
    type V = ChunkerView;

    closed spec fn view(&self) -> ChunkerView {
        ChunkerView {
            text: self.text@,
            config: Config {
                target_size: self.target_size as nat,
                boundary: match self.pattern {
                    Some(pattern) => Boundary::Pattern(pattern@),
                    None => Boundary::Delimiters(self.delimiters@),
                },
                prefix: self.prefix_mode,
            },
            cursor: self.pos as int,
        }
    }
}

/// A sequence of offsets as pairs of mathematical integers.
pub open spec fn offsets_view(offsets: Seq<(usize, usize)>) -> Seq<(int, int)> {
    offsets.map_values(|range: (usize, usize)| (range.0 as int, range.1 as int))
}

/// The configuration that optional settings stand for: what is missing is
/// the default, and delimiters given as a string are its UTF-8 bytes.
pub open spec fn delimiter_config(
    size: Option<usize>,
    delimiters: Option<String>,
    prefix: Option<bool>,
) -> Config {
    Config {
        target_size: match size {
            Some(size) => size as nat,
            None => DEFAULT_TARGET_SIZE as nat,
        },
        boundary: Boundary::Delimiters(
            match delimiters {
                Some(delimiters) => vstd::utf8::encode_utf8(delimiters@),
                None => default_delimiter_bytes(),
            },
        ),
        prefix: prefix == Some(true),
    }
}

/// The configuration of a chunker that splits on a pattern.
pub open spec fn pattern_config(size: usize, pattern: Seq<u8>, prefix: Option<bool>) -> Config {
    Config {
        target_size: size as nat,
        boundary: Boundary::Pattern(pattern),
        prefix: prefix == Some(true),
    }
}

/// Starts a chunker on `text`, which it borrows, with the default target size
/// and delimiters.
pub fn chunk<'a>(text: &'a [u8]) -> (chunker: Chunker<'a>)
    ensures
        chunker.wf(),
        chunker@ == (ChunkerView {
            text: text@,
            config: Config {
                target_size: DEFAULT_TARGET_SIZE as nat,
                boundary: Boundary::Delimiters(default_delimiter_bytes()),
                prefix: false,
            },
            cursor: 0,
        }),
        chunker.lookup_table() is None,
{
    Chunker {
        text: Buffer::Borrowed(text),
        target_size: DEFAULT_TARGET_SIZE,
        delimiters: default_delimiters(),
        pattern: None,
        prefix_mode: false,
        pos: 0,
        table: None,
        initialized: false,
    }
}

impl<'a> Chunker<'a> {
    /// The invariant of a chunker: its configuration is valid, its cursor is
    /// inside the buffer, and a lookup table, where one was built, marks the
    /// delimiters and nothing else.
    pub closed spec fn wf(&self) -> bool {
        &&& self.target_size > 0
        &&& self.pattern matches Some(pattern) ==> pattern@.len() > 0
        &&& self.pos <= self.text@.len()
        &&& self.table matches Some(table) ==> {
            &&& self.pattern is None
            &&& self.delimiters@.len() > 3
            &&& marks(table@, self.delimiters@)
        }
        &&& self.initialized && self.pattern is None && self.delimiters@.len() > 3
            ==> self.table is Some
    }

    /// The lookup table, once it was built.
    pub closed spec fn lookup_table(&self) -> Option<Seq<bool>> {
        match self.table {
            Some(table) => Some(table@),
            None => None,
        }
    }

    /// The configuration asks for a lookup table: it splits on more than
    /// three delimiters.
    pub open spec fn wants_table(config: Config) -> bool {
        config.boundary matches Boundary::Delimiters(delimiters) && delimiters.len() > 3
    }

    /// A well-formed chunker has a valid configuration and a cursor inside
    /// its buffer. A lookup table, where it has one, is the membership table
    /// of more than three delimiters.
    pub proof fn lemma_wf(&self)
        requires
            self.wf(),
        ensures
            self@.config.valid(),
            0 <= self@.cursor <= self@.text.len(),
            self.lookup_table() matches Some(table) ==> (self@.config.boundary
                matches Boundary::Delimiters(delimiters) && delimiters.len() > 3 && marks(
                table,
                delimiters,
            )),
    {
    }

    /// Makes a chunker on a copy of `text` that splits on single bytes.
    /// A missing setting takes its default; a target size of zero is refused.
    pub fn new(
        text: &[u8],
        size: Option<usize>,
        delimiters: Option<String>,
        prefix: Option<bool>,
    ) -> (result: Result<Chunker<'a>, InvalidConfig>)
        ensures
            size == Some(0usize) <==> result is Err,
            result matches Err(e) ==> e == InvalidConfig::ZeroTargetSize,
            result matches Ok(chunker) ==> {
                &&& chunker.wf()
                &&& chunker@ == (ChunkerView {
                    text: text@,
                    config: delimiter_config(size, delimiters, prefix),
                    cursor: 0,
                })
                &&& chunker.lookup_table() is None
            },
    {
        let target_size: usize = match size {
            Some(size) => size,
            None => DEFAULT_TARGET_SIZE,
        };
        if target_size == 0 {
            return Err(InvalidConfig::ZeroTargetSize);
        }
        let delimiters: Vec<u8> = match &delimiters {
            Some(delimiters) => slice_to_vec(delimiters.as_str().as_bytes()),
            None => default_delimiters(),
        };
        let prefix_mode: bool = match prefix {
            Some(prefix) => prefix,
            None => false,
        };
        Ok(
            Chunker {
                text: Buffer::Owned(slice_to_vec(text)),
                target_size,
                delimiters,
                pattern: None,
                prefix_mode,
                pos: 0,
                table: None,
                initialized: false,
            },
        )
    }

    /// Makes a chunker on a copy of `text` that splits on a pattern of one
    /// or more bytes. A target size of zero is refused, and so is an empty
    /// pattern.
    pub fn with_pattern(text: &[u8], size: usize, pattern: &[u8], prefix: Option<bool>) -> (result:
        Result<Chunker<'a>, InvalidConfig>)
        ensures
            match result {
                Ok(chunker) => {
                    &&& size > 0
                    &&& pattern@.len() > 0
                    &&& chunker.wf()
                    &&& chunker@ == (ChunkerView {
                        text: text@,
                        config: pattern_config(size, pattern@, prefix),
                        cursor: 0,
                    })
                    &&& chunker.lookup_table() is None
                },
                Err(InvalidConfig::ZeroTargetSize) => size == 0,
                Err(InvalidConfig::EmptyPattern) => size > 0 && pattern@.len() == 0,
            },
    {
        if size == 0 {
            return Err(InvalidConfig::ZeroTargetSize);
        }
        if pattern.len() == 0 {
            return Err(InvalidConfig::EmptyPattern);
        }
        let prefix_mode: bool = match prefix {
            Some(prefix) => prefix,
            None => false,
        };
        Ok(
            Chunker {
                text: Buffer::Owned(slice_to_vec(text)),
                target_size: size,
                delimiters: Vec::new(),
                pattern: Some(slice_to_vec(pattern)),
                prefix_mode,
                pos: 0,
                table: None,
                initialized: false,
            },
        )
    }

    /// Sets the target size; zero is refused.
    pub fn size(self, size: usize) -> (result: Result<Self, InvalidConfig>)
        requires
            self.wf(),
        ensures
            size == 0 <==> result is Err,
            result matches Err(e) ==> e == InvalidConfig::ZeroTargetSize,
            result matches Ok(chunker) ==> {
                &&& chunker.wf()
                &&& chunker@ == (ChunkerView {
                    config: Config { target_size: size as nat, ..self@.config },
                    ..self@
                })
                &&& chunker.lookup_table() == self.lookup_table()
            },
    {
        if size == 0 {
            return Err(InvalidConfig::ZeroTargetSize);
        }
        let mut chunker = self;
        chunker.target_size = size;
        Ok(chunker)
    }

    /// Sets the delimiters to split on, in place of the delimiters or the
    /// pattern that were set before.
    pub fn delimiters(self, delimiters: &[u8]) -> (chunker: Self)
        requires
            self.wf(),
        ensures
            chunker.wf(),
            chunker@ == (ChunkerView {
                config: Config { boundary: Boundary::Delimiters(delimiters@), ..self@.config },
                ..self@
            }),
            chunker.lookup_table() is None,
    {
        let mut chunker = self;
        chunker.delimiters = slice_to_vec(delimiters);
        chunker.pattern = None;
        chunker.table = None;
        chunker.initialized = false;
        chunker
    }

    /// Sets the pattern to split on, in place of the delimiters or the
    /// pattern that were set before; an empty pattern is refused.
    pub fn pattern(self, pattern: &[u8]) -> (result: Result<Self, InvalidConfig>)
        requires
            self.wf(),
        ensures
            pattern@.len() == 0 <==> result is Err,
            result matches Err(e) ==> e == InvalidConfig::EmptyPattern,
            result matches Ok(chunker) ==> {
                &&& chunker.wf()
                &&& chunker@ == (ChunkerView {
                    config: Config { boundary: Boundary::Pattern(pattern@), ..self@.config },
                    ..self@
                })
                &&& chunker.lookup_table() is None
            },
    {
        if pattern.len() == 0 {
            return Err(InvalidConfig::EmptyPattern);
        }
        let mut chunker = self;
        chunker.pattern = Some(slice_to_vec(pattern));
        chunker.table = None;
        chunker.initialized = false;
        Ok(chunker)
    }

    /// Switches to prefix mode: a match opens the next chunk.
    pub fn prefix(self) -> (chunker: Self)
        requires
            self.wf(),
        ensures
            chunker.wf(),
            chunker@ == (ChunkerView { config: Config { prefix: true, ..self@.config }, ..self@ }),
            chunker.lookup_table() == self.lookup_table(),
    {
        let mut chunker = self;
        chunker.prefix_mode = true;
        chunker
    }

    /// Builds the lookup table on first use, where the delimiters number
    /// more than three.
    fn init(&mut self)
        requires
            old(self).wf(),
        ensures
            final(self).wf(),
            final(self)@ == old(self)@,
            final(self).initialized,
            final(self).lookup_table() is Some <==> Self::wants_table(old(self)@.config),
            old(self).lookup_table() is Some ==> final(self).lookup_table() == old(
                self,
            ).lookup_table(),
    {
        if !self.initialized {
            if self.pattern.is_none() && self.delimiters.len() > 3 && self.table.is_none() {
                self.table = Some(build_table(self.delimiters.as_slice()));
            }
            self.initialized = true;
        }
    }

    /// Finds the last delimiter in `window`: by the lookup table where there
    /// is one, else by the search for up to three needles.
    fn find_last_delimiter(&self, window: &[u8]) -> (found: Option<usize>)
        requires
            self.wf(),
            self.initialized,
            self.pattern is None,
        ensures
            is_last_byte_position(window@, |b: u8| self.delimiters@.contains(b), found),
    {
        match &self.table {
            Some(table) => find_last_with_table(table, window),
            None => find_last_with_needles(self.delimiters.as_slice(), window),
        }
    }

    /// Computes where the chunk at the cursor ends.
    fn next_split(&self) -> (end: usize)
        requires
            self.wf(),
            self.initialized,
            !self@.exhausted(),
        ensures
            end == split_point(self@.config, self@.text, self@.cursor),
            self.pos < end <= self.text@.len(),
    {
        let text = self.text.as_slice();
        proof {
            lemma_split_point_bounds(self@.config, self@.text, self@.cursor);
        }
        if text.len() - self.pos <= self.target_size {
            return text.len();
        }
        let hard: usize = self.pos + self.target_size;
        let window = slice_subrange(text, self.pos, hard);
        let (found, match_len): (Option<usize>, usize) = match &self.pattern {
            Some(pattern) => (find_last_pattern(window, pattern.as_slice()), pattern.len()),
            None => (self.find_last_delimiter(window), 1),
        };
        proof {
            let boundary = self@.config.boundary;
            let bound = window@.len() - boundary.match_len() + 1;
            let hit = |i: int| boundary.matches_at(window@, i);
            let start: Option<int> = match found {
                Some(i) => Some(i as int),
                None => None,
            };
            assert(is_last_index_below(bound, hit, start));
            lemma_last_index_below(bound, hit, start);
        }
        match found {
            Some(i) => if !self.prefix_mode {
                self.pos + i + match_len
            } else if i > 0 {
                self.pos + i
            } else {
                hard
            },
            None => hard,
        }
    }

    /// Produces the next chunk, or `None` once the buffer is consumed.
    pub fn next(&mut self) -> (chunk: Option<Vec<u8>>)
        requires
            old(self).wf(),
        ensures
            final(self).wf(),
            final(self)@.text == old(self)@.text,
            final(self)@.config == old(self)@.config,
            old(self)@.exhausted() ==> chunk is None && final(self)@.cursor == old(self)@.cursor,
            !old(self)@.exhausted() ==> {
                let end = split_point(old(self)@.config, old(self)@.text, old(self)@.cursor);
                &&& chunk matches Some(bytes) && bytes@ == old(self)@.text.subrange(
                    old(self)@.cursor,
                    end,
                )
                &&& final(self)@.cursor == end
                &&& old(self)@.cursor < end <= old(self)@.text.len()
            },
            final(self).lookup_table() is Some <==> Self::wants_table(old(self)@.config),
            old(self).lookup_table() is Some ==> final(self).lookup_table() == old(
                self,
            ).lookup_table(),
    {
        self.init();
        let start: usize = self.pos;
        if start >= self.text.as_slice().len() {
            return None;
        }
        let end: usize = self.next_split();
        let bytes = slice_to_vec(slice_subrange(self.text.as_slice(), start, end));
        self.pos = end;
        Some(bytes)
    }

    /// Consumes what is left of the buffer and returns the offsets of its
    /// chunks, start and end, without copying a byte.
    pub fn collect_offsets(&mut self) -> (offsets: Vec<(usize, usize)>)
        requires
            old(self).wf(),
        ensures
            final(self).wf(),
            final(self)@ == (ChunkerView { cursor: old(self)@.text.len() as int, ..old(self)@ }),
            offsets_view(offsets@) == old(self)@.remaining_offsets(),
            final(self).lookup_table() is Some <==> Self::wants_table(old(self)@.config),
            old(self).lookup_table() is Some ==> final(self).lookup_table() == old(
                self,
            ).lookup_table(),
    {
        self.init();
        let ghost before = self@;
        let ghost table = self.lookup_table();
        let len: usize = self.text.as_slice().len();
        let mut offsets: Vec<(usize, usize)> = Vec::new();
        assert(offsets_view(offsets@) =~= Seq::<(int, int)>::empty());
        while self.pos < len
            invariant
                self.wf(),
                self.initialized,
                self@.text == before.text,
                self@.config == before.config,
                len == before.text.len(),
                self.lookup_table() == table,
                offsets_view(offsets@) + self@.remaining_offsets() == before.remaining_offsets(),
            decreases len - self.pos,
        {
            let start: usize = self.pos;
            let end: usize = self.next_split();
            let ghost earlier = offsets@;
            offsets.push((start, end));
            self.pos = end;
            proof {
                assert(offsets_view(offsets@) =~= offsets_view(earlier) + seq![
                    (start as int, end as int),
                ]);
                assert(offsets_view(offsets@) + self@.remaining_offsets() =~= offsets_view(earlier)
                    + (seq![(start as int, end as int)] + self@.remaining_offsets()));
            }
        }
        offsets
    }

    /// Consumes the chunker and returns the chunks that were still to come,
    /// each a copy of its bytes, in order.
    pub fn collect(self) -> (chunks: Vec<Vec<u8>>)
        requires
            self.wf(),
        ensures
            chunks@.len() == self@.remaining_offsets().len(),
            forall|i: int|
                0 <= i < chunks@.len() ==> (#[trigger] chunks@[i])@ == self@.text.subrange(
                    self@.remaining_offsets()[i].0,
                    self@.remaining_offsets()[i].1,
                ),
    {
        let ghost before = self@;
        let ghost all = before.remaining_offsets();
        let mut chunker = self;
        let mut chunks: Vec<Vec<u8>> = Vec::new();
        proof {
            chunker.lemma_wf();
        }
        loop
            invariant
                chunker.wf(),
                chunker@.text == before.text,
                chunker@.config == before.config,
                0 <= chunker@.cursor <= before.text.len(),
                chunks@.len() <= all.len(),
                all.take(chunks@.len() as int) + chunker@.remaining_offsets() == all,
                forall|i: int|
                    0 <= i < chunks@.len() ==> (#[trigger] chunks@[i])@ == before.text.subrange(
                        all[i].0,
                        all[i].1,
                    ),
            ensures
                chunks@.len() == all.len(),
                forall|i: int|
                    0 <= i < chunks@.len() ==> (#[trigger] chunks@[i])@ == before.text.subrange(
                        all[i].0,
                        all[i].1,
                    ),
            decreases before.text.len() - chunker@.cursor,
        {
            let ghost start = chunker@.cursor;
            let ghost done = chunks@.len() as int;
            let next = chunker.next();
            proof {
                chunker.lemma_wf();
                if start < before.text.len() {
                    lemma_split_point_bounds(before.config, before.text, start);
                }
            }
            match next {
                Some(bytes) => {
                    proof {
                        let end = chunker@.cursor;
                        let rest = offsets_from(before.config, before.text, end);
                        assert(all =~= all.take(done) + (seq![(start, end)] + rest));
                        assert(all[done] == (start, end));
                        assert(all.take(done + 1) =~= all.take(done) + seq![(start, end)]);
                        assert(all.take(done + 1) + rest =~= all);
                    }
                    chunks.push(bytes);
                },
                None => {
                    proof {
                        assert(all.take(done) + Seq::<(int, int)>::empty() =~= all.take(done));
                    }
                    break ;
                },
            }
        }
        chunks
    }

    /// Rewinds the cursor to the start of the buffer. The configuration and
    /// the lookup table stay as they are, so the chunks come again as they
    /// came before.
    pub fn reset(&mut self)
        requires
            old(self).wf(),
        ensures
            final(self).wf(),
            final(self)@ == old(self)@.rewound(),
            final(self).lookup_table() == old(self).lookup_table(),
    {
        self.pos = 0;
    }
}

} // verus!
