//! A single source buffer.
//!
//! [`Source`] is an in-memory text buffer, capped at [`MAX_SOURCE_LEN`] bytes,
//! with the byte-to-[`Position`] mapping used by the rest of the source stage.
//!
//! The text is modelled as its sequence of characters; a byte offset is the
//! length of the UTF-8 encoding of the characters before it.
use vstd::prelude::*;
use vstd::string::StringSliceAdditionalSpecFns;
use vstd::utf8::{
    char_is_scalar, decode_utf8, encode_scalar, encode_utf8, encode_utf8_decode_utf8,
    encode_utf8_first_scalar, encode_utf8_valid_utf8, is_char_boundary, pop_first_scalar,
};
use vstd::std_specs::iter::IteratorSpec;
use crate::source::{Position, Span};

verus! {

/// Maximum source length in bytes.  [`Span`]'s fields are `u32`, so they work
/// happily with content of at most this size.
pub const MAX_SOURCE_LEN: usize = 4294967295;

/// Number of bytes in the UTF-8 encoding of `c`.
pub open spec fn char_width(c: char) -> nat {
    if (c as u32) < 0x80 {
        1
    } else if (c as u32) < 0x800 {
        2
    } else if (c as u32) < 0x10000 {
        3
    } else {
        4
    }
}

/// Number of bytes in the UTF-8 encoding of `text`.
pub open spec fn byte_len(text: Seq<char>) -> nat {
    encode_utf8(text).len()
}

/// Byte offset of the character at index `i` of `text`.
pub open spec fn byte_at(text: Seq<char>, i: int) -> nat {
    byte_len(text.take(i))
}

/// Whether byte offset `b` is the start of a character of `text`, or its end.
pub open spec fn is_boundary(text: Seq<char>, b: int) -> bool {
    exists|i: int| 0 <= i <= text.len() && byte_at(text, i) == b
}

/// The character index whose byte offset is `b`.
pub open spec fn char_index_of(text: Seq<char>, b: int) -> int {
    choose|i: int| 0 <= i <= text.len() && byte_at(text, i) == b
}

/// Whether `i` is the index of the character that covers byte `b`: the last
/// character starting at or before `b` (or the end of the text).
pub open spec fn is_floor_char(text: Seq<char>, b: int, i: int) -> bool {
    &&& 0 <= i <= text.len()
    &&& byte_at(text, i) <= b
    &&& (i < text.len() ==> b < byte_at(text, i + 1))
}

/// The index of the character covering byte `b`.
pub open spec fn floor_char_of(text: Seq<char>, b: int) -> int {
    choose|i: int| is_floor_char(text, b, i)
}

/// Number of line feeds among the first `i` characters of `text`.
pub open spec fn count_newlines(text: Seq<char>, i: int) -> nat
    decreases i,
{
    if i <= 0 {
        0
    } else {
        count_newlines(text, i - 1) + if text[i - 1] == '\n' {
            1nat
        } else {
            0nat
        }
    }
}

/// Index of the first character of the line holding character `i`.
pub open spec fn line_start_before(text: Seq<char>, i: int) -> int
    decreases i,
{
    if i <= 0 {
        0
    } else if text[i - 1] == '\n' {
        i
    } else {
        line_start_before(text, i - 1)
    }
}

/// 1-indexed line number of the character at index `i`.
pub open spec fn line_of(text: Seq<char>, i: int) -> nat {
    count_newlines(text, i) + 1
}

/// 1-indexed column of the character at index `i`, counted in characters.
pub open spec fn col_of(text: Seq<char>, i: int) -> nat {
    (i - line_start_before(text, i) + 1) as nat
}

/// The 1-indexed line on which the last character `span` covers lies; an
/// empty span lies on the line it sits on.
pub open spec fn last_line_of(text: Seq<char>, span: Span) -> nat {
    let e = char_index_of(text, span.end as int);
    if span.start < span.end {
        line_of(text, e - 1)
    } else {
        line_of(text, e)
    }
}

/// Character indices at which the lines among the first `n` characters
/// start: index 0, then the index after every line feed.
pub open spec fn line_starts_upto(text: Seq<char>, n: int) -> Seq<int>
    decreases n,
{
    if n <= 0 {
        seq![0]
    } else {
        let prev = line_starts_upto(text, n - 1);
        if text[n - 1] == '\n' {
            prev.push(n)
        } else {
            prev
        }
    }
}

/// Character indices at which the lines of `text` start.
pub open spec fn line_starts_of(text: Seq<char>) -> Seq<int> {
    line_starts_upto(text, text.len() as int)
}

/// Character index one past the last character of the 1-indexed `line`,
/// excluding its line feed.
pub open spec fn line_end_of(text: Seq<char>, line: int) -> int {
    let starts = line_starts_of(text);
    if line == starts.len() {
        text.len() as int
    } else {
        starts[line] - 1
    }
}

/// The characters of the 1-indexed `line`, without its line feed.
pub open spec fn line_text_spec(text: Seq<char>, line: int) -> Seq<char> {
    text.subrange(line_starts_of(text)[line - 1], line_end_of(text, line))
}

/* Lemmas on the UTF-8 byte model */

/// The encoding of two texts is the encoding of each, in turn.
pub proof fn lemma_encode_concat(a: Seq<char>, b: Seq<char>)
    ensures
        encode_utf8(a + b) == encode_utf8(a) + encode_utf8(b),
    decreases a.len(),
{
    if a.len() == 0 {
        assert(a + b =~= b);
        assert(encode_utf8(a) + encode_utf8(b) =~= encode_utf8(b));
    } else {
        lemma_encode_concat(a.drop_first(), b);
        assert((a + b).drop_first() =~= a.drop_first() + b);
        assert((a + b)[0] == a[0]);
        assert(encode_utf8(a + b) =~= encode_scalar(a[0] as u32) + (encode_utf8(a.drop_first())
            + encode_utf8(b)));
        assert(encode_utf8(a) + encode_utf8(b) =~= encode_scalar(a[0] as u32) + (encode_utf8(
            a.drop_first(),
        ) + encode_utf8(b)));
    }
}

/// A single character encodes as its scalar, in as many bytes as its width.
pub proof fn lemma_encode_single(c: char)
    ensures
        encode_utf8(seq![c]) == encode_scalar(c as u32),
        encode_scalar(c as u32).len() == char_width(c),
{
    char_is_scalar(c);
    assert(seq![c].drop_first() =~= Seq::<char>::empty());
    assert(encode_utf8(Seq::<char>::empty()) =~= Seq::<u8>::empty());
    assert(encode_utf8(seq![c]) =~= encode_scalar(c as u32));
}

/// Stepping over one character advances the byte offset by its width.
pub proof fn lemma_byte_at_step(text: Seq<char>, i: int)
    requires
        0 <= i < text.len(),
    ensures
        byte_at(text, i + 1) == byte_at(text, i) + char_width(text[i]),
{
    assert(text.take(i + 1) =~= text.take(i) + seq![text[i]]);
    lemma_encode_concat(text.take(i), seq![text[i]]);
    lemma_encode_single(text[i]);
}

/// Byte offsets grow by at least one per character.
pub proof fn lemma_byte_at_mono(text: Seq<char>, i: int, j: int)
    requires
        0 <= i <= j <= text.len(),
    ensures
        byte_at(text, i) + (j - i) <= byte_at(text, j),
    decreases j - i,
{
    if i < j {
        lemma_byte_at_mono(text, i, j - 1);
        lemma_byte_at_step(text, j - 1);
    }
}

/// The offset of the end of the text is its byte length, and of the start 0.
pub proof fn lemma_byte_at_ends(text: Seq<char>)
    ensures
        byte_at(text, text.len() as int) == byte_len(text),
        byte_at(text, 0) == 0,
{
    assert(text.take(text.len() as int) =~= text);
    assert(text.take(0) =~= Seq::<char>::empty());
    assert(encode_utf8(Seq::<char>::empty()) =~= Seq::<u8>::empty());
}

/// Distinct character indices have distinct byte offsets.
pub proof fn lemma_byte_at_injective(text: Seq<char>, i: int, j: int)
    requires
        0 <= i <= text.len(),
        0 <= j <= text.len(),
        byte_at(text, i) == byte_at(text, j),
    ensures
        i == j,
{
    if i < j {
        lemma_byte_at_mono(text, i, j);
    } else if j < i {
        lemma_byte_at_mono(text, j, i);
    }
}

/// A boundary names exactly one character index.
pub proof fn lemma_char_index_of(text: Seq<char>, i: int)
    requires
        0 <= i <= text.len(),
    ensures
        is_boundary(text, byte_at(text, i) as int),
        char_index_of(text, byte_at(text, i) as int) == i,
{
    let b = byte_at(text, i) as int;
    assert(0 <= i <= text.len() && byte_at(text, i) == b);
    let j = char_index_of(text, b);
    lemma_byte_at_injective(text, i, j);
}

/// The covering character of a byte is unique.
pub proof fn lemma_floor_char_unique(text: Seq<char>, b: int, i: int)
    requires
        is_floor_char(text, b, i),
    ensures
        floor_char_of(text, b) == i,
{
    let j = floor_char_of(text, b);
    assert(is_floor_char(text, b, j));
    if j < i {
        lemma_byte_at_mono(text, j + 1, i);
    } else if i < j {
        lemma_byte_at_mono(text, i + 1, j);
    }
}

proof fn lemma_take_take(text: Seq<char>, i: int, j: int)
    requires
        0 <= i <= j <= text.len(),
    ensures
        byte_at(text.take(j), i) == byte_at(text, i),
{
    assert(text.take(j).take(i) =~= text.take(i));
}

/// Every character offset of `text` is a character boundary of its encoding.
pub proof fn lemma_boundary(text: Seq<char>, i: int)
    requires
        0 <= i <= text.len(),
    ensures
        is_char_boundary(encode_utf8(text), byte_at(text, i) as int),
    decreases text.len(),
{
    let bytes = encode_utf8(text);
    encode_utf8_valid_utf8(text);
    if i == 0 {
        lemma_byte_at_ends(text);
    } else {
        let rest = text.drop_first();
        encode_utf8_first_scalar(text);
        lemma_encode_single(text[0]);
        assert(bytes == encode_scalar(text[0] as u32) + encode_utf8(rest));
        assert(pop_first_scalar(bytes) =~= encode_utf8(rest));
        assert(text.take(i) =~= seq![text[0]] + rest.take(i - 1));
        lemma_encode_concat(seq![text[0]], rest.take(i - 1));
        lemma_boundary(rest, i - 1);
        lemma_byte_at_mono(text, i, text.len() as int);
        lemma_byte_at_ends(text);
        encode_utf8_valid_utf8(rest);
    }
}

/// The bytes between two character offsets encode the characters between them.
pub proof fn lemma_slice_bytes(text: Seq<char>, i: int, j: int)
    requires
        0 <= i <= j <= text.len(),
    ensures
        encode_utf8(text).subrange(byte_at(text, i) as int, byte_at(text, j) as int)
            == encode_utf8(text.subrange(i, j)),
{
    let a = text.take(i);
    let m = text.subrange(i, j);
    let z = text.skip(j);
    assert(text =~= a + m + z);
    assert(text.take(j) =~= a + m);
    lemma_encode_concat(a, m);
    lemma_encode_concat(a + m, z);
    assert(encode_utf8(text).subrange(byte_at(text, i) as int, byte_at(text, j) as int)
        =~= encode_utf8(m));
}

/* Lemmas on line starts */

proof fn lemma_line_starts_basic(text: Seq<char>, n: int)
    requires
        0 <= n <= text.len(),
    ensures
        line_starts_upto(text, n).len() == count_newlines(text, n) + 1,
        line_starts_upto(text, n).last() == line_start_before(text, n),
        line_starts_upto(text, n)[0] == 0,
        forall|a: int, b: int|
            0 <= a < b < line_starts_upto(text, n).len() ==> line_starts_upto(text, n)[a]
                < line_starts_upto(text, n)[b],
        forall|a: int|
            0 <= a < line_starts_upto(text, n).len() ==> 0 <= #[trigger] line_starts_upto(text, n)[a]
                <= n,
    decreases n,
{
    if n > 0 {
        lemma_line_starts_basic(text, n - 1);
    }
}

proof fn lemma_line_starts_prefix(text: Seq<char>, m: int, n: int)
    requires
        0 <= m <= n <= text.len(),
    ensures
        line_starts_upto(text, m).len() <= line_starts_upto(text, n).len(),
        forall|k: int|
            0 <= k < line_starts_upto(text, m).len() ==> line_starts_upto(text, n)[k]
                == line_starts_upto(text, m)[k],
        forall|k: int|
            line_starts_upto(text, m).len() <= k < line_starts_upto(text, n).len()
                ==> line_starts_upto(text, n)[k] > m,
    decreases n - m,
{
    if m < n {
        lemma_line_starts_prefix(text, m, n - 1);
    }
}

/// The line holding character `i` is found among the line starts by the last
/// start at or before `i`.
pub proof fn lemma_line_floor(text: Seq<char>, i: int)
    requires
        0 <= i <= text.len(),
    ensures
        count_newlines(text, i) < line_starts_of(text).len(),
        line_starts_of(text)[count_newlines(text, i) as int] == line_start_before(text, i),
        line_start_before(text, i) <= i,
        count_newlines(text, i) + 1 < line_starts_of(text).len() ==> line_starts_of(text)[(
        count_newlines(text, i) + 1) as int] > i,
{
    lemma_line_starts_basic(text, i);
    lemma_line_starts_prefix(text, i, text.len() as int);
}

/// Positions move on as text is read: a line feed ends its line, so the
/// character after it starts the next line at column 1, and any other
/// character moves one column along its line.
pub proof fn lemma_positions_advance(text: Seq<char>, i: int)
    requires
        0 <= i < text.len(),
    ensures
        text[i] == '\n' ==> line_of(text, i + 1) == line_of(text, i) + 1 && col_of(text, i + 1)
            == 1,
        text[i] != '\n' ==> line_of(text, i + 1) == line_of(text, i) && col_of(text, i + 1)
            == col_of(text, i) + 1,
{
    lemma_line_floor(text, i);
}

/// Within a line, columns count characters: between two characters with no
/// line feed among those before the second, the columns differ by the
/// number of characters between them.
pub proof fn lemma_columns_count_characters(text: Seq<char>, i: int, j: int)
    requires
        0 <= i <= j <= text.len(),
        forall|k: int| i <= k < j ==> text[k] != '\n',
    ensures
        line_of(text, j) == line_of(text, i),
        col_of(text, j) == col_of(text, i) + (j - i),
    decreases j - i,
{
    if i < j {
        lemma_columns_count_characters(text, i, j - 1);
        lemma_positions_advance(text, j - 1);
    }
}

/// Line starts are strictly increasing, start at 0 and stay within the text.
pub proof fn lemma_line_starts_sorted(text: Seq<char>)
    ensures
        line_starts_of(text).len() == count_newlines(text, text.len() as int) + 1,
        line_starts_of(text)[0] == 0,
        forall|a: int, b: int|
            0 <= a < b < line_starts_of(text).len() ==> line_starts_of(text)[a]
                < line_starts_of(text)[b],
        forall|a: int|
            0 <= a < line_starts_of(text).len() ==> 0 <= #[trigger] line_starts_of(text)[a]
                <= text.len(),
{
    lemma_line_starts_basic(text, text.len() as int);
}

/// A line start other than the first follows a line feed.
proof fn lemma_line_start_after_newline(text: Seq<char>, k: int)
    requires
        1 <= k < line_starts_of(text).len(),
    ensures
        1 <= line_starts_of(text)[k] <= text.len(),
        text[line_starts_of(text)[k] - 1] == '\n',
{
    lemma_line_starts_newlines(text, text.len() as int);
}

proof fn lemma_line_starts_newlines(text: Seq<char>, n: int)
    requires
        0 <= n <= text.len(),
    ensures
        forall|k: int|
            1 <= k < line_starts_upto(text, n).len() ==> 1 <= #[trigger] line_starts_upto(
                text,
                n,
            )[k] <= n && text[line_starts_upto(text, n)[k] - 1] == '\n',
    decreases n,
{
    if n > 0 {
        lemma_line_starts_newlines(text, n - 1);
        let prev = line_starts_upto(text, n - 1);
        let cur = line_starts_upto(text, n);
        assert forall|k: int| 1 <= k < cur.len() implies 1 <= #[trigger] cur[k] <= n && text[cur[k]
            - 1] == '\n' by {
            if k < prev.len() {
                assert(cur[k] == prev[k]);
            }
        }
    }
}

/* Executable helpers */

/// Number of bytes in the UTF-8 encoding of `c`.
fn utf8_width(c: char) -> (w: u32)
    ensures
        w == char_width(c),
        1 <= w <= 4,
{
    let v = c as u32;
    if v < 0x80 {
        1
    } else if v < 0x800 {
        2
    } else if v < 0x10000 {
        3
    } else {
        4
    }
}

/// Index of the last element of a strictly increasing `v` that is at most `x`.
pub(crate) fn floor_index(v: &Vec<u32>, x: u32) -> (r: usize)
    requires
        v@.len() > 0,
        v@[0] <= x,
        forall|a: int, b: int| 0 <= a < b < v@.len() ==> v@[a] < v@[b],
    ensures
        r < v@.len(),
        v@[r as int] <= x,
        r + 1 < v@.len() ==> x < v@[r + 1],
{
    let mut lo: usize = 0;
    let mut hi: usize = v.len();
    while lo + 1 < hi
        invariant
            0 <= lo < hi <= v@.len(),
            v@[lo as int] <= x,
            hi < v@.len() ==> x < v@[hi as int],
            forall|a: int, b: int| 0 <= a < b < v@.len() ==> v@[a] < v@[b],
        decreases hi - lo,
    {
        let mid = lo + (hi - lo) / 2;
        if v[mid] <= x {
            lo = mid;
        } else {
            hi = mid;
        }
    }
    lo
}

/// Error in constructing a [`Source`].
#[derive(Debug)]
pub enum SourceError {
    /// Given contents for source construction was too large.
    TooLarge {
        /// Name of source.
        name: String,
        /// Length of source.
        len: usize,
        /// Limit for how large the source may be.
        limit: usize,
    },
}

/// Contiguous collection of text for scanning purposes.
#[derive(Debug)]
pub struct Source {
    /// Name of the source.
    pub name: String,
    /// Contents of the source.
    contents: String,
    /// The characters of the contents.
    chars: Vec<char>,
    /// Byte offset of every character index, the end included.
    offsets: Vec<u32>,
    /// Character index of the start of every line.
    line_starts: Vec<u32>,
}

impl View for Source {
    type V = Seq<char>;

    /// The characters of the source.
    closed spec fn view(&self) -> Seq<char> {
        self.contents@
    }
}

impl Source {
    /// Internal consistency of a source.
    pub closed spec fn wf(&self) -> bool {
        &&& byte_len(self.contents@) <= MAX_SOURCE_LEN
        &&& self.chars@ == self.contents@
        &&& self.offsets@.len() == self.chars@.len() + 1
        &&& forall|k: int|
            0 <= k <= self.chars@.len() ==> self.offsets@[k] == byte_at(self.contents@, k)
        &&& self.line_starts@.len() == line_starts_of(self.contents@).len()
        &&& forall|k: int|
            0 <= k < self.line_starts@.len() ==> self.line_starts@[k] == line_starts_of(
                self.contents@,
            )[k]
    }

    /// The name of the source.
    pub closed spec fn name_view(&self) -> Seq<char> {
        self.name@
    }

    /// The name of the source.
    pub fn source_name(&self) -> (r: &str)
        ensures
            r@ == self.name_view(),
    {
        self.name.as_str()
    }

    /// A well-formed source fits the byte limit.
    pub proof fn lemma_wf_len(&self)
        requires
            self.wf(),
        ensures
            byte_len(self@) <= MAX_SOURCE_LEN,
    {
    }

    /// Construct a [`Source`] from the given `contents`, failing when it is
    /// longer than [`MAX_SOURCE_LEN`] bytes.
    pub fn from_contents(source_name: &str, contents: String) -> (r: Result<Self, SourceError>)
        ensures
            byte_len(contents@) <= MAX_SOURCE_LEN <==> r is Ok,
            r matches Ok(s) ==> s.wf() && s@ == contents@ && s.name_view() == source_name@,
            r matches Err(SourceError::TooLarge { name, len, limit }) ==> name@ == source_name@
                && len == byte_len(contents@) && limit == MAX_SOURCE_LEN,
    {
        Self::from_contents_limited(source_name, contents, MAX_SOURCE_LEN)
    }

    /// Construct a [`Source`] from the given `contents`, failing when it is
    /// longer than `limit` bytes.
    pub fn from_contents_limited(source_name: &str, contents: String, limit: usize) -> (r: Result<
        Self,
        SourceError,
    >)
        requires
            limit <= MAX_SOURCE_LEN || byte_len(contents@) <= MAX_SOURCE_LEN,
        ensures
            byte_len(contents@) <= limit <==> r is Ok,
            r matches Ok(s) ==> s.wf() && s@ == contents@ && s.name_view() == source_name@,
            r matches Err(SourceError::TooLarge { name, len, limit: l }) ==> name@
                == source_name@ && len == byte_len(contents@) && l == limit,
    {
        let name = source_name.to_owned();
        let len = contents.as_str().as_bytes().len();
        if len > limit {
            return Err(SourceError::TooLarge { name, len, limit });
        }
        let ghost text = contents@;
        let mut chars: Vec<char> = Vec::new();
        for c in it: contents.as_str().chars()
            invariant
                chars@ == it.seq().take(it.index() as int),
        {
            chars.push(c);
        }
        assert(chars@ =~= text);
        let mut offsets: Vec<u32> = Vec::new();
        let mut line_starts: Vec<u32> = Vec::new();
        let mut off: u32 = 0;
        offsets.push(0);
        line_starts.push(0);
        proof {
            lemma_byte_at_ends(text);
            lemma_byte_at_mono(text, 0, text.len() as int);
        }
        let mut i: usize = 0;
        while i < chars.len()
            invariant
                chars@ == text,
                byte_len(text) <= limit,
                byte_len(text) <= MAX_SOURCE_LEN,
                text.len() <= byte_len(text),
                0 <= i <= chars@.len(),
                off == byte_at(text, i as int),
                offsets@.len() == i + 1,
                forall|k: int| 0 <= k <= i ==> offsets@[k] == byte_at(text, k),
                line_starts@.len() == line_starts_upto(text, i as int).len(),
                forall|k: int|
                    0 <= k < line_starts@.len() ==> line_starts@[k] == line_starts_upto(
                        text,
                        i as int,
                    )[k],
            decreases chars@.len() - i,
        {
            let c = chars[i];
            proof {
                lemma_byte_at_step(text, i as int);
                lemma_byte_at_mono(text, i + 1, text.len() as int);
                lemma_byte_at_ends(text);
            }
            off = off + utf8_width(c);
            offsets.push(off);
            if c == '\n' {
                line_starts.push((i + 1) as u32);
            }
            i = i + 1;
        }
        Ok(Source { name, contents, chars, offsets, line_starts })
    }

    /// Get the length of the source in bytes.
    pub fn len(&self) -> (r: usize)
        ensures
            r == byte_len(self@),
    {
        self.contents.as_str().as_bytes().len()
    }

    /// Check if the source is empty.
    pub fn is_empty(&self) -> (r: bool)
        ensures
            r == (byte_len(self@) == 0),
    {
        self.len() == 0
    }

    /// Check if the given byte position points to the end of the source
    /// content, or past it.
    pub fn eos(&self, pos: usize) -> (r: bool)
        ensures
            r == (byte_len(self@) <= pos),
    {
        self.len() <= pos
    }

    /// Check if the given `span` lies within the source.
    pub fn valid_span(&self, span: Span) -> (r: bool)
        ensures
            r == (span.start <= byte_len(self@) && span.end <= byte_len(self@)),
    {
        (span.start as usize) <= self.len() && (span.end as usize) <= self.len()
    }

    /// Get the bytes of the contents of this source.
    pub fn bytes(&self) -> (r: &[u8])
        ensures
            r@ == encode_utf8(self@),
    {
        self.contents.as_str().as_bytes()
    }

    /// Get the characters of the contents of this source.
    pub fn text(&self) -> (r: &str)
        ensures
            r@ == self@,
    {
        self.contents.as_str()
    }

    /// The characters of the source, one per element.
    pub fn char_vec(&self) -> (r: &Vec<char>)
        requires
            self.wf(),
        ensures
            r@ == self@,
    {
        &self.chars
    }

    /// Byte offset of the character at index `i`, which may be the end.
    pub fn offset_of(&self, i: usize) -> (r: u32)
        requires
            self.wf(),
            i <= self@.len(),
        ensures
            r == byte_at(self@, i as int),
    {
        self.offsets[i]
    }

    /// The character index of a byte offset that is a character boundary.
    fn char_index(&self, byte: u32) -> (r: usize)
        requires
            self.wf(),
            is_boundary(self@, byte as int),
        ensures
            r <= self@.len(),
            byte_at(self@, r as int) == byte,
            r == char_index_of(self@, byte as int),
    {
        let ghost text = self@;
        proof {
            let j = char_index_of(text, byte as int);
            lemma_byte_at_mono(text, 0, j);
            lemma_byte_at_ends(text);
            assert forall|a: int, b: int| 0 <= a < b < self.offsets@.len() implies self.offsets@[a]
                < self.offsets@[b] by {
                lemma_byte_at_mono(text, a, b);
            }
        }
        let r = floor_index(&self.offsets, byte);
        proof {
            let j = char_index_of(text, byte as int);
            if (r as int) < j {
                lemma_byte_at_mono(text, r + 1, j);
            } else if (r as int) > j {
                lemma_byte_at_mono(text, j + 1, r as int);
            }
        }
        r
    }

    /// The index of the character covering byte offset `byte`.
    fn char_floor(&self, byte: u32) -> (r: usize)
        requires
            self.wf(),
            byte <= byte_len(self@),
        ensures
            is_floor_char(self@, byte as int, r as int),
            r == floor_char_of(self@, byte as int),
    {
        let ghost text = self@;
        proof {
            lemma_byte_at_ends(text);
            assert forall|a: int, b: int| 0 <= a < b < self.offsets@.len() implies self.offsets@[a]
                < self.offsets@[b] by {
                lemma_byte_at_mono(text, a, b);
            }
        }
        let r = floor_index(&self.offsets, byte);
        proof {
            lemma_floor_char_unique(text, byte as int, r as int);
        }
        r
    }

    /// The text between two character indices.
    fn slice(&self, i: usize, j: usize) -> (r: &str)
        requires
            self.wf(),
            i <= j <= self@.len(),
        ensures
            r@ == self@.subrange(i as int, j as int),
            r.spec_bytes() == encode_utf8(self@).subrange(
                byte_at(self@, i as int) as int,
                byte_at(self@, j as int) as int,
            ),
    {
        let ghost text = self@;
        let whole = self.contents.as_str();
        let bend = self.offsets[j] as usize;
        let bstart = self.offsets[i] as usize;
        proof {
            lemma_boundary(text, j as int);
            lemma_byte_at_ends(text);
            lemma_byte_at_mono(text, j as int, text.len() as int);
        }
        let (head, _tail) = whole.split_at(bend);
        proof {
            lemma_slice_bytes(text, 0, j as int);
            assert(text.subrange(0, j as int) =~= text.take(j as int));
            lemma_boundary(text.take(j as int), i as int);
            lemma_take_take(text, i as int, j as int);
            lemma_byte_at_ends(text.take(j as int));
            lemma_byte_at_mono(text, i as int, j as int);
        }
        let (_before, piece) = head.split_at(bstart);
        proof {
            lemma_slice_bytes(text, i as int, j as int);
            assert(piece.spec_bytes() =~= encode_utf8(text).subrange(
                byte_at(text, i as int) as int,
                byte_at(text, j as int) as int,
            ));
            encode_utf8_decode_utf8(piece@);
            encode_utf8_decode_utf8(text.subrange(i as int, j as int));
        }
        piece
    }

    /// Get the characters of the contents of this source from a byte
    /// position onwards, which must be a character boundary.
    pub fn chars_from(&self, pos: usize) -> (r: std::str::Chars<'_>)
        requires
            self.wf(),
            pos <= byte_len(self@),
            is_boundary(self@, pos as int),
        ensures
            r.remaining() == self@.subrange(char_index_of(self@, pos as int), self@.len() as int),
    {
        let i = self.char_index(pos as u32);
        let rest = self.slice(i, self.chars.len());
        rest.chars()
    }

    /// Map a span into a string in the content of this source.
    ///
    /// Both ends of the span must be character boundaries within the source.
    pub fn span_text(&self, span: Span) -> (r: &str)
        requires
            self.wf(),
            span.start <= span.end,
            span.end <= byte_len(self@),
            is_boundary(self@, span.start as int),
            is_boundary(self@, span.end as int),
        ensures
            r@ == self@.subrange(
                char_index_of(self@, span.start as int),
                char_index_of(self@, span.end as int),
            ),
            r.spec_bytes() == encode_utf8(self@).subrange(span.start as int, span.end as int),
    {
        let i = self.char_index(span.start);
        let j = self.char_index(span.end);
        proof {
            if j < i {
                lemma_byte_at_mono(self@, j as int, i as int);
            }
        }
        self.slice(i, j)
    }

    /// The 0-indexed line holding character `i`, and that line's first
    /// character.
    fn line_index(&self, i: usize) -> (r: usize)
        requires
            self.wf(),
            i <= self@.len(),
        ensures
            r == count_newlines(self@, i as int),
            r < self.line_starts@.len(),
            self.line_starts@[r as int] == line_start_before(self@, i as int),
    {
        let ghost text = self@;
        proof {
            lemma_line_starts_sorted(text);
            lemma_line_floor(text, i as int);
            lemma_byte_at_mono(text, 0, text.len() as int);
            lemma_byte_at_ends(text);
        }
        let r = floor_index(&self.line_starts, i as u32);
        proof {
            let c = count_newlines(text, i as int) as int;
            let s = line_starts_of(text);
            if (r as int) < c {
                assert(s[r + 1] <= s[c]);
            } else if (r as int) > c {
                assert(s[c + 1] <= s[r as int]);
            }
        }
        r
    }

    /// Converts a byte position to a [`Position`] within the contents of this
    /// source.  The byte must be a character boundary.
    pub fn position_at(&self, byte: usize) -> (r: Position)
        requires
            self.wf(),
            byte <= byte_len(self@),
            is_boundary(self@, byte as int),
        ensures
            r.line == line_of(self@, char_index_of(self@, byte as int)),
            r.col == col_of(self@, char_index_of(self@, byte as int)),
    {
        let i = self.char_index(byte as u32);
        let line = self.line_index(i);
        let start = self.line_starts[line] as usize;
        let _count = self.line_starts.len();
        let _width = self.offsets.len();
        proof {
            lemma_line_floor(self@, i as int);
            lemma_byte_at_mono(self@, 0, self@.len() as int);
            lemma_byte_at_ends(self@);
        }
        Position::new(line + 1, i - start + 1)
    }

    /// Converts a span into the pair of [`Position`]s of its ends.
    ///
    /// The second position is one past the span's last character, so an empty
    /// span has equal positions.
    pub fn span_positions(&self, span: Span) -> (r: (Position, Position))
        requires
            self.wf(),
            span.start <= byte_len(self@),
            span.end <= byte_len(self@),
            is_boundary(self@, span.start as int),
            is_boundary(self@, span.end as int),
        ensures
            r.0.line == line_of(self@, char_index_of(self@, span.start as int)),
            r.0.col == col_of(self@, char_index_of(self@, span.start as int)),
            r.1.line == line_of(self@, char_index_of(self@, span.end as int)),
            r.1.col == col_of(self@, char_index_of(self@, span.end as int)),
    {
        (self.position_at(span.start as usize), self.position_at(span.end as usize))
    }

    /// The number of lines in the source; a trailing line feed starts an
    /// empty final line.
    pub fn line_count(&self) -> (r: usize)
        requires
            self.wf(),
        ensures
            r == line_starts_of(self@).len(),
    {
        self.line_starts.len()
    }

    /// Get the text of a full line given the 1-indexed line number, without
    /// its line feed.
    pub fn line_text(&self, line: usize) -> (r: &str)
        requires
            self.wf(),
            1 <= line <= line_starts_of(self@).len(),
        ensures
            r@ == line_text_spec(self@, line as int),
    {
        let ghost text = self@;
        proof {
            lemma_line_starts_sorted(text);
            if line < line_starts_of(text).len() {
                lemma_line_start_after_newline(text, line as int);
            }
        }
        let start = self.line_starts[line - 1] as usize;
        let end = if line == self.line_starts.len() {
            self.chars.len()
        } else {
            (self.line_starts[line] - 1) as usize
        };
        self.slice(start, end)
    }

    /// Get the text of the full line a byte offset lies in.  The offset need
    /// not be a character boundary.
    pub fn line_text_of(&self, byte: usize) -> (r: &str)
        requires
            self.wf(),
            byte <= byte_len(self@),
        ensures
            r@ == line_text_spec(self@, line_of(self@, floor_char_of(self@, byte as int)) as int),
    {
        let i = self.char_floor(byte as u32);
        let line = self.line_index(i);
        let _count = self.line_starts.len();
        proof {
            lemma_line_floor(self@, i as int);
        }
        self.line_text(line + 1)
    }
}

} // verus!
