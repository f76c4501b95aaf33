//! Character classification the lexer cannot get from the standard library.
//!
//! There is no standard accessor for the Unicode `Cf` (format) category, so
//! the class is carried here as data.
use vstd::prelude::*;

verus! {

/// The Unicode `Cf` (format) category at Unicode 16.0.0, as inclusive ranges
/// of characters sorted by their lower bound and pairwise disjoint.
pub open spec fn format_table() -> Seq<(char, char)> {
    seq![
        ('\u{00ad}', '\u{00ad}'),
        ('\u{0600}', '\u{0605}'),
        ('\u{061c}', '\u{061c}'),
        ('\u{06dd}', '\u{06dd}'),
        ('\u{070f}', '\u{070f}'),
        ('\u{0890}', '\u{0891}'),
        ('\u{08e2}', '\u{08e2}'),
        ('\u{180e}', '\u{180e}'),
        ('\u{200b}', '\u{200f}'),
        ('\u{202a}', '\u{202e}'),
        ('\u{2060}', '\u{2064}'),
        ('\u{2066}', '\u{206f}'),
        ('\u{feff}', '\u{feff}'),
        ('\u{fff9}', '\u{fffb}'),
        ('\u{110bd}', '\u{110bd}'),
        ('\u{110cd}', '\u{110cd}'),
        ('\u{13430}', '\u{1343f}'),
        ('\u{1bca0}', '\u{1bca3}'),
        ('\u{1d173}', '\u{1d17a}'),
        ('\u{e0001}', '\u{e0001}'),
        ('\u{e0020}', '\u{e007f}'),
    ]
}

/// Whether `c` is a Unicode `Cf` format character.
pub open spec fn is_format_char(c: char) -> bool {
    exists|k: int|
        0 <= k < format_table().len() && format_table()[k].0 <= c <= #[trigger] format_table()[k].1
}

/// The ranges of [`format_table`].
pub fn format_ranges() -> (r: Vec<(char, char)>)
    ensures
        r@.len() == format_table().len(),
        r@ == format_table(),
{
    let r = vec![
        ('\u{00ad}', '\u{00ad}'),
        ('\u{0600}', '\u{0605}'),
        ('\u{061c}', '\u{061c}'),
        ('\u{06dd}', '\u{06dd}'),
        ('\u{070f}', '\u{070f}'),
        ('\u{0890}', '\u{0891}'),
        ('\u{08e2}', '\u{08e2}'),
        ('\u{180e}', '\u{180e}'),
        ('\u{200b}', '\u{200f}'),
        ('\u{202a}', '\u{202e}'),
        ('\u{2060}', '\u{2064}'),
        ('\u{2066}', '\u{206f}'),
        ('\u{feff}', '\u{feff}'),
        ('\u{fff9}', '\u{fffb}'),
        ('\u{110bd}', '\u{110bd}'),
        ('\u{110cd}', '\u{110cd}'),
        ('\u{13430}', '\u{1343f}'),
        ('\u{1bca0}', '\u{1bca3}'),
        ('\u{1d173}', '\u{1d17a}'),
        ('\u{e0001}', '\u{e0001}'),
        ('\u{e0020}', '\u{e007f}'),
    ];
    assert(r@ =~= format_table());
    r
}

/// Check if a given character is a Unicode `Cf` format character.
///
/// This is the `Cf` counterpart to `char::is_control`'s `Cc`: both classes
/// render as nothing, so neither may enter a symbol.
pub fn is_format(c: char) -> (r: bool)
    ensures
        r == is_format_char(c),
{
    let ranges = format_ranges();
    let mut k: usize = 0;
    while k < ranges.len()
        invariant
            k <= ranges@.len(),
            ranges@.len() == format_table().len(),
            ranges@ == format_table(),
            forall|j: int|
                0 <= j < k ==> !(format_table()[j].0 <= c <= #[trigger] format_table()[j].1),
        decreases ranges@.len() - k,
    {
        let (low, high) = ranges[k];
        if low <= c && c <= high {
            assert(format_table()[k as int].0 <= c <= format_table()[k as int].1);
            return true;
        }
        k = k + 1;
    }
    false
}

} // verus!
