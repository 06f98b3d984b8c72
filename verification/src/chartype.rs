//! Byte classes and the scanning loops built on them.
//!
//! Each byte has a bitmask of the classes it belongs to, kept in a table of
//! 256 entries, so that a scanning loop tests a byte with one lookup.

use vstd::prelude::*;

verus! {

/// Bytes that end a run of text.
pub const CT_PARSE_PCDATA: u8 = 1;

/// Bytes that end an attribute value.
pub const CT_PARSE_ATTR: u8 = 2;

/// Bytes that end an attribute value whose white space is normalised.
pub const CT_PARSE_ATTR_WS: u8 = 4;

/// White space: carriage return, line feed, space, tab.
pub const CT_SPACE: u8 = 8;

/// Bytes that end a character-data section.
pub const CT_PARSE_CDATA: u8 = 16;

/// Bytes that end a comment.
pub const CT_PARSE_COMMENT: u8 = 32;

/// Bytes that may stand in a name.
pub const CT_SYMBOL: u8 = 64;

/// Bytes that may start a name.
pub const CT_START_SYMBOL: u8 = 128;

pub const LESS_THAN: u8 = 60;

pub const GREATER_THAN: u8 = 62;

pub const SLASH: u8 = 47;

pub const EQUAL: u8 = 61;

pub const EXCLAMATION_MARK: u8 = 33;

pub const QUESTION_MARK: u8 = 63;

/// The classes of every byte.
pub const CHARTYPE_TABLE: [u8; 256] = [
    55, 0, 0, 0, 0, 0, 0, 0, 0, 12, 12, 0, 0, 63, 0, 0,
    0, 0, 0, 0, 0, 0, 0, 0, 0, 0, 0, 0, 0, 0, 0, 0,
    8, 0, 6, 0, 0, 0, 7, 6, 0, 0, 0, 0, 0, 96, 64, 0,
    64, 64, 64, 64, 64, 64, 64, 64, 64, 64, 192, 0, 1, 0, 48, 0,
    0, 192, 192, 192, 192, 192, 192, 192, 192, 192, 192, 192, 192, 192, 192, 192,
    192, 192, 192, 192, 192, 192, 192, 192, 192, 192, 192, 0, 0, 16, 0, 192,
    0, 192, 192, 192, 192, 192, 192, 192, 192, 192, 192, 192, 192, 192, 192, 192,
    192, 192, 192, 192, 192, 192, 192, 192, 192, 192, 192, 0, 0, 0, 0, 0,
    192, 192, 192, 192, 192, 192, 192, 192, 192, 192, 192, 192, 192, 192, 192, 192,
    192, 192, 192, 192, 192, 192, 192, 192, 192, 192, 192, 192, 192, 192, 192, 192,
    192, 192, 192, 192, 192, 192, 192, 192, 192, 192, 192, 192, 192, 192, 192, 192,
    192, 192, 192, 192, 192, 192, 192, 192, 192, 192, 192, 192, 192, 192, 192, 192,
    192, 192, 192, 192, 192, 192, 192, 192, 192, 192, 192, 192, 192, 192, 192, 192,
    192, 192, 192, 192, 192, 192, 192, 192, 192, 192, 192, 192, 192, 192, 192, 192,
    192, 192, 192, 192, 192, 192, 192, 192, 192, 192, 192, 192, 192, 192, 192, 192,
    192, 192, 192, 192, 192, 192, 192, 192, 192, 192, 192, 192, 192, 192, 192, 192,
];

/// White space in markup: tab, line feed, carriage return, space.
pub open spec fn is_blank(b: u8) -> bool {
    b == 9 || b == 10 || b == 13 || b == 32
}

/// Whether `b` is white space in markup, by one lookup in the table.
pub fn is_blank_byte(b: u8) -> (r: bool)
    ensures
        r == is_blank(b),
{
    let classes: u8 = CHARTYPE_TABLE[b as usize];
    assert(55u8 & 8 == 0 && 0u8 & 8 == 0 && 12u8 & 8 != 0 && 63u8 & 8 != 0 && 8u8 & 8 != 0 && 6u8
        & 8 == 0 && 7u8 & 8 == 0 && 96u8 & 8 == 0 && 64u8 & 8 == 0 && 192u8 & 8 == 0 && 1u8 & 8
        == 0 && 48u8 & 8 == 0 && 16u8 & 8 == 0) by (bit_vector);
    (classes & CT_SPACE) != 0
}

/// White space as the C library knows it: space, tab, line feed, vertical
/// tab, form feed, carriage return.
pub open spec fn spec_is_space(c: u8) -> bool {
    c == 0x20 || c == 0x09 || c == 0x0a || c == 0x0b || c == 0x0c || c == 0x0d
}

/// Whether `c` is white space as the C library knows it.
#[verifier::when_used_as_spec(spec_is_space)]
pub fn is_space(c: u8) -> (r: bool)
    ensures
        r == spec_is_space(c),
{
    c == 0x20 || c == 0x09 || c == 0x0a || c == 0x0b || c == 0x0c || c == 0x0d
}

/// A byte at which a tag's name ends: white space or `>`.
pub open spec fn ends_name(b: u8) -> bool {
    is_blank(b) || b == GREATER_THAN
}

/// The first position at or after `from` that holds `b`; the length of `s`
/// if there is none.
pub open spec fn find_byte(s: Seq<u8>, from: int, b: u8) -> int
    decreases s.len() - from,
{
    if 0 <= from < s.len() && s[from] != b {
        find_byte(s, from + 1, b)
    } else {
        from
    }
}

/// The first position at or after `from` that holds no markup white space;
/// the length of `s` if there is none.
pub open spec fn skip_blanks(s: Seq<u8>, from: int) -> int
    decreases s.len() - from,
{
    if 0 <= from < s.len() && is_blank(s[from]) {
        skip_blanks(s, from + 1)
    } else {
        from
    }
}

/// The first position at or after `from` at which a name ends; the length of
/// `s` if there is none.
pub open spec fn find_name_end(s: Seq<u8>, from: int) -> int
    decreases s.len() - from,
{
    if 0 <= from < s.len() && !ends_name(s[from]) {
        find_name_end(s, from + 1)
    } else {
        from
    }
}

/// The first position at or after `from` that holds no white space of the C
/// library; the length of `s` if there is none.
pub open spec fn skip_spaces_from(s: Seq<u8>, from: int) -> int
    decreases s.len() - from,
{
    if 0 <= from < s.len() && spec_is_space(s[from]) {
        skip_spaces_from(s, from + 1)
    } else {
        from
    }
}

/// `find_byte` stops at the first `b` and passes over nothing else.
pub proof fn lemma_find_byte(s: Seq<u8>, from: int, b: u8)
    requires
        0 <= from <= s.len(),
    ensures
        from <= find_byte(s, from, b) <= s.len(),
        find_byte(s, from, b) < s.len() ==> s[find_byte(s, from, b)] == b,
        forall|j: int| from <= j < find_byte(s, from, b) ==> s[j] != b,
    decreases s.len() - from,
{
    if from < s.len() && s[from] != b {
        lemma_find_byte(s, from + 1, b);
    }
}

/// `skip_blanks` stops at the first byte that is no white space and passes
/// over white space only.
pub proof fn lemma_skip_blanks(s: Seq<u8>, from: int)
    requires
        0 <= from <= s.len(),
    ensures
        from <= skip_blanks(s, from) <= s.len(),
        skip_blanks(s, from) < s.len() ==> !is_blank(s[skip_blanks(s, from)]),
        forall|j: int| from <= j < skip_blanks(s, from) ==> is_blank(s[j]),
    decreases s.len() - from,
{
    if from < s.len() && is_blank(s[from]) {
        lemma_skip_blanks(s, from + 1);
    }
}

/// `find_name_end` stops at the first byte that ends a name and passes over
/// no such byte.
pub proof fn lemma_find_name_end(s: Seq<u8>, from: int)
    requires
        0 <= from <= s.len(),
    ensures
        from <= find_name_end(s, from) <= s.len(),
        find_name_end(s, from) < s.len() ==> ends_name(s[find_name_end(s, from)]),
        forall|j: int| from <= j < find_name_end(s, from) ==> !ends_name(s[j]),
    decreases s.len() - from,
{
    if from < s.len() && !ends_name(s[from]) {
        lemma_find_name_end(s, from + 1);
    }
}

/// `skip_spaces_from` stops at the first byte that is no white space and
/// passes over white space only.
pub proof fn lemma_skip_spaces_from(s: Seq<u8>, from: int)
    requires
        0 <= from <= s.len(),
    ensures
        from <= skip_spaces_from(s, from) <= s.len(),
        skip_spaces_from(s, from) < s.len() ==> !spec_is_space(s[skip_spaces_from(s, from)]),
        forall|j: int| from <= j < skip_spaces_from(s, from) ==> spec_is_space(s[j]),
    decreases s.len() - from,
{
    if from < s.len() && spec_is_space(s[from]) {
        lemma_skip_spaces_from(s, from + 1);
    }
}

/// Scans forward from `from` to the first byte equal to `c`. Returns its
/// position, or `None` if the input ends first.
pub fn scan_char(contents: &[u8], from: usize, c: u8) -> (r: Option<usize>)
    requires
        from <= contents@.len(),
    ensures
        match r {
            Some(k) => {
                &&& from <= k < contents@.len()
                &&& k == find_byte(contents@, from as int, c)
                &&& contents@[k as int] == c
                &&& forall|j: int| from <= j < k ==> contents@[j] != c
            },
            None => {
                &&& find_byte(contents@, from as int, c) >= contents@.len()
                &&& forall|j: int| from <= j < contents@.len() ==> contents@[j] != c
            },
        },
{
    proof {
        lemma_find_byte(contents@, from as int, c);
    }
    let mut p: usize = from;
    while p < contents.len() && contents[p] != c
        invariant
            from <= p <= contents@.len(),
            find_byte(contents@, from as int, c) == find_byte(contents@, p as int, c),
        decreases contents@.len() - p,
    {
        p += 1;
    }
    if p < contents.len() {
        Some(p)
    } else {
        None
    }
}

/// Scans forward from `from` to the first byte at which a name ends. Returns
/// its position, or `None` if the input ends first.
pub fn scan_name_end(contents: &[u8], from: usize) -> (r: Option<usize>)
    requires
        from <= contents@.len(),
    ensures
        match r {
            Some(k) => {
                &&& from <= k < contents@.len()
                &&& k == find_name_end(contents@, from as int)
                &&& ends_name(contents@[k as int])
                &&& forall|j: int| from <= j < k ==> !ends_name(contents@[j])
            },
            None => {
                &&& find_name_end(contents@, from as int) >= contents@.len()
                &&& forall|j: int| from <= j < contents@.len() ==> !ends_name(contents@[j])
            },
        },
{
    proof {
        lemma_find_name_end(contents@, from as int);
    }
    let mut p: usize = from;
    while p < contents.len() && !is_blank_byte(contents[p]) && contents[p] != GREATER_THAN
        invariant
            from <= p <= contents@.len(),
            find_name_end(contents@, from as int) == find_name_end(contents@, p as int),
        decreases contents@.len() - p,
    {
        p += 1;
    }
    if p < contents.len() {
        Some(p)
    } else {
        None
    }
}

/// Skips the markup white space that starts at `from` and returns the
/// position after it, which is the input's length if nothing else follows.
pub fn skip_blank(contents: &[u8], from: usize) -> (r: usize)
    requires
        from <= contents@.len(),
    ensures
        from <= r <= contents@.len(),
        r == skip_blanks(contents@, from as int),
        r < contents@.len() ==> !is_blank(contents@[r as int]),
        forall|j: int| from <= j < r ==> is_blank(contents@[j]),
{
    proof {
        lemma_skip_blanks(contents@, from as int);
    }
    let mut p: usize = from;
    while p < contents.len() && is_blank_byte(contents[p])
        invariant
            from <= p <= contents@.len(),
            skip_blanks(contents@, from as int) == skip_blanks(contents@, p as int),
        decreases contents@.len() - p,
    {
        p += 1;
    }
    p
}

/// Moves `p` over the white space that starts there, up to the end of the
/// input. A position at or beyond the end stays where it is.
pub fn skip_spaces(contents: &[u8], p: &mut usize)
    ensures
        *final(p) == skip_spaces_from(contents@, *old(p) as int),
        *old(p) <= contents@.len() ==> *old(p) <= *final(p) <= contents@.len(),
        *old(p) > contents@.len() ==> *final(p) == *old(p),
        *final(p) < contents@.len() ==> !spec_is_space(contents@[*final(p) as int]),
        forall|j: int| *old(p) <= j < *final(p) ==> spec_is_space(contents@[j]),
{
    proof {
        if *p <= contents@.len() {
            lemma_skip_spaces_from(contents@, *p as int);
        }
    }
    while *p < contents.len() && is_space(contents[*p])
        invariant
            *old(p) <= contents@.len() ==> *old(p) <= *p <= contents@.len(),
            skip_spaces_from(contents@, *old(p) as int) == skip_spaces_from(contents@, *p as int),
        decreases contents@.len() - *p,
    {
        *p += 1;
    }
}

} // verus!
