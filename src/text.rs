//! Character-level helpers: reading a string as characters, character
//! classes and the runs they form, ASCII upper-casing, and building strings.

use vstd::prelude::*;

verus! {

/// `String::push` appends one character at the end.
pub assume_specification[ String::push ](s: &mut String, ch: char)
    ensures
        final(s)@ == old(s)@.push(ch),
;

/// An ASCII letter.
pub open spec fn is_letter(c: char) -> bool {
    ('a' <= c && c <= 'z') || ('A' <= c && c <= 'Z')
}

/// A hexadecimal digit, in either case.
pub open spec fn is_hex_digit(c: char) -> bool {
    ('0' <= c && c <= '9') || ('a' <= c && c <= 'f') || ('A' <= c && c <= 'F')
}

/// A character with the Unicode `White_Space` property.
pub open spec fn is_white_space(c: char) -> bool {
    ('\u{9}' <= c && c <= '\u{d}') || c == ' ' || c == '\u{85}' || c == '\u{a0}'
        || c == '\u{1680}' || ('\u{2000}' <= c && c <= '\u{200a}') || c == '\u{2028}'
        || c == '\u{2029}' || c == '\u{202f}' || c == '\u{205f}' || c == '\u{3000}'
}

/// The upper-case form of an ASCII letter; any other character is kept.
pub open spec fn upper(c: char) -> char {
    if 'a' <= c && c <= 'z' {
        ((c as u8) - 32) as char
    } else {
        c
    }
}

/// Upper-cases every ASCII letter of `s`.
pub open spec fn upper_seq(s: Seq<char>) -> Seq<char> {
    s.map_values(|c: char| upper(c))
}

/// The classes of characters whose runs the lexer measures.
pub enum CharClass {
    Letter,
    HexDigit,
    NotNewline,
    NotWhiteSpace,
}

/// Whether `c` belongs to class `k`.
pub open spec fn in_class(c: char, k: CharClass) -> bool {
    match k {
        CharClass::Letter => is_letter(c),
        CharClass::HexDigit => is_hex_digit(c),
        CharClass::NotNewline => c != '\n',
        CharClass::NotWhiteSpace => !is_white_space(c),
    }
}

/// The number of characters of class `k` that follow one another from `i` on.
pub open spec fn run(s: Seq<char>, i: int, k: CharClass) -> nat
    decreases s.len() - i,
{
    if 0 <= i < s.len() && in_class(s[i], k) {
        1 + run(s, i + 1, k)
    } else {
        0
    }
}

pub proof fn lemma_run_bounds(s: Seq<char>, i: int, k: CharClass)
    requires
        0 <= i <= s.len(),
    ensures
        i + run(s, i, k) <= s.len(),
        forall|j: int| i <= j < i + run(s, i, k) ==> in_class(#[trigger] s[j], k),
        i + run(s, i, k) < s.len() ==> !in_class(s[i + run(s, i, k)], k),
    decreases s.len() - i,
{
    if i < s.len() && in_class(s[i], k) {
        lemma_run_bounds(s, i + 1, k);
    }
}

pub fn is_white_space_char(c: char) -> (r: bool)
    ensures
        r == is_white_space(c),
{
    ('\u{9}' <= c && c <= '\u{d}') || c == ' ' || c == '\u{85}' || c == '\u{a0}'
        || c == '\u{1680}' || ('\u{2000}' <= c && c <= '\u{200a}') || c == '\u{2028}'
        || c == '\u{2029}' || c == '\u{202f}' || c == '\u{205f}' || c == '\u{3000}'
}

pub fn upper_char(c: char) -> (r: char)
    ensures
        r == upper(c),
{
    if 'a' <= c && c <= 'z' {
        ((c as u8) - 32) as char
    } else {
        c
    }
}

fn in_class_char(c: char, k: &CharClass) -> (r: bool)
    ensures
        r == in_class(c, *k),
{
    match k {
        CharClass::Letter => ('a' <= c && c <= 'z') || ('A' <= c && c <= 'Z'),
        CharClass::HexDigit => ('0' <= c && c <= '9') || ('a' <= c && c <= 'f') || ('A' <= c
            && c <= 'F'),
        CharClass::NotNewline => c != '\n',
        CharClass::NotWhiteSpace => !is_white_space_char(c),
    }
}

/// Measures the run of class `k` that starts at `i`.
pub fn run_len(s: &Vec<char>, i: usize, k: CharClass) -> (r: usize)
    requires
        i <= s.len(),
    ensures
        r == run(s@, i as int, k),
        i + r <= s.len(),
{
    let mut j: usize = i;
    while j < s.len() && in_class_char(s[j], &k)
        invariant
            i <= j <= s.len(),
            run(s@, i as int, k) == (j - i) + run(s@, j as int, k),
        decreases s.len() - j,
    {
        j += 1;
    }
    j - i
}

/// The characters of `s`, in order.
pub fn chars_of(s: &str) -> (r: Vec<char>)
    ensures
        r@ == s@,
{
    broadcast use vstd::string::group_string_axioms;

    let mut r: Vec<char> = Vec::new();
    for c in it: s.chars()
        invariant
            r@ == it.seq().take(it.index() as int),
            it.seq() == s@,
    {
        r.push(c);
        assert(r@ =~= it.seq().take(it.index() as int + 1));
    }
    assert(r@ =~= s@);
    r
}

/// Appends `s[from..to]` to `out`, upper-cased when `to_upper` holds.
pub fn push_range(out: &mut String, s: &Vec<char>, from: usize, to: usize, to_upper: bool)
    requires
        from <= to <= s.len(),
    ensures
        final(out)@ == old(out)@ + (if to_upper {
            upper_seq(s@.subrange(from as int, to as int))
        } else {
            s@.subrange(from as int, to as int)
        }),
{
    let ghost start = out@;
    let mut j: usize = from;
    while j < to
        invariant
            from <= j <= to <= s.len(),
            out@ == start + (if to_upper {
                upper_seq(s@.subrange(from as int, j as int))
            } else {
                s@.subrange(from as int, j as int)
            }),
        decreases to - j,
    {
        let c = if to_upper {
            upper_char(s[j])
        } else {
            s[j]
        };
        out.push(c);
        j += 1;
        assert(upper_seq(s@.subrange(from as int, j as int)) =~= upper_seq(
            s@.subrange(from as int, j - 1),
        ).push(upper(s@[j - 1])));
        assert(s@.subrange(from as int, j as int) =~= s@.subrange(from as int, j - 1).push(
            s@[j - 1],
        ));
    }
}

/// `s[from..to]` upper-cased, as a new string.
pub fn upper_string(s: &Vec<char>, from: usize, to: usize) -> (r: String)
    requires
        from <= to <= s.len(),
    ensures
        r@ == upper_seq(s@.subrange(from as int, to as int)),
{
    let mut r = String::new();
    push_range(&mut r, s, from, to, true);
    assert(r@ =~= upper_seq(s@.subrange(from as int, to as int)));
    r
}

} // verus!
