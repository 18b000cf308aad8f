//! Comment bodies: their whitespace-separated words, joined by single spaces.

use vstd::prelude::*;
use crate::text::{is_white_space, run, lemma_run_bounds, run_len, is_white_space_char, push_range, CharClass};

verus! {

/// The maximal runs of non-whitespace characters of `t` from `j` on, in order.
pub open spec fn words_from(t: Seq<char>, j: int) -> Seq<Seq<char>>
    decreases t.len() - j,
    via words_from_decreases
{
    if j < 0 || j >= t.len() {
        seq![]
    } else if is_white_space(t[j]) {
        words_from(t, j + 1)
    } else {
        let n = run(t, j, CharClass::NotWhiteSpace);
        seq![t.subrange(j, j + n)] + words_from(t, j + n)
    }
}

#[via_fn]
proof fn words_from_decreases(t: Seq<char>, j: int) {
    if 0 <= j < t.len() {
        lemma_run_bounds(t, j, CharClass::NotWhiteSpace);
    }
}

/// The words joined with a single space between two neighbours.
pub open spec fn join_words(ws: Seq<Seq<char>>) -> Seq<char>
    decreases ws.len(),
{
    if ws.len() == 0 {
        seq![]
    } else if ws.len() == 1 {
        ws[0]
    } else {
        join_words(ws.drop_last()) + seq![' '] + ws.last()
    }
}

/// `t` with leading and trailing whitespace removed and each inner run of
/// whitespace replaced by one space.
pub open spec fn collapse(t: Seq<char>) -> Seq<char> {
    join_words(words_from(t, 0))
}

/// A copy of `s[from..to]`.
fn copy_range(s: &Vec<char>, from: usize, to: usize) -> (r: Vec<char>)
    requires
        from <= to <= s.len(),
    ensures
        r@ == s@.subrange(from as int, to as int),
{
    let mut r: Vec<char> = Vec::new();
    let mut j: usize = from;
    while j < to
        invariant
            from <= j <= to <= s.len(),
            r@ == s@.subrange(from as int, j as int),
        decreases to - j,
    {
        r.push(s[j]);
        j += 1;
        assert(r@ =~= s@.subrange(from as int, j as int));
    }
    r
}

/// The words of `s[from..to]`, joined by single spaces.
pub fn collapse_range(s: &Vec<char>, from: usize, to: usize) -> (r: String)
    requires
        from <= to <= s.len(),
    ensures
        r@ == collapse(s@.subrange(from as int, to as int)),
{
    let t = copy_range(s, from, to);
    let mut out = String::new();
    let mut j: usize = 0;
    let mut started = false;
    let ghost mut done: Seq<Seq<char>> = seq![];
    while j < t.len()
        invariant
            j <= t.len(),
            words_from(t@, 0) == done + words_from(t@, j as int),
            out@ == join_words(done),
            started == (done.len() > 0),
        decreases t.len() - j,
    {
        if is_white_space_char(t[j]) {
            j += 1;
        } else {
            let n = run_len(&t, j, CharClass::NotWhiteSpace);
            proof {
                lemma_run_bounds(t@, j as int, CharClass::NotWhiteSpace);
                assert(n > 0);
            }
            let ghost w = t@.subrange(j as int, j + n);
            assert(words_from(t@, j as int) == seq![w] + words_from(t@, j + n));
            if started {
                out.push(' ');
            }
            push_range(&mut out, &t, j, j + n, false);
            proof {
                assert(done.push(w).drop_last() =~= done);
                assert(out@ =~= join_words(done.push(w)));
                assert(done + words_from(t@, j as int) =~= done.push(w) + words_from(t@, j + n));
                done = done.push(w);
            }
            j += n;
            started = true;
        }
    }
    assert(done =~= done + words_from(t@, j as int));
    out
}

} // verus!
