//! Properties of the tokenizer as a whole.

use vstd::prelude::*;
use crate::text::{
    upper, upper_seq, is_letter, is_white_space, run, in_class, lemma_run_bounds, CharClass,
};
use crate::comment::{collapse, words_from};
use crate::keywords::{
    opcode_words, directive_words, keyword_len, well_formed_words, prefix_in,
    lemma_opcode_words_well_formed, lemma_directive_words_well_formed,
    lemma_keyword_sets_disjoint, lemma_prefix_in_le,
};
use crate::lexer::{
    tokenize, scan_from, longest, token_at, opcode_len, directive_len, operand_len, label_len,
    comment_len, comma_len, hex_literal_len, lemma_longest_bounds, TokenView,
};

verus! {

proof fn lemma_letters_run(w: Seq<char>, j: int)
    requires
        0 <= j <= w.len(),
        forall|q: int| 0 <= q < w.len() ==> is_letter(#[trigger] w[q]),
    ensures
        run(w, j, CharClass::Letter) == w.len() - j,
    decreases w.len() - j,
{
    if j < w.len() {
        lemma_letters_run(w, j + 1);
    }
}

/// A word that, upper-cased, is an entry of a keyword table is one
/// match that spans the whole word, and nothing follows it.
proof fn lemma_whole_keyword(w: Seq<char>, words: Seq<Seq<char>>)
    requires
        well_formed_words(words),
        words.contains(upper_seq(w)),
    ensures
        w.len() > 0,
        keyword_len(w, 0, words) == w.len(),
        longest(w, 0) == w.len(),
        operand_len(w, 0) == w.len(),
        scan_from(w, w.len() as int) == Seq::<TokenView>::empty(),
        w.subrange(0, w.len() as int) == w,
{
    let k = choose|k: int| 0 <= k < words.len() && words[k] == upper_seq(w);
    let n = w.len();
    assert(words[k].len() == n);
    assert forall|q: int| 0 <= q < n implies is_letter(#[trigger] w[q]) by {
        assert(words[k][q] == upper(w[q]));
        assert(is_letter(words[k][q]));
    }
    lemma_letters_run(w, 0);
    assert(w.subrange(0, n as int) =~= w);
    assert(prefix_in(w, 0, words, n) == n);
    lemma_longest_bounds(w, 0);
    let h = run(w, 0, CharClass::HexDigit);
    if hex_literal_len(w, 0) > 0 {
        assert(h < n);
    }
    assert(label_len(w, 0) == 0);
    assert(comment_len(w, 0) == 0);
    assert(comma_len(w, 0) == 0);
}

/// Every mnemonic, written in any mix of cases, reads as exactly one
/// `Opcode` token holding the mnemonic in upper case, never as an operand.
pub proof fn law_mnemonic_is_opcode(w: Seq<char>)
    requires
        opcode_words().contains(upper_seq(w)),
    ensures
        tokenize(w) == seq![TokenView::Opcode(upper_seq(w))],
{
    lemma_opcode_words_well_formed();
    lemma_whole_keyword(w, opcode_words());
    let n = w.len();
    assert(opcode_len(w, 0) == n);
    assert(token_at(w, 0, n) == TokenView::Opcode(upper_seq(w)));
    assert(tokenize(w) == seq![token_at(w, 0, n)] + scan_from(w, n as int));
    assert(tokenize(w) =~= seq![TokenView::Opcode(upper_seq(w))]);
}

/// Every directive, written in any mix of cases, reads as exactly one
/// `Directive` token holding the directive in upper case, never as an operand.
pub proof fn law_directive_is_directive(w: Seq<char>)
    requires
        directive_words().contains(upper_seq(w)),
    ensures
        tokenize(w) == seq![TokenView::Directive(upper_seq(w))],
{
    lemma_directive_words_well_formed();
    lemma_whole_keyword(w, directive_words());
    lemma_keyword_sets_disjoint(upper_seq(w));
    let n = w.len();
    lemma_prefix_in_le(w, 0, opcode_words(), (n - 1) as nat);
    assert(opcode_len(w, 0) < n);
    assert(directive_len(w, 0) == n);
    assert(token_at(w, 0, n) == TokenView::Directive(upper_seq(w)));
    assert(tokenize(w) == seq![token_at(w, 0, n)] + scan_from(w, n as int));
    assert(tokenize(w) =~= seq![TokenView::Directive(upper_seq(w))]);
}

/// The tokens depend on the text alone: equal texts give equal token sequences.
pub proof fn law_tokenize_deterministic(a: Seq<char>, b: Seq<char>)
    requires
        a == b,
    ensures
        tokenize(a) == tokenize(b),
{
}

proof fn lemma_run_shift(p: Seq<char>, s: Seq<char>, k: int, c: CharClass)
    requires
        0 <= k,
    ensures
        run(p + s, p.len() + k, c) == run(s, k, c),
    decreases s.len() - k,
{
    if k < s.len() {
        assert((p + s)[p.len() + k] == s[k]);
        lemma_run_shift(p, s, k + 1, c);
    }
}

proof fn lemma_prefix_in_shift(p: Seq<char>, s: Seq<char>, i: int, words: Seq<Seq<char>>, k: nat)
    requires
        0 <= i,
    ensures
        prefix_in(p + s, p.len() + i, words, k) == prefix_in(s, i, words, k),
    decreases k,
{
    if k > 0 {
        if i + k <= s.len() {
            assert((p + s).subrange(p.len() + i, p.len() + i + k) =~= s.subrange(i, i + k));
        }
        lemma_prefix_in_shift(p, s, i, words, (k - 1) as nat);
    }
}

proof fn lemma_lengths_shift(p: Seq<char>, s: Seq<char>, i: int)
    requires
        0 <= i < s.len(),
    ensures
        opcode_len(p + s, p.len() + i) == opcode_len(s, i),
        directive_len(p + s, p.len() + i) == directive_len(s, i),
        operand_len(p + s, p.len() + i) == operand_len(s, i),
        label_len(p + s, p.len() + i) == label_len(s, i),
        comment_len(p + s, p.len() + i) == comment_len(s, i),
        comma_len(p + s, p.len() + i) == comma_len(s, i),
{
    let t = p + s;
    let j = p.len() + i;
    lemma_prefix_in_shift(p, s, i, opcode_words(), (s.len() - i) as nat);
    lemma_prefix_in_shift(p, s, i, directive_words(), (s.len() - i) as nat);
    lemma_run_shift(p, s, i, CharClass::HexDigit);
    lemma_run_shift(p, s, i, CharClass::Letter);
    lemma_run_shift(p, s, i + 1, CharClass::NotNewline);
    assert(t[j] == s[i]);
    let h = run(s, i, CharClass::HexDigit);
    if i + h < s.len() {
        assert(t[j + h] == s[i + h]);
    }
    let r = run(s, i, CharClass::Letter);
    if i + r < s.len() {
        assert(t[j + r] == s[i + r]);
    }
}

/// What the rules see at a position does not depend on the text before it.
proof fn lemma_match_shift(p: Seq<char>, s: Seq<char>, i: int)
    requires
        0 <= i < s.len(),
    ensures
        longest(p + s, p.len() + i) == longest(s, i),
        longest(s, i) > 0 ==> token_at(p + s, p.len() + i, longest(s, i)) == token_at(
            s,
            i,
            longest(s, i),
        ),
{
    let t = p + s;
    let j = p.len() + i;
    lemma_lengths_shift(p, s, i);
    let m = longest(s, i);
    lemma_longest_bounds(s, i);
    if m > 0 {
        assert(t.subrange(j, j + m) =~= s.subrange(i, i + m));
        assert(t.subrange(j, j + m - 1) =~= s.subrange(i, i + m - 1));
        assert(t.subrange(j + 1, j + m) =~= s.subrange(i + 1, i + m));
    }
}

proof fn lemma_scan_shift(p: Seq<char>, s: Seq<char>, i: int)
    requires
        0 <= i,
    ensures
        scan_from(p + s, p.len() + i) == scan_from(s, i),
    decreases s.len() - i,
{
    if i < s.len() {
        lemma_match_shift(p, s, i);
        lemma_longest_bounds(s, i);
        let m = longest(s, i);
        if m == 0 {
            lemma_scan_shift(p, s, i + 1);
        } else {
            lemma_scan_shift(p, s, i + m);
        }
    }
}

/// No keyword starts with a character that is not a letter.
proof fn lemma_keyword_needs_letter(s: Seq<char>, i: int, words: Seq<Seq<char>>, k: nat)
    requires
        well_formed_words(words),
        0 <= i < s.len(),
        !is_letter(s[i]),
    ensures
        prefix_in(s, i, words, k) == 0,
    decreases k,
{
    if k > 0 {
        if i + k <= s.len() && words.contains(upper_seq(s.subrange(i, i + k))) {
            let q = choose|q: int| 0 <= q < words.len() && words[q] == upper_seq(s.subrange(i, i + k));
            assert(words[q][0] == upper(s[i]));
            assert(is_letter(words[q][0]));
        }
        lemma_keyword_needs_letter(s, i, words, (k - 1) as nat);
    }
}

proof fn lemma_skip_white_space(t: Seq<char>, n: int, j: int)
    requires
        0 <= j <= n <= t.len(),
        forall|q: int| j <= q < n ==> is_white_space(#[trigger] t[q]),
    ensures
        scan_from(t, j) == scan_from(t, n),
    decreases n - j,
{
    if j < n {
        assert(is_white_space(t[j]));
        lemma_opcode_words_well_formed();
        lemma_directive_words_well_formed();
        lemma_keyword_needs_letter(t, j, opcode_words(), (t.len() - j) as nat);
        lemma_keyword_needs_letter(t, j, directive_words(), (t.len() - j) as nat);
        assert(longest(t, j) == 0);
        lemma_skip_white_space(t, n, j + 1);
    }
}

/// Whitespace before the source text yields no token and changes none of
/// the tokens that follow.
pub proof fn law_leading_white_space(p: Seq<char>, s: Seq<char>)
    requires
        forall|q: int| 0 <= q < p.len() ==> is_white_space(#[trigger] p[q]),
    ensures
        tokenize(p + s) == tokenize(s),
{
    let t = p + s;
    assert forall|q: int| 0 <= q < p.len() implies is_white_space(#[trigger] t[q]) by {
        assert(t[q] == p[q]);
    }
    lemma_skip_white_space(t, p.len() as int, 0);
    lemma_scan_shift(p, s, 0);
}

proof fn lemma_run_concat(x: Seq<char>, y: Seq<char>, j: int, c: CharClass)
    requires
        0 <= j <= x.len(),
    ensures
        j + run(x, j, c) < x.len() ==> run(x + y, j, c) == run(x, j, c),
        j + run(x, j, c) == x.len() ==> run(x + y, j, c) == run(x, j, c) + run(
            x + y,
            x.len() as int,
            c,
        ),
    decreases x.len() - j,
{
    lemma_run_bounds(x, j, c);
    if j < x.len() {
        assert((x + y)[j] == x[j]);
        lemma_run_concat(x, y, j + 1, c);
    }
}

proof fn lemma_run_stops_at(t: Seq<char>, j: int, n: int, c: CharClass)
    requires
        0 <= j <= n < t.len(),
        !in_class(t[n], c),
    ensures
        j + run(t, j, c) <= n,
    decreases n - j,
{
    if j < n {
        lemma_run_stops_at(t, j + 1, n, c);
    }
}

proof fn lemma_prefix_in_concat(x: Seq<char>, y: Seq<char>, i: int, words: Seq<Seq<char>>, k: nat)
    requires
        0 <= i,
        i + k <= x.len(),
    ensures
        prefix_in(x + y, i, words, k) == prefix_in(x, i, words, k),
    decreases k,
{
    if k > 0 {
        assert((x + y).subrange(i, i + k) =~= x.subrange(i, i + k));
        lemma_prefix_in_concat(x, y, i, words, (k - 1) as nat);
    }
}

/// A keyword cannot reach over a character that is not a letter.
proof fn lemma_prefix_in_past(t: Seq<char>, i: int, words: Seq<Seq<char>>, e: int, k: nat)
    requires
        well_formed_words(words),
        0 <= i <= e < t.len(),
        !is_letter(t[e]),
        k >= e - i,
    ensures
        prefix_in(t, i, words, k) == prefix_in(t, i, words, (e - i) as nat),
    decreases k,
{
    if k > e - i {
        if i + k <= t.len() && words.contains(upper_seq(t.subrange(i, i + k))) {
            let q = choose|q: int| 0 <= q < words.len() && words[q] == upper_seq(t.subrange(i, i + k));
            assert(words[q][e - i] == upper(t[e]));
            assert(is_letter(words[q][e - i]));
        }
        lemma_prefix_in_past(t, i, words, e, (k - 1) as nat);
    }
}

proof fn lemma_words_blank(t: Seq<char>, j: int)
    requires
        0 <= j,
        forall|q: int| j <= q < t.len() ==> is_white_space(#[trigger] t[q]),
    ensures
        words_from(t, j) == Seq::<Seq<char>>::empty(),
    decreases t.len() - j,
{
    if j < t.len() {
        assert(is_white_space(t[j]));
        lemma_words_blank(t, j + 1);
    }
}

proof fn lemma_words_trailing(b: Seq<char>, w: Seq<char>, j: int)
    requires
        0 <= j <= b.len(),
        forall|q: int| 0 <= q < w.len() ==> is_white_space(#[trigger] w[q]),
    ensures
        words_from(b + w, j) == words_from(b, j),
    decreases b.len() - j,
{
    let t = b + w;
    if j == b.len() {
        assert forall|q: int| j <= q < t.len() implies is_white_space(#[trigger] t[q]) by {
            assert(t[q] == w[q - b.len()]);
        }
        lemma_words_blank(t, j);
    } else {
        assert(t[j] == b[j]);
        if is_white_space(b[j]) {
            lemma_words_trailing(b, w, j + 1);
        } else {
            lemma_run_concat(b, w, j, CharClass::NotWhiteSpace);
            lemma_run_bounds(b, j, CharClass::NotWhiteSpace);
            let n = run(b, j, CharClass::NotWhiteSpace);
            if j + n == b.len() && w.len() > 0 {
                assert(t[b.len() as int] == w[0]);
            }
            assert(run(t, j, CharClass::NotWhiteSpace) == n);
            assert(t.subrange(j, j + n) =~= b.subrange(j, j + n));
            lemma_words_trailing(b, w, j + n);
        }
    }
}

/// Whitespace after a comment body does not change it.
proof fn lemma_collapse_trailing(b: Seq<char>, w: Seq<char>)
    requires
        forall|q: int| 0 <= q < w.len() ==> is_white_space(#[trigger] w[q]),
    ensures
        collapse(b + w) == collapse(b),
{
    lemma_words_trailing(b, w, 0);
}

/// Where `t` is `a` followed by whitespace, every rule but the comment
/// measures the same at a position of `a` in both.
proof fn lemma_lengths_concat(a: Seq<char>, y: Seq<char>, i: int)
    requires
        0 <= i < a.len(),
        y.len() > 0,
        is_white_space(y[0]),
        a[i] != ';',
    ensures
        opcode_len(a + y, i) == opcode_len(a, i),
        directive_len(a + y, i) == directive_len(a, i),
        operand_len(a + y, i) == operand_len(a, i),
        label_len(a + y, i) == label_len(a, i),
        comment_len(a + y, i) == 0,
        comment_len(a, i) == 0,
        comma_len(a + y, i) == comma_len(a, i),
{
    let t = a + y;
    let e = a.len() as int;
    assert(t[e] == y[0]);
    assert(t[i] == a[i]);
    lemma_opcode_words_well_formed();
    lemma_directive_words_well_formed();
    lemma_prefix_in_past(t, i, opcode_words(), e, (t.len() - i) as nat);
    lemma_prefix_in_past(t, i, directive_words(), e, (t.len() - i) as nat);
    lemma_prefix_in_concat(a, y, i, opcode_words(), (e - i) as nat);
    lemma_prefix_in_concat(a, y, i, directive_words(), (e - i) as nat);
    lemma_run_concat(a, y, i, CharClass::HexDigit);
    lemma_run_concat(a, y, i, CharClass::Letter);
    lemma_run_bounds(a, i, CharClass::HexDigit);
    lemma_run_bounds(a, i, CharClass::Letter);
    let h = run(a, i, CharClass::HexDigit);
    if i + h < e {
        assert(t[i + h] == a[i + h]);
    }
    let r = run(a, i, CharClass::Letter);
    if i + r < e {
        assert(t[i + r] == a[i + r]);
    }
}

/// At a `;` of `a`, followed in `t` by whitespace that holds a newline, the
/// comment in `t` ends inside that whitespace and keeps the same text.
proof fn lemma_comment_concat(a: Seq<char>, w: Seq<char>, b: Seq<char>, i: int)
    requires
        0 <= i < a.len(),
        a[i] == ';',
        forall|q: int| 0 <= q < w.len() ==> is_white_space(#[trigger] w[q]),
        w.len() > 0,
        w.contains('\n') || i + comment_len(a, i) < a.len(),
    ensures
        longest(a, i) == comment_len(a, i),
        longest(a + w + b, i) == comment_len(a + w + b, i),
        a.len() <= i + comment_len(a + w + b, i) <= a.len() + w.len()
            || comment_len(a + w + b, i) == comment_len(a, i),
        i + comment_len(a, i) < a.len() ==> comment_len(a + w + b, i) == comment_len(a, i),
        token_at(a + w + b, i, comment_len(a + w + b, i)) == token_at(a, i, comment_len(a, i)),
{
    let t = a + w + b;
    let y = w + b;
    assert(t =~= a + y);
    assert(t[i] == a[i]);
    lemma_opcode_words_well_formed();
    lemma_directive_words_well_formed();
    lemma_keyword_needs_letter(a, i, opcode_words(), (a.len() - i) as nat);
    lemma_keyword_needs_letter(a, i, directive_words(), (a.len() - i) as nat);
    lemma_keyword_needs_letter(t, i, opcode_words(), (t.len() - i) as nat);
    lemma_keyword_needs_letter(t, i, directive_words(), (t.len() - i) as nat);
    lemma_run_bounds(a, i + 1, CharClass::NotNewline);
    lemma_run_bounds(t, i + 1, CharClass::NotNewline);
    lemma_run_concat(a, y, i + 1, CharClass::NotNewline);
    let ca = comment_len(a, i);
    let ct = comment_len(t, i);
    assert(longest(a, i) == ca);
    assert(longest(t, i) == ct);
    if i + ca < a.len() {
        assert(ct == ca);
        assert(t.subrange(i + 1, i + ct) =~= a.subrange(i + 1, i + ca));
    } else {
        let e = choose|e: int| 0 <= e < w.len() && w[e] == '\n';
        assert(t[a.len() + e] == w[e]);
        lemma_run_stops_at(t, a.len() as int, a.len() + e, CharClass::NotNewline);
        let q = i + ct;
        assert(a.len() <= q <= a.len() + e);
        let tail = t.subrange(a.len() as int, q);
        assert forall|k: int| 0 <= k < tail.len() implies is_white_space(#[trigger] tail[k]) by {
            assert(tail[k] == w[k]);
        }
        assert(t.subrange(i + 1, q) =~= a.subrange(i + 1, i + ca) + tail);
        lemma_collapse_trailing(a.subrange(i + 1, i + ca), tail);
    }
}

/// Where `a` is followed by whitespace, a match at a position of `a`
/// that is not a `;` is the same in both.
proof fn lemma_step_concat(a: Seq<char>, y: Seq<char>, i: int)
    requires
        0 <= i < a.len(),
        y.len() > 0,
        is_white_space(y[0]),
        a[i] != ';',
    ensures
        longest(a + y, i) == longest(a, i),
        longest(a, i) > 0 ==> token_at(a + y, i, longest(a, i)) == token_at(a, i, longest(a, i)),
{
    let t = a + y;
    lemma_lengths_concat(a, y, i);
    lemma_longest_bounds(a, i);
    let m = longest(a, i);
    if m > 0 {
        assert(t.subrange(i, i + m) =~= a.subrange(i, i + m));
        assert(t.subrange(i, i + m - 1) =~= a.subrange(i, i + m - 1));
    }
}

#[verifier::rlimit(40)]
proof fn lemma_scan_separated(a: Seq<char>, w: Seq<char>, b: Seq<char>, i: int)
    requires
        0 <= i <= a.len(),
        w.len() > 0,
        forall|q: int| 0 <= q < w.len() ==> is_white_space(#[trigger] w[q]),
        w.contains('\n') || !a.contains(';'),
    ensures
        scan_from(a + w + b, i) == scan_from(a, i) + tokenize(b),
    decreases a.len() - i,
{
    let t = a + w + b;
    let y = w + b;
    assert(t =~= a + y);
    let n = (a.len() + w.len()) as int;
    assert forall|q: int| a.len() <= q < n implies is_white_space(#[trigger] t[q]) by {
        assert(t[q] == w[q - a.len()]);
    }
    lemma_scan_shift(a + w, b, 0);
    if i == a.len() {
        lemma_skip_white_space(t, n, i);
        assert(scan_from(a, i) + tokenize(b) =~= tokenize(b));
    } else if a[i] == ';' {
        if !w.contains('\n') {
            assert(a.contains(';'));
        }
        lemma_comment_concat(a, w, b, i);
        lemma_longest_bounds(a, i);
        let ca = comment_len(a, i);
        let ct = comment_len(t, i);
        if i + ca < a.len() {
            lemma_scan_separated(a, w, b, i + ca);
            assert(scan_from(t, i) =~= scan_from(a, i) + tokenize(b));
        } else {
            lemma_skip_white_space(t, n, i + ct);
            assert(scan_from(a, i + ca) == Seq::<TokenView>::empty());
            assert(scan_from(t, i) =~= scan_from(a, i) + tokenize(b));
        }
    } else {
        assert(y[0] == w[0]);
        lemma_step_concat(a, y, i);
        lemma_longest_bounds(a, i);
        let m = longest(a, i);
        if m == 0 {
            lemma_scan_separated(a, w, b, i + 1);
        } else {
            lemma_scan_separated(a, w, b, i + m);
            assert(scan_from(t, i) =~= scan_from(a, i) + tokenize(b));
        }
    }
}

/// Whitespace between two texts separates them: the tokens of the whole are
/// those of the first text followed by those of the second, provided the
/// whitespace holds a newline or the first text holds no `;`, so that no
/// comment runs on into the second text.
pub proof fn law_white_space_separates(a: Seq<char>, w: Seq<char>, b: Seq<char>)
    requires
        w.len() > 0,
        forall|q: int| 0 <= q < w.len() ==> is_white_space(#[trigger] w[q]),
        w.contains('\n') || !a.contains(';'),
    ensures
        tokenize(a + w + b) == tokenize(a) + tokenize(b),
{
    lemma_scan_separated(a, w, b, 0);
}

} // verus!
