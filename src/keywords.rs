//! The fixed keyword sets: instruction mnemonics and assembler directives,
//! held as tables and looked up case-insensitively.

use vstd::prelude::*;
use crate::text::{upper, upper_seq, is_letter, upper_char};

verus! {

/// The longest keyword, in characters.
pub const KEYWORD_MAX: usize = 4;

/// The instruction mnemonics.
pub open spec fn opcode_words() -> Seq<Seq<char>> {
    seq![
        seq!['M', 'O', 'V'], seq!['M', 'V', 'I'], seq!['L', 'X', 'I'], seq!['L', 'D', 'A'],
        seq!['S', 'T', 'A'], seq!['L', 'H', 'L', 'D'], seq!['S', 'H', 'L', 'D'],
        seq!['L', 'D', 'A', 'X'], seq!['S', 'T', 'A', 'X'], seq!['X', 'C', 'H', 'G'],
        seq!['A', 'D', 'D'], seq!['A', 'D', 'C'], seq!['S', 'U', 'B'], seq!['S', 'B', 'B'],
        seq!['A', 'N', 'A'], seq!['X', 'R', 'A'], seq!['O', 'R', 'A'], seq!['C', 'M', 'P'],
        seq!['A', 'D', 'I'], seq!['A', 'C', 'I'], seq!['S', 'U', 'I'], seq!['S', 'B', 'I'],
        seq!['A', 'N', 'I'], seq!['X', 'R', 'I'], seq!['O', 'R', 'I'], seq!['C', 'P', 'I'],
        seq!['R', 'L', 'C'], seq!['R', 'R', 'C'], seq!['R', 'A', 'L'], seq!['R', 'A', 'R'],
        seq!['C', 'M', 'A'], seq!['C', 'M', 'C'], seq!['S', 'T', 'C'], seq!['H', 'L', 'T'],
        seq!['N', 'O', 'P'], seq!['D', 'C', 'R'], seq!['I', 'N', 'R'], seq!['D', 'A', 'D'],
        seq!['D', 'A', 'A'], seq!['J', 'M', 'P'], seq!['C', 'A', 'L', 'L'], seq!['R', 'E', 'T'],
        seq!['J', 'N', 'Z'], seq!['J', 'Z'], seq!['J', 'N', 'C'], seq!['J', 'C'],
        seq!['J', 'P', 'O'], seq!['J', 'P', 'E'], seq!['J', 'P'], seq!['J', 'M'],
        seq!['C', 'N', 'Z'], seq!['C', 'Z'], seq!['C', 'N', 'C'], seq!['C', 'C'],
        seq!['C', 'P', 'O'], seq!['C', 'P', 'E'], seq!['C', 'P'], seq!['C', 'M'],
        seq!['R', 'I', 'M'], seq!['S', 'I', 'M'], seq!['I', 'N'], seq!['O', 'U', 'T'],
        seq!['P', 'U', 'S', 'H'], seq!['P', 'O', 'P'], seq!['X', 'T', 'H', 'L'],
        seq!['S', 'P', 'H', 'L'], seq!['P', 'C', 'H', 'L'],
    ]
}

/// The assembler directives.
pub open spec fn directive_words() -> Seq<Seq<char>> {
    seq![
        seq!['O', 'R', 'G'], seq!['D', 'B'], seq!['D', 'W'], seq!['D', 'S'],
        seq!['E', 'Q', 'U'], seq!['E', 'N', 'D'],
    ]
}

/// The views of a table's entries.
pub open spec fn view_all(t: Seq<Vec<char>>) -> Seq<Seq<char>> {
    t.map_values(|v: Vec<char>| v@)
}

/// Every entry is made of upper-case letters, and is one to `KEYWORD_MAX` long.
pub open spec fn well_formed_words(words: Seq<Seq<char>>) -> bool {
    forall|k: int|
        0 <= k < words.len() ==> {
            &&& 1 <= (#[trigger] words[k]).len() <= KEYWORD_MAX
            &&& forall|j: int| 0 <= j < words[k].len() ==> is_letter(#[trigger] words[k][j])
                && upper(words[k][j]) == words[k][j]
        }
}

/// The longest `n <= k` such that the `n` characters of `s` from `i` on,
/// upper-cased, form an entry of `words`; 0 where none does.
pub open spec fn prefix_in(s: Seq<char>, i: int, words: Seq<Seq<char>>, k: nat) -> nat
    decreases k,
{
    if k == 0 {
        0
    } else if i + k <= s.len() && words.contains(upper_seq(s.subrange(i, i + k))) {
        k
    } else {
        prefix_in(s, i, words, (k - 1) as nat)
    }
}

/// The length of the longest entry of `words` that `s` holds at `i`,
/// ignoring case; 0 where there is none.
pub open spec fn keyword_len(s: Seq<char>, i: int, words: Seq<Seq<char>>) -> nat {
    prefix_in(s, i, words, (s.len() - i) as nat)
}

pub proof fn lemma_opcode_words_well_formed()
    ensures
        well_formed_words(opcode_words()),
{
    reveal_with_fuel(Seq::contains, 1);
}

pub proof fn lemma_directive_words_well_formed()
    ensures
        well_formed_words(directive_words()),
{
}

/// No directive is an instruction mnemonic.
pub proof fn lemma_keyword_sets_disjoint(w: Seq<char>)
    requires
        directive_words().contains(w),
    ensures
        !opcode_words().contains(w),
{
    let d = choose|k: int| 0 <= k < directive_words().len() && directive_words()[k] == w;
    if opcode_words().contains(w) {
        let o = choose|k: int| 0 <= k < opcode_words().len() && opcode_words()[k] == w;
        assert(opcode_words()[o] == directive_words()[d]);
        assert(opcode_words()[o].len() == directive_words()[d].len());
        assert(opcode_words()[o][0] == directive_words()[d][0]);
        assert(opcode_words()[o][1] == directive_words()[d][1]);
        if w.len() > 2 {
            assert(opcode_words()[o][2] == directive_words()[d][2]);
        }
    }
}

pub proof fn lemma_prefix_in_le(s: Seq<char>, i: int, words: Seq<Seq<char>>, k: nat)
    ensures
        prefix_in(s, i, words, k) <= k,
    decreases k,
{
    if k > 0 {
        lemma_prefix_in_le(s, i, words, (k - 1) as nat);
    }
}

/// Past `KEYWORD_MAX`, no longer prefix can be an entry.
pub proof fn lemma_prefix_in_capped(s: Seq<char>, i: int, words: Seq<Seq<char>>, k: nat)
    requires
        0 <= i,
        well_formed_words(words),
        k >= KEYWORD_MAX,
    ensures
        prefix_in(s, i, words, k) == prefix_in(s, i, words, KEYWORD_MAX as nat),
    decreases k,
{
    if k > KEYWORD_MAX {
        if i + k <= s.len() && words.contains(upper_seq(s.subrange(i, i + k))) {
            let j = choose|j: int| 0 <= j < words.len() && words[j] == upper_seq(s.subrange(i, i + k));
            assert(upper_seq(s.subrange(i, i + k)).len() == k);
            assert(words[j].len() <= KEYWORD_MAX);
        }
        lemma_prefix_in_capped(s, i, words, (k - 1) as nat);
    }
}

/// The mnemonics, as a table.
pub fn opcode_table() -> (t: Vec<Vec<char>>)
    ensures
        view_all(t@) == opcode_words(),
{
    let t = vec![
        vec!['M', 'O', 'V'], vec!['M', 'V', 'I'], vec!['L', 'X', 'I'], vec!['L', 'D', 'A'],
        vec!['S', 'T', 'A'], vec!['L', 'H', 'L', 'D'], vec!['S', 'H', 'L', 'D'],
        vec!['L', 'D', 'A', 'X'], vec!['S', 'T', 'A', 'X'], vec!['X', 'C', 'H', 'G'],
        vec!['A', 'D', 'D'], vec!['A', 'D', 'C'], vec!['S', 'U', 'B'], vec!['S', 'B', 'B'],
        vec!['A', 'N', 'A'], vec!['X', 'R', 'A'], vec!['O', 'R', 'A'], vec!['C', 'M', 'P'],
        vec!['A', 'D', 'I'], vec!['A', 'C', 'I'], vec!['S', 'U', 'I'], vec!['S', 'B', 'I'],
        vec!['A', 'N', 'I'], vec!['X', 'R', 'I'], vec!['O', 'R', 'I'], vec!['C', 'P', 'I'],
        vec!['R', 'L', 'C'], vec!['R', 'R', 'C'], vec!['R', 'A', 'L'], vec!['R', 'A', 'R'],
        vec!['C', 'M', 'A'], vec!['C', 'M', 'C'], vec!['S', 'T', 'C'], vec!['H', 'L', 'T'],
        vec!['N', 'O', 'P'], vec!['D', 'C', 'R'], vec!['I', 'N', 'R'], vec!['D', 'A', 'D'],
        vec!['D', 'A', 'A'], vec!['J', 'M', 'P'], vec!['C', 'A', 'L', 'L'], vec!['R', 'E', 'T'],
        vec!['J', 'N', 'Z'], vec!['J', 'Z'], vec!['J', 'N', 'C'], vec!['J', 'C'],
        vec!['J', 'P', 'O'], vec!['J', 'P', 'E'], vec!['J', 'P'], vec!['J', 'M'],
        vec!['C', 'N', 'Z'], vec!['C', 'Z'], vec!['C', 'N', 'C'], vec!['C', 'C'],
        vec!['C', 'P', 'O'], vec!['C', 'P', 'E'], vec!['C', 'P'], vec!['C', 'M'],
        vec!['R', 'I', 'M'], vec!['S', 'I', 'M'], vec!['I', 'N'], vec!['O', 'U', 'T'],
        vec!['P', 'U', 'S', 'H'], vec!['P', 'O', 'P'], vec!['X', 'T', 'H', 'L'],
        vec!['S', 'P', 'H', 'L'], vec!['P', 'C', 'H', 'L'],
    ];
    assert(view_all(t@) =~= opcode_words());
    t
}

/// The directives, as a table.
pub fn directive_table() -> (t: Vec<Vec<char>>)
    ensures
        view_all(t@) == directive_words(),
{
    let t = vec![
        vec!['O', 'R', 'G'], vec!['D', 'B'], vec!['D', 'W'], vec!['D', 'S'],
        vec!['E', 'Q', 'U'], vec!['E', 'N', 'D'],
    ];
    assert(view_all(t@) =~= directive_words());
    t
}

/// Whether `w` equals the `n` characters of `s` from `i` on, upper-cased.
fn equals_upper(w: &Vec<char>, s: &Vec<char>, i: usize, n: usize) -> (r: bool)
    requires
        i + n <= s.len(),
    ensures
        r == (w@ == upper_seq(s@.subrange(i as int, i + n))),
{
    if w.len() != n {
        return false;
    }
    let mut j: usize = 0;
    while j < n
        invariant
            j <= n == w.len(),
            i + n <= s.len(),
            forall|q: int| 0 <= q < j ==> w@[q] == upper(s@[i + q]),
        decreases n - j,
    {
        if w[j] != upper_char(s[i + j]) {
            assert(upper_seq(s@.subrange(i as int, i + n))[j as int] == upper(s@[i + j]));
            return false;
        }
        j += 1;
    }
    assert(w@ =~= upper_seq(s@.subrange(i as int, i + n)));
    true
}

/// Whether the `n` characters of `s` from `i` on, upper-cased, are an entry of `table`.
fn table_contains(table: &Vec<Vec<char>>, s: &Vec<char>, i: usize, n: usize) -> (r: bool)
    requires
        i + n <= s.len(),
    ensures
        r == view_all(table@).contains(upper_seq(s@.subrange(i as int, i + n))),
{
    let ghost target = upper_seq(s@.subrange(i as int, i + n));
    let mut k: usize = 0;
    while k < table.len()
        invariant
            k <= table.len(),
            i + n <= s.len(),
            target == upper_seq(s@.subrange(i as int, i + n)),
            forall|q: int| 0 <= q < k ==> view_all(table@)[q] != target,
        decreases table.len() - k,
    {
        if equals_upper(&table[k], s, i, n) {
            assert(view_all(table@)[k as int] == target);
            return true;
        }
        k += 1;
    }
    false
}

/// The length of the longest entry of `table` that `s` holds at `i`, ignoring case.
pub fn longest_entry(table: &Vec<Vec<char>>, s: &Vec<char>, i: usize) -> (r: usize)
    requires
        i <= s.len(),
        well_formed_words(view_all(table@)),
    ensures
        r == keyword_len(s@, i as int, view_all(table@)),
        i + r <= s.len(),
{
    let ghost words = view_all(table@);
    let rest = s.len() - i;
    let mut k: usize = if rest < KEYWORD_MAX {
        rest
    } else {
        KEYWORD_MAX
    };
    proof {
        if rest >= KEYWORD_MAX {
            lemma_prefix_in_capped(s@, i as int, words, rest as nat);
        }
    }
    while k > 0
        invariant
            k <= rest == s.len() - i,
            words == view_all(table@),
            keyword_len(s@, i as int, words) == prefix_in(s@, i as int, words, k as nat),
        decreases k,
    {
        if table_contains(table, s, i, k) {
            return k;
        }
        k -= 1;
    }
    0
}

} // verus!
