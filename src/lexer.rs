//! The token type and the scanner: at each position every rule is measured,
//! the longest match wins, and among equally long matches a keyword wins
//! over the generic operand shape.

use vstd::prelude::*;
use crate::text::{
    upper, upper_seq, run, lemma_run_bounds, run_len, upper_char, upper_string, chars_of,
    CharClass,
};
use crate::keywords::{
    opcode_words, directive_words, keyword_len, view_all, opcode_table, directive_table,
    longest_entry, lemma_prefix_in_le, lemma_opcode_words_well_formed,
    lemma_directive_words_well_formed,
};
use crate::comment::{collapse, collapse_range};

verus! {

/// A classified lexical unit of assembly source.
#[derive(Debug, PartialEq, Eq)]
pub enum Token {
    /// An instruction mnemonic, upper-cased.
    Opcode(String),
    /// A register, a hexadecimal literal or an identifier, upper-cased.
    Operand(String),
    /// A comment's words, joined by single spaces, in their own case.
    Comment(String),
    /// An assembler directive, upper-cased.
    Directive(String),
    /// A label's name without its colon, upper-cased.
    Label(String),
    /// The separator `,`.
    Comma,
}

/// What a token holds, with its text as characters.
pub enum TokenView {
    Opcode(Seq<char>),
    Operand(Seq<char>),
    Comment(Seq<char>),
    Directive(Seq<char>),
    Label(Seq<char>),
    Comma,
}

impl View for Token {
    type V = TokenView;

    open spec fn view(&self) -> TokenView {
        match self {
            Token::Opcode(t) => TokenView::Opcode(t@),
            Token::Operand(t) => TokenView::Operand(t@),
            Token::Comment(t) => TokenView::Comment(t@),
            Token::Directive(t) => TokenView::Directive(t@),
            Token::Label(t) => TokenView::Label(t@),
            Token::Comma => TokenView::Comma,
        }
    }
}

/// The views of a sequence of tokens.
pub open spec fn token_views(ts: Seq<Token>) -> Seq<TokenView> {
    ts.map_values(|t: Token| t@)
}

/// Length of the mnemonic at `i`, 0 where there is none.
pub open spec fn opcode_len(s: Seq<char>, i: int) -> nat {
    keyword_len(s, i, opcode_words())
}

/// Length of the directive at `i`, 0 where there is none.
pub open spec fn directive_len(s: Seq<char>, i: int) -> nat {
    keyword_len(s, i, directive_words())
}

/// A register name: one of A, B, C, D, E, H, L, in either case.
pub open spec fn is_register(c: char) -> bool {
    let u = upper(c);
    u == 'A' || u == 'B' || u == 'C' || u == 'D' || u == 'E' || u == 'H' || u == 'L'
}

/// Length of the hexadecimal literal at `i`: one to four hex digits and then
/// `H` or `h`; 0 where there is none.
pub open spec fn hex_literal_len(s: Seq<char>, i: int) -> nat {
    let h = run(s, i, CharClass::HexDigit);
    if 1 <= h <= 4 && i + h < s.len() && upper(s[i + h]) == 'H' {
        h + 1
    } else {
        0
    }
}

/// Length of the operand at `i`: the longest of a register, a hexadecimal
/// literal and a run of letters; 0 where there is none.
pub open spec fn operand_len(s: Seq<char>, i: int) -> nat {
    let reg: nat = if 0 <= i < s.len() && is_register(s[i]) {
        1
    } else {
        0
    };
    let hex = hex_literal_len(s, i);
    let word = run(s, i, CharClass::Letter);
    max3(reg, hex, word)
}

/// The largest of three lengths.
pub open spec fn max3(a: nat, b: nat, c: nat) -> nat {
    if a >= b && a >= c {
        a
    } else if b >= c {
        b
    } else {
        c
    }
}

/// Length of the comment at `i`: `;` and every character up to the next
/// newline; 0 where there is none.
pub open spec fn comment_len(s: Seq<char>, i: int) -> nat {
    if 0 <= i < s.len() && s[i] == ';' {
        1 + run(s, i + 1, CharClass::NotNewline)
    } else {
        0
    }
}

/// Length of the label at `i`: a run of letters and then `:`; 0 where there is none.
pub open spec fn label_len(s: Seq<char>, i: int) -> nat {
    let r = run(s, i, CharClass::Letter);
    if r > 0 && i + r < s.len() && s[i + r] == ':' {
        r + 1
    } else {
        0
    }
}

/// Length of the separator at `i`; 0 where there is none.
pub open spec fn comma_len(s: Seq<char>, i: int) -> nat {
    if 0 <= i < s.len() && s[i] == ',' {
        1
    } else {
        0
    }
}

/// The length of the longest match of any rule at `i`; 0 where none matches.
pub open spec fn longest(s: Seq<char>, i: int) -> nat {
    let a = max3(opcode_len(s, i), directive_len(s, i), operand_len(s, i));
    let b = max3(label_len(s, i), comment_len(s, i), comma_len(s, i));
    if a >= b {
        a
    } else {
        b
    }
}

/// The token made from the `m` characters at `i`, where `m` is the longest
/// match: the first rule, in the order mnemonic, directive, operand, label,
/// comment, separator, whose match is that long.
pub open spec fn token_at(s: Seq<char>, i: int, m: nat) -> TokenView {
    if opcode_len(s, i) == m {
        TokenView::Opcode(upper_seq(s.subrange(i, i + m)))
    } else if directive_len(s, i) == m {
        TokenView::Directive(upper_seq(s.subrange(i, i + m)))
    } else if operand_len(s, i) == m {
        TokenView::Operand(upper_seq(s.subrange(i, i + m)))
    } else if label_len(s, i) == m {
        TokenView::Label(upper_seq(s.subrange(i, i + m - 1)))
    } else if comment_len(s, i) == m {
        TokenView::Comment(collapse(s.subrange(i + 1, i + m)))
    } else {
        TokenView::Comma
    }
}

/// The tokens of `s` from position `i` on. Where no rule matches, the
/// character at `i` (whitespace or not) is passed over.
pub open spec fn scan_from(s: Seq<char>, i: int) -> Seq<TokenView>
    decreases s.len() - i,
    via scan_from_decreases
{
    if i < 0 || i >= s.len() {
        seq![]
    } else {
        let m = longest(s, i);
        if m == 0 {
            scan_from(s, i + 1)
        } else {
            seq![token_at(s, i, m)] + scan_from(s, i + m)
        }
    }
}

#[via_fn]
proof fn scan_from_decreases(s: Seq<char>, i: int) {
    if 0 <= i < s.len() {
        lemma_longest_bounds(s, i);
    }
}

/// No match reaches past the end of the input.
pub proof fn lemma_longest_bounds(s: Seq<char>, i: int)
    requires
        0 <= i < s.len(),
    ensures
        i + longest(s, i) <= s.len(),
        opcode_len(s, i) <= longest(s, i),
        directive_len(s, i) <= longest(s, i),
        operand_len(s, i) <= longest(s, i),
{
    lemma_prefix_in_le(s, i, opcode_words(), (s.len() - i) as nat);
    lemma_prefix_in_le(s, i, directive_words(), (s.len() - i) as nat);
    lemma_run_bounds(s, i, CharClass::HexDigit);
    lemma_run_bounds(s, i, CharClass::Letter);
    lemma_run_bounds(s, i + 1, CharClass::NotNewline);
}

/// The tokens of `s`, in the order in which they stand.
pub open spec fn tokenize(s: Seq<char>) -> Seq<TokenView> {
    scan_from(s, 0)
}

fn max3_exec(a: usize, b: usize, c: usize) -> (r: usize)
    ensures
        r == max3(a as nat, b as nat, c as nat),
{
    if a >= b && a >= c {
        a
    } else if b >= c {
        b
    } else {
        c
    }
}

fn is_register_char(c: char) -> (r: bool)
    ensures
        r == is_register(c),
{
    let u = upper_char(c);
    u == 'A' || u == 'B' || u == 'C' || u == 'D' || u == 'E' || u == 'H' || u == 'L'
}

fn operand_len_at(s: &Vec<char>, i: usize) -> (r: usize)
    requires
        i < s.len(),
    ensures
        r == operand_len(s@, i as int),
{
    let reg: usize = if is_register_char(s[i]) {
        1
    } else {
        0
    };
    let h = run_len(s, i, CharClass::HexDigit);
    let hex: usize = if 1 <= h && h <= 4 && i + h < s.len() && upper_char(s[i + h]) == 'H' {
        h + 1
    } else {
        0
    };
    let word = run_len(s, i, CharClass::Letter);
    max3_exec(reg, hex, word)
}

fn comment_len_at(s: &Vec<char>, i: usize) -> (r: usize)
    requires
        i < s.len(),
    ensures
        r == comment_len(s@, i as int),
{
    if s[i] == ';' {
        1 + run_len(s, i + 1, CharClass::NotNewline)
    } else {
        0
    }
}

fn label_len_at(s: &Vec<char>, i: usize) -> (r: usize)
    requires
        i < s.len(),
    ensures
        r == label_len(s@, i as int),
{
    let r = run_len(s, i, CharClass::Letter);
    if r > 0 && i + r < s.len() && s[i + r] == ':' {
        r + 1
    } else {
        0
    }
}

/// The longest match at `i` and its token, or `None` where no rule matches.
fn match_at(s: &Vec<char>, i: usize, opcodes: &Vec<Vec<char>>, directives: &Vec<Vec<char>>) -> (r:
    Option<(usize, Token)>)
    requires
        i < s.len(),
        view_all(opcodes@) == opcode_words(),
        view_all(directives@) == directive_words(),
    ensures
        match r {
            None => longest(s@, i as int) == 0,
            Some((m, t)) => m == longest(s@, i as int) && m > 0 && t@ == token_at(
                s@,
                i as int,
                m as nat,
            ),
        },
{
    proof {
        lemma_opcode_words_well_formed();
        lemma_directive_words_well_formed();
        lemma_longest_bounds(s@, i as int);
    }
    let op = longest_entry(opcodes, s, i);
    let dir = longest_entry(directives, s, i);
    let opd = operand_len_at(s, i);
    let lab = label_len_at(s, i);
    let com = comment_len_at(s, i);
    let cma: usize = if s[i] == ',' {
        1
    } else {
        0
    };
    let a = max3_exec(op, dir, opd);
    let b = max3_exec(lab, com, cma);
    let m = if a >= b {
        a
    } else {
        b
    };
    if m == 0 {
        return None;
    }
    let t = if op == m {
        Token::Opcode(upper_string(s, i, i + m))
    } else if dir == m {
        Token::Directive(upper_string(s, i, i + m))
    } else if opd == m {
        Token::Operand(upper_string(s, i, i + m))
    } else if lab == m {
        Token::Label(upper_string(s, i, i + m - 1))
    } else if com == m {
        Token::Comment(collapse_range(s, i + 1, i + m))
    } else {
        Token::Comma
    };
    Some((m, t))
}

/// Splits assembly source into tokens, in the order in which they stand.
/// Whitespace and any character at which no rule matches yield no token.
pub fn create_tokens(str: String) -> (r: Vec<Token>)
    ensures
        token_views(r@) == tokenize(str@),
{
    let s = chars_of(str.as_str());
    let opcodes = opcode_table();
    let directives = directive_table();
    let mut out: Vec<Token> = Vec::new();
    let mut i: usize = 0;
    while i < s.len()
        invariant
            i <= s.len(),
            s@ == str@,
            view_all(opcodes@) == opcode_words(),
            view_all(directives@) == directive_words(),
            token_views(out@) + scan_from(s@, i as int) == tokenize(s@),
        decreases s.len() - i,
    {
        proof {
            lemma_longest_bounds(s@, i as int);
        }
        match match_at(&s, i, &opcodes, &directives) {
            None => {
                i += 1;
            },
            Some((m, t)) => {
                let ghost before = token_views(out@);
                out.push(t);
                proof {
                    assert(token_views(out@) =~= before.push(t@));
                    assert(before + scan_from(s@, i as int) =~= before.push(t@) + scan_from(
                        s@,
                        i + m,
                    ));
                }
                i += m;
            },
        }
    }
    assert(token_views(out@) =~= token_views(out@) + scan_from(s@, i as int));
    out
}

} // verus!
