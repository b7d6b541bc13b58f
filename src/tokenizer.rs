//! The scanner: source bytes to a flat sequence of classified tokens.
use crate::util::Token;
use crate::{Error, ErrorKind};
use std::ops::Range;
use vstd::prelude::*;
use vstd::string::StringSliceAdditionalSpecFns;

verus! {

#[derive(Debug, PartialEq, Eq, Structural, Clone, Copy)]
pub enum BracketType {
    Round,
    Square,
    Curly,
}

#[derive(Debug, PartialEq, Eq, Structural, Clone, Copy)]
pub enum BracketDirection {
    Opening,
    Closing,
}

#[derive(Debug, PartialEq, Eq, Structural, Clone, Copy)]
pub struct Bracket(pub BracketType, pub BracketDirection);

#[derive(Debug, PartialEq, Eq, Structural, Clone, Copy)]
pub enum Terminator {
    Semicolon,
    Comma,
}

impl Terminator {
    /// The source text of the terminator.
    pub fn symbol(&self) -> (r: &'static str)
        ensures
            r@ == (if *self == Terminator::Semicolon { ";"@ } else { ","@ }),
    {
        match self {
            Terminator::Semicolon => ";",
            Terminator::Comma => ",",
        }
    }
}

/// The kind of a scanned token. Its text is the part of the source that the
/// token's span covers.
#[derive(Debug, PartialEq, Eq, Structural, Clone, Copy)]
pub enum RawToken {
    /// `"..."`, or `#tag"..."tag#` closed only by a quote followed by the tag and `#`.
    String,
    /// `'x`, `'\e` or `'|...|`.
    Character,
    /// `// ...`, `/* ... */` (flat) or `(* ... *)` (nested).
    Comment,
    Operator,
    Identifier,
    Bracket(Bracket),
    Dot,
    SpecialCharacter(Terminator),
    /// A string, character or comment opened and never closed, running to the
    /// end of the source: scanning stops there and fails.
    Error(Unfinished),
}

/// The kind of token left open at the end of the source.
#[derive(Debug, PartialEq, Eq, Structural, Clone, Copy)]
pub enum Unfinished {
    String,
    Character,
    Comment,
}

/// Whitespace and control bytes separate tokens and are dropped.
pub open spec fn is_space(b: u8) -> bool {
    b <= 32 || b == 127
}

pub open spec fn is_ident_byte(b: u8) -> bool {
    (48 <= b <= 57) || (65 <= b <= 90) || (97 <= b <= 122) || b == 95 || b >= 128
}

/// Bytes that start a token of their own kind.
pub open spec fn is_special(b: u8) -> bool {
    b == 34 || b == 35 || b == 39 || b == 47 || b == 40 || b == 41 || b == 91 || b == 93 || b
        == 123 || b == 125 || b == 59 || b == 44 || b == 46
}

pub open spec fn is_operator_byte(b: u8) -> bool {
    !is_space(b) && !is_ident_byte(b) && !is_special(b)
}

/// Whether byte `j` of `s` continues a run of identifier (or operator) bytes.
/// A `/` continues an operator run unless it opens a comment.
pub open spec fn in_run_at(s: Seq<u8>, j: int, ident: bool) -> bool {
    if ident {
        is_ident_byte(s[j])
    } else {
        is_operator_byte(s[j]) || (s[j] == 47 && !(j + 1 < s.len() && (s[j + 1] == 47 || s[j + 1]
            == 42)))
    }
}

/// End of the maximal run of identifier (or operator) bytes from `j`.
pub open spec fn run_end(s: Seq<u8>, j: int, ident: bool) -> int
    decreases s.len() - j,
{
    if 0 <= j < s.len() && in_run_at(s, j, ident) {
        run_end(s, j + 1, ident)
    } else {
        j
    }
}

/// First index at or after `j` holding `b`, or the length when there is none.
pub open spec fn find_byte(s: Seq<u8>, j: int, b: u8) -> int
    decreases s.len() - j,
{
    if j >= s.len() {
        s.len() as int
    } else if s[j] == b {
        j
    } else {
        find_byte(s, j + 1, b)
    }
}

/// First index at or after `j` of a `*/`, or the length when there is none.
pub open spec fn block_end(s: Seq<u8>, j: int) -> int
    decreases s.len() - j,
{
    if j + 1 >= s.len() {
        s.len() as int
    } else if s[j] == 42 && s[j + 1] == 47 {
        j
    } else {
        block_end(s, j + 1)
    }
}

/// What closes a string opened at `i` whose opening quote is at `q`.
pub open spec fn closer_of(s: Seq<u8>, i: int, q: int) -> Seq<u8> {
    if s[i] == 35 {
        seq![34u8] + s.subrange(i + 1, q) + seq![35u8]
    } else {
        seq![34u8]
    }
}

/// End of a string body scanned from `j`: a backslash escapes the next byte,
/// bytes between pipes are skipped, and the first `closer` met otherwise ends it.
pub open spec fn string_end(s: Seq<u8>, j: int, closer: Seq<u8>, in_pipe: bool) -> Option<int>
    decreases s.len() - j,
{
    if j < 0 || j >= s.len() {
        None
    } else if in_pipe {
        string_end(s, j + 1, closer, s[j] != 124)
    } else if s[j] == 92 {
        if j + 1 < s.len() {
            string_end(s, j + 2, closer, false)
        } else {
            None
        }
    } else if s[j] == 124 {
        string_end(s, j + 1, closer, true)
    } else if j + closer.len() <= s.len() && s.subrange(j, j + closer.len()) == closer {
        Some(j + closer.len())
    } else {
        string_end(s, j + 1, closer, false)
    }
}

/// End of a `(* ... *)` comment scanned from `j` with `depth` comments open
/// inside the outermost one.
pub open spec fn nest_end(s: Seq<u8>, j: int, depth: nat) -> Option<int>
    decreases s.len() - j,
{
    if j < 0 || j + 1 >= s.len() {
        None
    } else if s[j] == 40 && s[j + 1] == 42 {
        nest_end(s, j + 2, depth + 1)
    } else if s[j] == 42 && s[j + 1] == 41 {
        if depth == 0 {
            Some(j + 2)
        } else {
            nest_end(s, j + 2, (depth - 1) as nat)
        }
    } else {
        nest_end(s, j + 1, depth)
    }
}

/// Number of bytes of the UTF-8 sequence that starts with `b`.
pub open spec fn utf8_len(b: u8) -> int {
    if b >= 240 {
        4
    } else if b >= 224 {
        3
    } else if b >= 192 {
        2
    } else {
        1
    }
}

pub open spec fn bracket_of(b: u8) -> Bracket {
    if b == 40 {
        Bracket(BracketType::Round, BracketDirection::Opening)
    } else if b == 41 {
        Bracket(BracketType::Round, BracketDirection::Closing)
    } else if b == 91 {
        Bracket(BracketType::Square, BracketDirection::Opening)
    } else if b == 93 {
        Bracket(BracketType::Square, BracketDirection::Closing)
    } else if b == 123 {
        Bracket(BracketType::Curly, BracketDirection::Opening)
    } else {
        Bracket(BracketType::Curly, BracketDirection::Closing)
    }
}

pub open spec fn is_bracket_byte(b: u8) -> bool {
    b == 40 || b == 41 || b == 91 || b == 93 || b == 123 || b == 125
}

/// Kind and end of the token that starts at `i`, where `s[i]` is no space.
pub open spec fn token_at(s: Seq<u8>, i: int) -> (RawToken, int) {
    let n = s.len() as int;
    let c = s[i];
    if c == 34 || c == 35 {
        let q = if c == 34 { i } else { find_byte(s, i + 1, 34) };
        if q >= n {
            (RawToken::Error(Unfinished::String), n)
        } else {
            match string_end(s, q + 1, closer_of(s, i, q), false) {
                Some(e) => (RawToken::String, e),
                None => (RawToken::Error(Unfinished::String), n),
            }
        }
    } else if c == 39 {
        if i + 1 >= n {
            (RawToken::Error(Unfinished::Character), n)
        } else if s[i + 1] == 92 {
            if i + 2 < n {
                (RawToken::Character, i + 3)
            } else {
                (RawToken::Error(Unfinished::Character), n)
            }
        } else if s[i + 1] == 124 {
            let k = find_byte(s, i + 2, 124);
            if k < n {
                (RawToken::Character, k + 1)
            } else {
                (RawToken::Error(Unfinished::Character), n)
            }
        } else if i + 1 + utf8_len(s[i + 1]) <= n {
            (RawToken::Character, i + 1 + utf8_len(s[i + 1]))
        } else {
            (RawToken::Error(Unfinished::Character), n)
        }
    } else if c == 47 && i + 1 < n && s[i + 1] == 47 {
        (RawToken::Comment, find_byte(s, i + 2, 10))
    } else if c == 47 && i + 1 < n && s[i + 1] == 42 {
        let k = block_end(s, i + 2);
        if k < n {
            (RawToken::Comment, k + 2)
        } else {
            (RawToken::Error(Unfinished::Comment), n)
        }
    } else if c == 40 && i + 1 < n && s[i + 1] == 42 {
        match nest_end(s, i + 2, 0) {
            Some(e) => (RawToken::Comment, e),
            None => (RawToken::Error(Unfinished::Comment), n),
        }
    } else if is_bracket_byte(c) {
        (RawToken::Bracket(bracket_of(c)), i + 1)
    } else if c == 59 {
        (RawToken::SpecialCharacter(Terminator::Semicolon), i + 1)
    } else if c == 44 {
        (RawToken::SpecialCharacter(Terminator::Comma), i + 1)
    } else if c == 46 {
        (RawToken::Dot, i + 1)
    } else if is_ident_byte(c) {
        (RawToken::Identifier, run_end(s, i + 1, true))
    } else {
        (RawToken::Operator, run_end(s, i + 1, false))
    }
}

pub open spec fn span_of(start: int, end: int) -> Range<usize> {
    Range { start: start as usize, end: end as usize }
}

/// The tokens of `s` from `i` on. Spaces are dropped, comments too unless
/// `keep_comments`; an unclosed token becomes one `Error` token to the end.
pub open spec fn scan_from(s: Seq<u8>, i: int, keep_comments: bool) -> Seq<Token<RawToken>>
    decreases s.len() - i,
    via scan_from_decreases
{
    if i < 0 || i >= s.len() {
        seq![]
    } else if is_space(s[i]) {
        scan_from(s, i + 1, keep_comments)
    } else {
        let (k, e) = token_at(s, i);
        if k is Error {
            seq![Token { token: k, span: span_of(i, s.len() as int) }]
        } else if k == RawToken::Comment && !keep_comments {
            scan_from(s, e, keep_comments)
        } else {
            seq![Token { token: k, span: span_of(i, e) }] + scan_from(s, e, keep_comments)
        }
    }
}

#[via_fn]
proof fn scan_from_decreases(s: Seq<u8>, i: int, keep_comments: bool) {
    if 0 <= i < s.len() && !is_space(s[i]) {
        lemma_token_at_bounds(s, i);
    }
}

pub proof fn lemma_run_end_bounds(s: Seq<u8>, j: int, ident: bool)
    requires
        0 <= j <= s.len(),
    ensures
        j <= run_end(s, j, ident) <= s.len(),
    decreases s.len() - j,
{
    if j < s.len() && in_run_at(s, j, ident) {
        lemma_run_end_bounds(s, j + 1, ident);
    }
}

pub proof fn lemma_find_byte_bounds(s: Seq<u8>, j: int, b: u8)
    requires
        0 <= j,
    ensures
        j <= find_byte(s, j, b) || find_byte(s, j, b) == s.len(),
        find_byte(s, j, b) <= s.len() || j > s.len(),
        find_byte(s, j, b) < s.len() ==> s[find_byte(s, j, b)] == b,
    decreases s.len() - j,
{
    if j < s.len() && s[j] != b {
        lemma_find_byte_bounds(s, j + 1, b);
    }
}

pub proof fn lemma_block_end_bounds(s: Seq<u8>, j: int)
    requires
        0 <= j,
    ensures
        block_end(s, j) < s.len() ==> j <= block_end(s, j) && block_end(s, j) + 1 < s.len(),
    decreases s.len() - j,
{
    if j + 1 < s.len() && !(s[j] == 42 && s[j + 1] == 47) {
        lemma_block_end_bounds(s, j + 1);
    }
}

pub proof fn lemma_string_end_bounds(s: Seq<u8>, j: int, closer: Seq<u8>, in_pipe: bool)
    requires
        closer.len() > 0,
    ensures
        string_end(s, j, closer, in_pipe) matches Some(e) ==> j < e <= s.len(),
    decreases s.len() - j,
{
    if 0 <= j < s.len() {
        if in_pipe {
            lemma_string_end_bounds(s, j + 1, closer, s[j] != 124);
        } else if s[j] == 92 {
            if j + 1 < s.len() {
                lemma_string_end_bounds(s, j + 2, closer, false);
            }
        } else if s[j] == 124 {
            lemma_string_end_bounds(s, j + 1, closer, true);
        } else if j + closer.len() <= s.len() && s.subrange(j, j + closer.len()) == closer {
        } else {
            lemma_string_end_bounds(s, j + 1, closer, false);
        }
    }
}

pub proof fn lemma_nest_end_bounds(s: Seq<u8>, j: int, depth: nat)
    ensures
        nest_end(s, j, depth) matches Some(e) ==> j + 2 <= e <= s.len(),
    decreases s.len() - j,
{
    if 0 <= j && j + 1 < s.len() {
        if s[j] == 40 && s[j + 1] == 42 {
            lemma_nest_end_bounds(s, j + 2, depth + 1);
        } else if s[j] == 42 && s[j + 1] == 41 {
            if depth != 0 {
                lemma_nest_end_bounds(s, j + 2, (depth - 1) as nat);
            }
        } else {
            lemma_nest_end_bounds(s, j + 1, depth);
        }
    }
}

/// Every token ends after it starts and within the source.
pub proof fn lemma_token_at_bounds(s: Seq<u8>, i: int)
    requires
        0 <= i < s.len(),
        !is_space(s[i]),
    ensures
        i < token_at(s, i).1 <= s.len(),
{
    let n = s.len() as int;
    let c = s[i];
    lemma_run_end_bounds(s, i + 1, true);
    lemma_run_end_bounds(s, i + 1, false);
    lemma_find_byte_bounds(s, i + 2, 10);
    lemma_find_byte_bounds(s, i + 2, 124);
    lemma_find_byte_bounds(s, i + 1, 34);
    lemma_block_end_bounds(s, i + 2);
    lemma_nest_end_bounds(s, i + 2, 0);
    if c == 34 || c == 35 {
        let q = if c == 34 { i } else { find_byte(s, i + 1, 34) };
        if q < n {
            lemma_string_end_bounds(s, q + 1, closer_of(s, i, q), false);
        }
    }
}

/// Bytes `a` to `b` of `s` are all spaces.
pub open spec fn spaces_between(s: Seq<u8>, a: int, b: int) -> bool {
    forall|k: int| a <= k < b ==> is_space(#[trigger] s[k])
}

/// `toks` tile `s` from `i` on: each token starts after nothing but spaces,
/// is not empty, and after the last one only spaces remain.
pub open spec fn tiles(s: Seq<u8>, i: int, toks: Seq<Token<RawToken>>) -> bool
    decreases toks.len(),
{
    if toks.len() == 0 {
        spaces_between(s, i, s.len() as int)
    } else {
        &&& i <= toks[0].span.start
        &&& spaces_between(s, i, toks[0].span.start as int)
        &&& toks[0].span.start < toks[0].span.end <= s.len()
        &&& tiles(s, toks[0].span.end as int, toks.drop_first())
    }
}

/// The tokens with comments kept tile the source: every byte not a space lies
/// in exactly one token, in source order.
pub proof fn lemma_tokens_tile(s: Seq<u8>, i: int)
    requires
        0 <= i <= s.len() <= usize::MAX,
    ensures
        tiles(s, i, scan_from(s, i, true)),
    decreases s.len() - i,
{
    if i < s.len() {
        if is_space(s[i]) {
            lemma_tokens_tile(s, i + 1);
            let toks = scan_from(s, i + 1, true);
            assert(scan_from(s, i, true) == toks);
            if toks.len() > 0 {
                assert(spaces_between(s, i, toks[0].span.start as int));
            } else {
                assert(spaces_between(s, i, s.len() as int));
            }
        } else {
            lemma_token_at_bounds(s, i);
            let (k, e) = token_at(s, i);
            let toks = scan_from(s, i, true);
            if k is Error {
                assert(toks.drop_first() =~= seq![]);
                assert(tiles(s, s.len() as int, seq![]));
            } else {
                lemma_tokens_tile(s, e);
                assert(toks.drop_first() =~= scan_from(s, e, true));
                assert(toks[0].span.end == e);
            }
            assert(spaces_between(s, i, toks[0].span.start as int));
        }
    }
}

/// Dropping comments from the scan is the same as scanning without them.
pub proof fn lemma_comments_dropped(s: Seq<u8>, i: int)
    requires
        0 <= i <= s.len(),
    ensures
        scan_from(s, i, false) == scan_from(s, i, true).filter(
            |t: Token<RawToken>| t.token != RawToken::Comment,
        ),
    decreases s.len() - i,
{
    let f = |t: Token<RawToken>| t.token != RawToken::Comment;
    if i < s.len() {
        if is_space(s[i]) {
            lemma_comments_dropped(s, i + 1);
        } else {
            lemma_token_at_bounds(s, i);
            let (k, e) = token_at(s, i);
            let head = Token { token: k, span: span_of(i, e) };
            if k is Error {
                let t = Token { token: k, span: span_of(i, s.len() as int) };
                reveal_with_fuel(Seq::filter, 2);
                assert(seq![t].drop_last() =~= seq![]);
            } else {
                lemma_comments_dropped(s, e);
                let rest = scan_from(s, e, true);
                Seq::filter_distributes_over_add(seq![head], rest, f);
                reveal_with_fuel(Seq::filter, 2);
                assert(seq![head].drop_last() =~= seq![]);
                if k == RawToken::Comment {
                    assert(seq![head].filter(f) =~= seq![]);
                    assert(seq![].add(rest.filter(f)) =~= rest.filter(f));
                } else {
                    assert(seq![head].filter(f) =~= seq![head]);
                }
            }
        }
    } else {
        assert(seq![].filter(f) =~= seq![]);
    }
}

/// Span coverage: the scan with comments kept tiles the source, so that its
/// tokens' texts, in order, are the source with the spaces between them taken
/// out; the scan without comments is that sequence with the comment tokens
/// taken out.
pub proof fn lemma_span_coverage(s: Seq<u8>)
    requires
        s.len() <= usize::MAX,
    ensures
        tiles(s, 0, scan_from(s, 0, true)),
        scan_from(s, 0, false) == scan_from(s, 0, true).filter(
            |t: Token<RawToken>| t.token != RawToken::Comment,
        ),
{
    lemma_tokens_tile(s, 0);
    lemma_comments_dropped(s, 0);
}

/// Every bracket token that the scan yields covers one byte.
pub proof fn lemma_scanned_brackets_narrow(s: Seq<u8>, i: int, keep_comments: bool)
    requires
        0 <= i <= s.len() <= usize::MAX,
    ensures
        forall|k: int|
            0 <= k < scan_from(s, i, keep_comments).len() && (#[trigger] scan_from(
                s,
                i,
                keep_comments,
            )[k]).token is Bracket ==> scan_from(s, i, keep_comments)[k].span.end == scan_from(
                s,
                i,
                keep_comments,
            )[k].span.start + 1,
    decreases s.len() - i,
{
    if i < s.len() {
        if is_space(s[i]) {
            lemma_scanned_brackets_narrow(s, i + 1, keep_comments);
        } else {
            lemma_token_at_bounds(s, i);
            let (k, e) = token_at(s, i);
            if !(k is Error) {
                lemma_scanned_brackets_narrow(s, e, keep_comments);
                let toks = scan_from(s, i, keep_comments);
                let rest = scan_from(s, e, keep_comments);
                if !(k == RawToken::Comment && !keep_comments) {
                    assert forall|m: int|
                        0 <= m < toks.len() && (#[trigger] toks[m]).token is Bracket implies toks[m].span.end
                            == toks[m].span.start + 1 by {
                        if m > 0 {
                            assert(toks[m] == rest[m - 1]);
                        }
                    }
                }
            }
        }
    }
}

proof fn lemma_run_shift(s: Seq<u8>, a: int, b: int, j: int, ident: bool)
    requires
        0 <= a <= j <= b <= s.len(),
        run_end(s, j, ident) == b,
    ensures
        run_end(s.subrange(a, b), j - a, ident) == b - a,
    decreases b - j,
{
    lemma_run_end_bounds(s, j, ident);
    if j < b && in_run_at(s, j, ident) {
        lemma_run_shift(s, a, b, j + 1, ident);
    }
}

proof fn lemma_find_shift(s: Seq<u8>, a: int, b: int, j: int, x: u8)
    requires
        0 <= a <= j <= b <= s.len(),
    ensures
        find_byte(s.subrange(a, b), j - a, x) == (if find_byte(s, j, x) < b {
            find_byte(s, j, x)
        } else {
            b
        }) - a,
    decreases b - j,
{
    lemma_find_byte_bounds(s, j, x);
    if j < b && s[j] != x {
        lemma_find_shift(s, a, b, j + 1, x);
    }
}

proof fn lemma_block_shift(s: Seq<u8>, a: int, b: int, j: int)
    requires
        0 <= a <= j <= b <= s.len(),
        block_end(s, j) + 1 < b,
    ensures
        block_end(s.subrange(a, b), j - a) == block_end(s, j) - a,
    decreases b - j,
{
    lemma_block_end_bounds(s, j);
    if !(s[j] == 42 && s[j + 1] == 47) {
        lemma_block_shift(s, a, b, j + 1);
    }
}

proof fn lemma_string_shift(s: Seq<u8>, a: int, b: int, j: int, closer: Seq<u8>, in_pipe: bool)
    requires
        0 <= a <= j <= b <= s.len(),
        closer.len() > 0,
        string_end(s, j, closer, in_pipe) matches Some(e) && e <= b,
    ensures
        string_end(s.subrange(a, b), j - a, closer, in_pipe) == Some(
            string_end(s, j, closer, in_pipe)->Some_0 - a,
        ),
    decreases b - j,
{
    let sub = s.subrange(a, b);
    lemma_string_end_bounds(s, j, closer, in_pipe);
    if in_pipe {
        lemma_string_end_bounds(s, j + 1, closer, s[j] != 124);
        lemma_string_shift(s, a, b, j + 1, closer, s[j] != 124);
    } else if s[j] == 92 {
        lemma_string_end_bounds(s, j + 2, closer, false);
        lemma_string_shift(s, a, b, j + 2, closer, false);
    } else if s[j] == 124 {
        lemma_string_end_bounds(s, j + 1, closer, true);
        lemma_string_shift(s, a, b, j + 1, closer, true);
    } else if j + closer.len() <= s.len() && s.subrange(j, j + closer.len()) == closer {
        assert(sub.subrange(j - a, j - a + closer.len()) =~= s.subrange(j, j + closer.len()));
    } else {
        if j + closer.len() <= b {
            assert(sub.subrange(j - a, j - a + closer.len()) =~= s.subrange(j, j + closer.len()));
        }
        lemma_string_end_bounds(s, j + 1, closer, false);
        lemma_string_shift(s, a, b, j + 1, closer, false);
    }
}

proof fn lemma_nest_shift(s: Seq<u8>, a: int, b: int, j: int, depth: nat)
    requires
        0 <= a <= j <= b <= s.len(),
        nest_end(s, j, depth) matches Some(e) && e <= b,
    ensures
        nest_end(s.subrange(a, b), j - a, depth) == Some(nest_end(s, j, depth)->Some_0 - a),
    decreases b - j,
{
    lemma_nest_end_bounds(s, j, depth);
    if s[j] == 40 && s[j + 1] == 42 {
        lemma_nest_end_bounds(s, j + 2, depth + 1);
        lemma_nest_shift(s, a, b, j + 2, depth + 1);
    } else if s[j] == 42 && s[j + 1] == 41 {
        if depth != 0 {
            lemma_nest_end_bounds(s, j + 2, (depth - 1) as nat);
            lemma_nest_shift(s, a, b, j + 2, (depth - 1) as nat);
        }
    } else {
        lemma_nest_end_bounds(s, j + 1, depth);
        lemma_nest_shift(s, a, b, j + 1, depth);
    }
}

/// The token at `a`, when it is no error, is found alike in its own text.
proof fn lemma_token_at_shift(s: Seq<u8>, a: int)
    requires
        0 <= a < s.len(),
        !is_space(s[a]),
        !(token_at(s, a).0 is Error),
    ensures
        token_at(s.subrange(a, token_at(s, a).1), 0) == (token_at(s, a).0, token_at(s, a).1 - a),
{
    let n = s.len() as int;
    let (k, e) = token_at(s, a);
    lemma_token_at_bounds(s, a);
    let sub = s.subrange(a, e);
    assert(sub[0] == s[a]);
    let c = s[a];
    if c == 34 || c == 35 {
        let q = if c == 34 { a } else { find_byte(s, a + 1, 34) };
        lemma_find_byte_bounds(s, a + 1, 34);
        let closer = closer_of(s, a, q);
        lemma_string_end_bounds(s, q + 1, closer, false);
        if c == 35 {
            lemma_find_shift(s, a, e, a + 1, 34);
            assert(sub.subrange(1, q - a) =~= s.subrange(a + 1, q));
        }
        assert(closer_of(sub, 0, q - a) =~= closer);
        lemma_string_shift(s, a, e, q + 1, closer, false);
    } else if c == 39 {
        if s[a + 1] == 124 {
            lemma_find_byte_bounds(s, a + 2, 124);
            lemma_find_shift(s, a, e, a + 2, 124);
        }
    } else if c == 47 && a + 1 < n && s[a + 1] == 47 {
        lemma_find_byte_bounds(s, a + 2, 10);
        lemma_find_shift(s, a, e, a + 2, 10);
    } else if c == 47 && a + 1 < n && s[a + 1] == 42 {
        lemma_block_end_bounds(s, a + 2);
        lemma_block_shift(s, a, e, a + 2);
    } else if c == 40 && a + 1 < n && s[a + 1] == 42 {
        lemma_nest_end_bounds(s, a + 2, 0);
        lemma_nest_shift(s, a, e, a + 2, 0);
    } else if is_bracket_byte(c) || c == 59 || c == 44 || c == 46 {
    } else if is_ident_byte(c) {
        lemma_run_end_bounds(s, a + 1, true);
        lemma_run_shift(s, a, e, a + 1, true);
    } else {
        lemma_run_end_bounds(s, a + 1, false);
        lemma_run_shift(s, a, e, a + 1, false);
        if a + 1 < e {
            assert(sub[1] == s[a + 1]);
        }
    }
}

/// Each token of a scan is the token found at its start.
pub proof fn lemma_scanned_token_at(s: Seq<u8>, i: int, keep_comments: bool, m: int)
    requires
        0 <= i <= s.len() <= usize::MAX,
        0 <= m < scan_from(s, i, keep_comments).len(),
        !(scan_from(s, i, keep_comments)[m].token is Error),
    ensures
        ({
            let t = scan_from(s, i, keep_comments)[m];
            &&& 0 <= t.span.start < s.len()
            &&& !is_space(s[t.span.start as int])
            &&& token_at(s, t.span.start as int) == (t.token, t.span.end as int)
        }),
    decreases s.len() - i,
{
    if i < s.len() {
        if is_space(s[i]) {
            lemma_scanned_token_at(s, i + 1, keep_comments, m);
        } else {
            lemma_token_at_bounds(s, i);
            let (k, e) = token_at(s, i);
            if k == RawToken::Comment && !keep_comments {
                lemma_scanned_token_at(s, e, keep_comments, m);
            } else if m > 0 {
                lemma_scanned_token_at(s, e, keep_comments, m - 1);
            }
        }
    }
}

/// Only the last token of a scan can be an error.
proof fn lemma_error_is_last(s: Seq<u8>, i: int, keep_comments: bool, m: int)
    requires
        0 <= i <= s.len(),
        0 <= m < scan_from(s, i, keep_comments).len() - 1,
    ensures
        !(scan_from(s, i, keep_comments)[m].token is Error),
    decreases s.len() - i,
{
    if i < s.len() {
        if is_space(s[i]) {
            lemma_error_is_last(s, i + 1, keep_comments, m);
        } else {
            lemma_token_at_bounds(s, i);
            let (k, e) = token_at(s, i);
            if k == RawToken::Comment && !keep_comments {
                lemma_error_is_last(s, e, keep_comments, m);
            } else if m > 0 && !(k is Error) {
                lemma_error_is_last(s, e, keep_comments, m - 1);
            }
        }
    }
}

/// Scanning the text of any token of a successful scan, alone, succeeds with
/// exactly that one token, of the same kind, spanning the whole text.
pub proof fn lemma_rescan_token(s: Seq<u8>, keep_comments: bool, m: int)
    requires
        s.len() <= usize::MAX,
        scan_result(s, keep_comments) is Ok,
        0 <= m < scan_from(s, 0, keep_comments).len(),
    ensures
        ({
            let t = scan_from(s, 0, keep_comments)[m];
            scan_result(s.subrange(t.span.start as int, t.span.end as int), true) == Ok::<_, Error>(
                seq![Token { token: t.token, span: span_of(0, t.span.end - t.span.start) }],
            )
        }),
{
    let toks = scan_from(s, 0, keep_comments);
    if m < toks.len() - 1 {
        lemma_error_is_last(s, 0, keep_comments, m);
    }
    let t = toks[m];
    lemma_scanned_token_at(s, 0, keep_comments, m);
    let a = t.span.start as int;
    lemma_token_at_shift(s, a);
    lemma_token_at_bounds(s, a);
    let sub = s.subrange(a, t.span.end as int);
    let one = seq![Token { token: t.token, span: span_of(0, t.span.end - t.span.start) }];
    assert(sub[0] == s[a]);
    assert(scan_from(sub, sub.len() as int, true) =~= seq![]);
    assert(one + seq![] =~= one);
    assert(scan_from(sub, 0, true) == one);
    assert(one.last() == one[0]);
}

fn space_byte(b: u8) -> (r: bool)
    ensures
        r == is_space(b),
{
    b <= 32 || b == 127
}

fn ident_byte(b: u8) -> (r: bool)
    ensures
        r == is_ident_byte(b),
{
    (48 <= b && b <= 57) || (65 <= b && b <= 90) || (97 <= b && b <= 122) || b == 95 || b >= 128
}

fn run_at(s: &[u8], j: usize, ident: bool) -> (r: bool)
    requires
        j < s@.len(),
    ensures
        r == in_run_at(s@, j as int, ident),
{
    let b = s[j];
    if ident {
        ident_byte(b)
    } else if b == 47 {
        !(s.len() - j > 1 && (s[j + 1] == 47 || s[j + 1] == 42))
    } else {
        !space_byte(b) && !ident_byte(b) && !(b == 34 || b == 35 || b == 39 || b == 40 || b == 41
            || b == 91 || b == 93 || b == 123 || b == 125 || b == 59 || b == 44 || b == 46)
    }
}

fn scan_run(s: &[u8], j: usize, ident: bool) -> (r: usize)
    requires
        j <= s@.len(),
    ensures
        r == run_end(s@, j as int, ident),
{
    let mut k = j;
    while k < s.len() && run_at(s, k, ident)
        invariant
            j <= k <= s@.len(),
            run_end(s@, k as int, ident) == run_end(s@, j as int, ident),
        decreases s@.len() - k,
    {
        k = k + 1;
    }
    k
}

fn scan_find(s: &[u8], j: usize, b: u8) -> (r: usize)
    requires
        j <= s@.len(),
    ensures
        r == find_byte(s@, j as int, b),
{
    let mut k = j;
    while k < s.len() && s[k] != b
        invariant
            j <= k <= s@.len(),
            find_byte(s@, k as int, b) == find_byte(s@, j as int, b),
        decreases s@.len() - k,
    {
        k = k + 1;
    }
    k
}

fn scan_block(s: &[u8], j: usize) -> (r: usize)
    requires
        j <= s@.len(),
    ensures
        r == block_end(s@, j as int),
{
    let mut k = j;
    while s.len() - k > 1 && !(s[k] == 42 && s[k + 1] == 47)
        invariant
            j <= k <= s@.len(),
            block_end(s@, k as int) == block_end(s@, j as int),
        decreases s@.len() - k,
    {
        k = k + 1;
    }
    if s.len() - k > 1 {
        k
    } else {
        s.len()
    }
}

/// Whether `closer` stands in `s` at `j`.
fn closes_at(s: &[u8], j: usize, closer: &Vec<u8>) -> (r: bool)
    requires
        j <= s@.len(),
    ensures
        r == (j + closer@.len() <= s@.len() && s@.subrange(j as int, j + closer@.len()) == closer@),
{
    if closer.len() > s.len() - j {
        return false;
    }
    let mut k: usize = 0;
    while k < closer.len()
        invariant
            j + closer@.len() <= s@.len(),
            k <= closer@.len(),
            closer@.len() == closer.len(),
            s@.len() <= usize::MAX,
            forall|m: int| 0 <= m < k ==> s@[j + m] == closer@[m],
        decreases closer@.len() - k,
    {
        let at: usize = j + k;
        if s[at] != closer[k] {
            assert(s@.subrange(j as int, j + closer@.len())[k as int] != closer@[k as int]);
            return false;
        }
        k = k + 1;
    }
    assert(s@.subrange(j as int, j + closer@.len()) =~= closer@);
    true
}

fn scan_string(s: &[u8], j: usize, closer: &Vec<u8>) -> (r: Option<usize>)
    requires
        j <= s@.len(),
    ensures
        r == (match string_end(s@, j as int, closer@, false) {
            Some(e) => Some(e as usize),
            None => None::<usize>,
        }),
        r matches Some(e) ==> e <= s@.len(),
{
    let mut k = j;
    let mut in_pipe = false;
    while k < s.len()
        invariant
            j <= k <= s@.len(),
            string_end(s@, k as int, closer@, in_pipe) == string_end(s@, j as int, closer@, false),
        decreases s@.len() - k,
    {
        if in_pipe {
            in_pipe = s[k] != 124;
            k = k + 1;
        } else if s[k] == 92 {
            if k + 1 < s.len() {
                k = k + 2;
            } else {
                return None;
            }
        } else if s[k] == 124 {
            in_pipe = true;
            k = k + 1;
        } else if closes_at(s, k, closer) {
            return Some(k + closer.len());
        } else {
            k = k + 1;
        }
    }
    None
}

fn scan_nested(s: &[u8], j: usize) -> (r: Option<usize>)
    requires
        j <= s@.len(),
    ensures
        r == (match nest_end(s@, j as int, 0) {
            Some(e) => Some(e as usize),
            None => None::<usize>,
        }),
        r matches Some(e) ==> e <= s@.len(),
{
    let mut k = j;
    let mut depth: usize = 0;
    while s.len() - k > 1
        invariant
            j <= k <= s@.len(),
            depth <= k,
            nest_end(s@, k as int, depth as nat) == nest_end(s@, j as int, 0),
        decreases s@.len() - k,
    {
        if s[k] == 40 && s[k + 1] == 42 {
            depth = depth + 1;
            k = k + 2;
        } else if s[k] == 42 && s[k + 1] == 41 {
            if depth == 0 {
                return Some(k + 2);
            }
            depth = depth - 1;
            k = k + 2;
        } else {
            k = k + 1;
        }
    }
    None
}

fn bracket_for(c: u8) -> (r: Bracket)
    requires
        is_bracket_byte(c),
    ensures
        r == bracket_of(c),
{
    if c == 40 {
        Bracket(BracketType::Round, BracketDirection::Opening)
    } else if c == 41 {
        Bracket(BracketType::Round, BracketDirection::Closing)
    } else if c == 91 {
        Bracket(BracketType::Square, BracketDirection::Opening)
    } else if c == 93 {
        Bracket(BracketType::Square, BracketDirection::Closing)
    } else if c == 123 {
        Bracket(BracketType::Curly, BracketDirection::Opening)
    } else {
        Bracket(BracketType::Curly, BracketDirection::Closing)
    }
}

fn utf8_width(b: u8) -> (r: usize)
    ensures
        r == utf8_len(b),
{
    if b >= 240 {
        4
    } else if b >= 224 {
        3
    } else if b >= 192 {
        2
    } else {
        1
    }
}

/// The bytes that close a string opened at `i` with its quote at `q`.
fn string_closer(s: &[u8], i: usize, q: usize) -> (r: Vec<u8>)
    requires
        i <= q < s@.len(),
        s@[i as int] == 34 ==> q == i,
        s@[i as int] == 35 ==> i < q,
    ensures
        r@ == closer_of(s@, i as int, q as int),
{
    let mut closer: Vec<u8> = Vec::new();
    closer.push(34);
    if s[i] == 35 {
        let mut k = i + 1;
        while k < q
            invariant
                i < k <= q < s@.len(),
                closer@ == seq![34u8] + s@.subrange(i + 1, k as int),
            decreases q - k,
        {
            closer.push(s[k]);
            proof {
                assert(s@.subrange(i + 1, k + 1) =~= s@.subrange(i + 1, k as int).push(s@[k as int]));
            }
            k = k + 1;
        }
        closer.push(35);
    }
    closer
}

fn next_token(s: &[u8], i: usize) -> (r: (RawToken, usize))
    requires
        i < s@.len(),
        !is_space(s@[i as int]),
    ensures
        r.0 == token_at(s@, i as int).0,
        r.1 == token_at(s@, i as int).1,
{
    proof {
        lemma_token_at_bounds(s@, i as int);
    }
    let n = s.len();
    let c = s[i];
    if c == 34 || c == 35 {
        let q = if c == 34 {
            i
        } else {
            scan_find(s, i + 1, 34)
        };
        if q >= n {
            (RawToken::Error(Unfinished::String), n)
        } else {
            proof {
                lemma_find_byte_bounds(s@, i + 1, 34);
            }
            let closer = string_closer(s, i, q);
            match scan_string(s, q + 1, &closer) {
                Some(e) => (RawToken::String, e),
                None => (RawToken::Error(Unfinished::String), n),
            }
        }
    } else if c == 39 {
        if n - i <= 1 {
            (RawToken::Error(Unfinished::Character), n)
        } else if s[i + 1] == 92 {
            if n - i > 2 {
                (RawToken::Character, i + 3)
            } else {
                (RawToken::Error(Unfinished::Character), n)
            }
        } else if s[i + 1] == 124 {
            let k = scan_find(s, i + 2, 124);
            if k < n {
                (RawToken::Character, k + 1)
            } else {
                (RawToken::Error(Unfinished::Character), n)
            }
        } else {
            let w = utf8_width(s[i + 1]);
            if n - i - 1 >= w {
                (RawToken::Character, i + 1 + w)
            } else {
                (RawToken::Error(Unfinished::Character), n)
            }
        }
    } else if c == 47 && n - i > 1 && s[i + 1] == 47 {
        (RawToken::Comment, scan_find(s, i + 2, 10))
    } else if c == 47 && n - i > 1 && s[i + 1] == 42 {
        let k = scan_block(s, i + 2);
        if k < n {
            proof {
                lemma_block_end_bounds(s@, i + 2);
            }
            (RawToken::Comment, k + 2)
        } else {
            (RawToken::Error(Unfinished::Comment), n)
        }
    } else if c == 40 && n - i > 1 && s[i + 1] == 42 {
        match scan_nested(s, i + 2) {
            Some(e) => (RawToken::Comment, e),
            None => (RawToken::Error(Unfinished::Comment), n),
        }
    } else if c == 40 || c == 41 || c == 91 || c == 93 || c == 123 || c == 125 {
        (RawToken::Bracket(bracket_for(c)), i + 1)
    } else if c == 59 {
        (RawToken::SpecialCharacter(Terminator::Semicolon), i + 1)
    } else if c == 44 {
        (RawToken::SpecialCharacter(Terminator::Comma), i + 1)
    } else if c == 46 {
        (RawToken::Dot, i + 1)
    } else if ident_byte(c) {
        (RawToken::Identifier, scan_run(s, i + 1, true))
    } else {
        (RawToken::Operator, scan_run(s, i + 1, false))
    }
}

/// The result of scanning `s`: its tokens, or the error for the token left
/// unfinished, which fails the whole scan.
pub open spec fn scan_result(s: Seq<u8>, keep_comments: bool) -> Result<Seq<Token<RawToken>>, Error> {
    let toks = scan_from(s, 0, keep_comments);
    if toks.len() > 0 && toks.last().token is Error {
        Err(Error { kind: ErrorKind::LexingError(toks.last().token->Error_0), span: toks.last().span })
    } else {
        Ok(toks)
    }
}

/// Scans `source` into tokens, keeping comment tokens when `keep_comments`.
pub fn scan(source: &str, keep_comments: bool) -> (r: Result<Vec<Token<RawToken>>, Error>)
    ensures
        scan_result(source.spec_bytes(), keep_comments) == (match r {
            Ok(v) => Ok(v@),
            Err(e) => Err(e),
        }),
{
    let s = source.as_bytes();
    let mut out: Vec<Token<RawToken>> = Vec::new();
    let mut i: usize = 0;
    while i < s.len()
        invariant
            i <= s@.len(),
            s@ == source.spec_bytes(),
            out@ + scan_from(s@, i as int, keep_comments) == scan_from(s@, 0, keep_comments),
            forall|k: int| 0 <= k < out@.len() ==> !(#[trigger] out@[k].token is Error),
        decreases s@.len() - i,
    {
        if space_byte(s[i]) {
            i = i + 1;
        } else {
            let (k, e) = next_token(s, i);
            proof {
                lemma_token_at_bounds(s@, i as int);
            }
            if let RawToken::Error(u) = k {
                let t = Token { token: k, span: Range { start: i, end: s.len() } };
                proof {
                    assert(out@.push(t) =~= out@ + scan_from(s@, i as int, keep_comments));
                    assert(scan_from(s@, 0, keep_comments).last() == t);
                }
                return Err(Error { kind: ErrorKind::LexingError(u), span: t.span });
            } else if k == RawToken::Comment && !keep_comments {
                i = e;
            } else {
                let t = Token { token: k, span: Range { start: i, end: e } };
                proof {
                    assert(out@.push(t) + scan_from(s@, e as int, keep_comments) =~= out@
                        + scan_from(s@, i as int, keep_comments));
                }
                out.push(t);
                i = e;
            }
        }
    }
    proof {
        assert(out@ =~= out@ + scan_from(s@, i as int, keep_comments));
        if out@.len() > 0 {
            assert(!(out@[out@.len() - 1].token is Error));
        }
    }
    Ok(out)
}

/// Scans `source` into tokens, dropping whitespace and comments.
pub fn tokenize(source: &str) -> (r: Result<Vec<Token<RawToken>>, Error>)
    ensures
        scan_result(source.spec_bytes(), false) == (match r {
            Ok(v) => Ok(v@),
            Err(e) => Err(e),
        }),
{
    scan(source, false)
}

} // verus!
