//! The bracket grouper: a flat token sequence to a tree of bracketed groups.
use crate::tokenizer::{
    lemma_scanned_brackets_narrow, scan_from, scan_result, Bracket, BracketDirection, BracketType, RawToken,
    Terminator,
};
use crate::util::Token;
use crate::{Error, ErrorKind};
use std::ops::Range;
use vstd::prelude::*;

verus! {

broadcast use vstd::std_specs::vec::axiom_vec_decreases_to_view;

#[derive(Debug)]
pub enum BasicToken {
    String,
    Character,
    Comment,
    Operator,
    Identifier,
    Bracketed(BracketType, TokenStream),
    Terminator(Terminator),
    Dot,
}

pub type TokenStream = Vec<Token<BasicToken>>;

/// A grouped token as a value: a leaf keeps its scanned token, a node its
/// bracket type, its span and its children.
pub enum Tree {
    Leaf(Token<RawToken>),
    Node(BracketType, Range<usize>, Seq<Tree>),
}

/// The scanned kind a leaf of the grouped stream stands for.
pub open spec fn raw_of(k: BasicToken) -> RawToken {
    match k {
        BasicToken::String => RawToken::String,
        BasicToken::Character => RawToken::Character,
        BasicToken::Comment => RawToken::Comment,
        BasicToken::Operator => RawToken::Operator,
        BasicToken::Identifier => RawToken::Identifier,
        BasicToken::Terminator(t) => RawToken::SpecialCharacter(t),
        BasicToken::Dot => RawToken::Dot,
        BasicToken::Bracketed(..) => RawToken::Dot,
    }
}

pub open spec fn tree_of(t: Token<BasicToken>) -> Tree
    decreases t,
{
    match t.token {
        BasicToken::Bracketed(b, inner) => Tree::Node(b, t.span, forest_of(inner@)),
        _ => Tree::Leaf(Token { token: raw_of(t.token), span: t.span }),
    }
}

pub open spec fn forest_of(v: Seq<Token<BasicToken>>) -> Seq<Tree>
    decreases v,
{
    if v.len() == 0 {
        seq![]
    } else {
        forest_of(v.drop_last()).push(tree_of(v.last()))
    }
}

pub open spec fn is_leaf(k: RawToken) -> bool {
    !(k is Bracket) && !(k is Error)
}

/// Index of the bracket that closes a bracket of type `b`, scanning from `j`
/// with `depth` brackets of that type open; the length when none does.
pub open spec fn close_of(t: Seq<Token<RawToken>>, j: int, b: BracketType, depth: nat) -> Result<
    int,
    Error,
>
    decreases t.len() - j,
{
    if j < 0 || j >= t.len() {
        Ok(t.len() as int)
    } else {
        match t[j].token {
            RawToken::Bracket(Bracket(b2, BracketDirection::Opening)) => close_of(
                t,
                j + 1,
                b,
                if b2 == b {
                    depth + 1
                } else {
                    depth
                },
            ),
            RawToken::Bracket(Bracket(b2, BracketDirection::Closing)) => {
                if b2 != b {
                    Err(Error { kind: ErrorKind::MismatchedClosingParentheses, span: t[j].span })
                } else if depth <= 1 {
                    Ok(j)
                } else {
                    close_of(t, j + 1, b, (depth - 1) as nat)
                }
            },
            _ => close_of(t, j + 1, b, depth),
        }
    }
}

pub open spec fn prepend(p: Seq<Tree>, r: Result<Seq<Tree>, Error>) -> Result<Seq<Tree>, Error> {
    match r {
        Ok(rest) => Ok(p + rest),
        Err(e) => Err(e),
    }
}

/// The error for a bracket still open at the end of its input: inside a
/// group, the group's closing bracket came while it was open and is
/// mismatched; at the top level the bracket is unterminated.
pub open spec fn unclosed(outer: Option<Range<usize>>, open: Range<usize>) -> Error {
    match outer {
        Some(close) => Error { kind: ErrorKind::MismatchedClosingParentheses, span: close },
        None => Error { kind: ErrorKind::UnterminatedGroup, span: open },
    }
}

/// The grouping of `t` from `i` on, with at most `limit` levels of brackets.
/// Inside a group, `outer` is the span of the group's closing bracket.
pub open spec fn group_from(
    t: Seq<Token<RawToken>>,
    i: int,
    limit: nat,
    outer: Option<Range<usize>>,
) -> Result<Seq<Tree>, Error>
    decreases t.len(), t.len() - i,
    via group_from_decreases
{
    if i < 0 || i >= t.len() {
        Ok(seq![])
    } else {
        match t[i].token {
            RawToken::Error(u) => Err(Error { kind: ErrorKind::LexingError(u), span: t[i].span }),
            RawToken::Bracket(Bracket(_, BracketDirection::Closing)) => Err(
                Error { kind: ErrorKind::MismatchedClosingParentheses, span: t[i].span },
            ),
            RawToken::Bracket(Bracket(b, BracketDirection::Opening)) => {
                if limit == 0 {
                    Err(Error { kind: ErrorKind::NestingTooDeep, span: t[i].span })
                } else {
                    match close_of(t, i + 1, b, 1) {
                    Err(e) => Err(e),
                    Ok(m) => {
                        if m >= t.len() {
                            Err(unclosed(outer, t[i].span))
                        } else {
                            match group_from(t.subrange(i + 1, m), 0, (limit - 1) as nat, Some(t[m].span)) {
                                Err(e) => Err(e),
                                Ok(inner) => prepend(
                                    seq![
                                        Tree::Node(
                                            b,
                                            Range { start: t[i].span.start, end: t[m].span.start },
                                            inner,
                                        ),
                                    ],
                                    group_from(t, m + 1, limit, outer),
                                ),
                            }
                        }
                    },
                    }
                }
            },
            _ => prepend(seq![Tree::Leaf(t[i])], group_from(t, i + 1, limit, outer)),
        }
    }
}

/// The grouping of `t` with at most `limit` levels of brackets.
pub open spec fn group_within(t: Seq<Token<RawToken>>, limit: nat) -> Result<Seq<Tree>, Error> {
    group_from(t, 0, limit, None)
}

/// The grouping of `t`, where no input can reach the limit on levels.
pub open spec fn group(t: Seq<Token<RawToken>>) -> Result<Seq<Tree>, Error> {
    group_within(t, t.len())
}

proof fn lemma_close_of_bounds(t: Seq<Token<RawToken>>, j: int, b: BracketType, depth: nat)
    requires
        0 <= j,
    ensures
        close_of(t, j, b, depth) matches Ok(m) ==> (j <= m <= t.len() || m == t.len()),
        close_of(t, j, b, depth) matches Err(e) ==> e.kind == ErrorKind::MismatchedClosingParentheses,
    decreases t.len() - j,
{
    if j < t.len() {
        match t[j].token {
            RawToken::Bracket(Bracket(b2, BracketDirection::Opening)) => {
                lemma_close_of_bounds(t, j + 1, b, if b2 == b { depth + 1 } else { depth });
            },
            RawToken::Bracket(Bracket(b2, BracketDirection::Closing)) => {
                if b2 == b && depth > 1 {
                    lemma_close_of_bounds(t, j + 1, b, (depth - 1) as nat);
                }
            },
            _ => {
                lemma_close_of_bounds(t, j + 1, b, depth);
            },
        }
    }
}

#[via_fn]
proof fn group_from_decreases(
    t: Seq<Token<RawToken>>,
    i: int,
    limit: nat,
    outer: Option<Range<usize>>,
) {
    if 0 <= i < t.len() {
        lemma_close_of_bounds(t, i + 1, BracketType::Round, 1);
        lemma_close_of_bounds(t, i + 1, BracketType::Square, 1);
        lemma_close_of_bounds(t, i + 1, BracketType::Curly, 1);
    }
}

pub open spec fn bracket_token(b: BracketType, d: BracketDirection, at: usize) -> Token<RawToken> {
    Token { token: RawToken::Bracket(Bracket(b, d)), span: Range { start: at, end: (at + 1) as usize } }
}

/// The flat tokens a tree stands for: a node gives back its two brackets
/// around its children.
pub open spec fn flatten_tree(x: Tree) -> Seq<Token<RawToken>>
    decreases x,
{
    match x {
        Tree::Leaf(tok) => seq![tok],
        Tree::Node(b, span, kids) => seq![bracket_token(b, BracketDirection::Opening, span.start)]
            + flatten(kids) + seq![bracket_token(b, BracketDirection::Closing, span.end)],
    }
}

pub open spec fn flatten(v: Seq<Tree>) -> Seq<Token<RawToken>>
    decreases v,
{
    if v.len() == 0 {
        seq![]
    } else {
        flatten_tree(v[0]) + flatten(v.drop_first())
    }
}

/// Every bracket token of `t` covers one byte.
pub open spec fn narrow_brackets(t: Seq<Token<RawToken>>) -> bool {
    forall|k: int|
        0 <= k < t.len() && (#[trigger] t[k]).token is Bracket ==> t[k].span.end == t[k].span.start
            + 1
}

proof fn lemma_close_of_found(t: Seq<Token<RawToken>>, j: int, b: BracketType, depth: nat)
    requires
        0 <= j,
    ensures
        close_of(t, j, b, depth) matches Ok(m) ==> (m < t.len() ==> t[m].token == RawToken::Bracket(
            Bracket(b, BracketDirection::Closing),
        )),
    decreases t.len() - j,
{
    if j < t.len() {
        match t[j].token {
            RawToken::Bracket(Bracket(b2, BracketDirection::Opening)) => {
                lemma_close_of_found(t, j + 1, b, if b2 == b { depth + 1 } else { depth });
            },
            RawToken::Bracket(Bracket(b2, BracketDirection::Closing)) => {
                if b2 == b && depth > 1 {
                    lemma_close_of_found(t, j + 1, b, (depth - 1) as nat);
                }
            },
            _ => {
                lemma_close_of_found(t, j + 1, b, depth);
            },
        }
    }
}

proof fn lemma_flatten_prepend(x: Tree, rest: Seq<Tree>)
    ensures
        flatten(seq![x] + rest) == flatten_tree(x) + flatten(rest),
{
    assert((seq![x] + rest).drop_first() =~= rest);
}

/// Where grouping succeeds, flattening the trees gives back the tokens from `i` on.
pub proof fn lemma_group_from_flattens(
    t: Seq<Token<RawToken>>,
    i: int,
    limit: nat,
    outer: Option<Range<usize>>,
)
    requires
        0 <= i <= t.len(),
        narrow_brackets(t),
        group_from(t, i, limit, outer) is Ok,
    ensures
        flatten(group_from(t, i, limit, outer)->Ok_0) == t.subrange(i, t.len() as int),
    decreases t.len(), t.len() - i,
{
    if i < t.len() {
        match t[i].token {
            RawToken::Bracket(Bracket(b, BracketDirection::Opening)) => {
                lemma_close_of_bounds(t, i + 1, b, 1);
                lemma_close_of_found(t, i + 1, b, 1);
                let m = close_of(t, i + 1, b, 1)->Ok_0;
                let sub = t.subrange(i + 1, m);
                assert(narrow_brackets(sub));
                lemma_group_from_flattens(sub, 0, (limit - 1) as nat, Some(t[m].span));
                lemma_group_from_flattens(t, m + 1, limit, outer);
                let inner = group_from(sub, 0, (limit - 1) as nat, Some(t[m].span))->Ok_0;
                let node = Tree::Node(
                    b,
                    Range { start: t[i].span.start, end: t[m].span.start },
                    inner,
                );
                lemma_flatten_prepend(node, group_from(t, m + 1, limit, outer)->Ok_0);
                assert(bracket_token(b, BracketDirection::Opening, t[i].span.start) == t[i]);
                assert(bracket_token(b, BracketDirection::Closing, t[m].span.start) == t[m]);
                assert(sub.subrange(0, sub.len() as int) =~= sub);
                assert(flatten_tree(node) + t.subrange(m + 1, t.len() as int) =~= t.subrange(
                    i,
                    t.len() as int,
                ));
            },
            _ => {
                lemma_group_from_flattens(t, i + 1, limit, outer);
                lemma_flatten_prepend(Tree::Leaf(t[i]), group_from(t, i + 1, limit, outer)->Ok_0);
                assert(seq![t[i]] + t.subrange(i + 1, t.len() as int) =~= t.subrange(
                    i,
                    t.len() as int,
                ));
            },
        }
    } else {
        assert(t.subrange(i, t.len() as int) =~= seq![]);
    }
}

/// Grouping followed by flattening the trees reproduces the flat tokens,
/// wherever grouping succeeds and bracket tokens are one byte wide.
pub proof fn lemma_group_round_trip(t: Seq<Token<RawToken>>, limit: nat)
    requires
        narrow_brackets(t),
        group_within(t, limit) is Ok,
    ensures
        flatten(group_within(t, limit)->Ok_0) == t,
{
    lemma_group_from_flattens(t, 0, limit, None);
    assert(t.subrange(0, t.len() as int) =~= t);
}

/// Grouping the scanner's tokens, where it succeeds, and flattening the trees
/// reproduces the scanner's tokens exactly.
pub proof fn lemma_scan_group_round_trip(s: Seq<u8>)
    requires
        s.len() <= usize::MAX,
        group(scan_from(s, 0, false)) is Ok,
    ensures
        flatten(group(scan_from(s, 0, false))->Ok_0) == scan_from(s, 0, false),
{
    lemma_scanned_brackets_narrow(s, 0, false);
    lemma_group_round_trip(scan_from(s, 0, false), scan_from(s, 0, false).len());
}

/// Brackets of `t` from `i` on are balanced and not interleaved, `d` brackets
/// of type `cur` being open: each closing bracket closes the nearest open one,
/// and inside a pair every bracket has that pair's type.
pub open spec fn nested(t: Seq<Token<RawToken>>, i: int, cur: Option<BracketType>, d: nat) -> bool
    decreases t.len() - i,
{
    if i < 0 || i >= t.len() {
        d == 0
    } else {
        match t[i].token {
            RawToken::Error(_) => false,
            RawToken::Bracket(Bracket(b, BracketDirection::Opening)) => {
                if d == 0 {
                    nested(t, i + 1, Some(b), 1)
                } else {
                    cur == Some(b) && nested(t, i + 1, cur, d + 1)
                }
            },
            RawToken::Bracket(Bracket(b, BracketDirection::Closing)) => {
                d > 0 && cur == Some(b) && nested(
                    t,
                    i + 1,
                    if d == 1 {
                        None
                    } else {
                        cur
                    },
                    (d - 1) as nat,
                )
            },
            _ => nested(t, i + 1, cur, d),
        }
    }
}

/// `t` has no error token, and its brackets are balanced and not interleaved.
pub open spec fn well_nested(t: Seq<Token<RawToken>>) -> bool {
    nested(t, 0, None, 0)
}

proof fn lemma_nested_outside_any(t: Seq<Token<RawToken>>, i: int, c1: Option<BracketType>, c2: Option<BracketType>)
    requires
        nested(t, i, c1, 0),
    ensures
        nested(t, i, c2, 0),
    decreases t.len() - i,
{
    if 0 <= i < t.len() {
        match t[i].token {
            RawToken::Bracket(_) | RawToken::Error(_) => {},
            _ => {
                lemma_nested_outside_any(t, i + 1, c1, c2);
            },
        }
    }
}

/// Inside a pair of type `b` with `d` open, the closing bracket is found, the
/// rest is well nested, and so is what lies inside.
proof fn lemma_nested_closes(t: Seq<Token<RawToken>>, j0: int, j: int, b: BracketType, d: nat)
    requires
        0 <= j0 <= j,
        d >= 1,
        nested(t, j, Some(b), d),
    ensures
        close_of(t, j, b, d) matches Ok(m) && j <= m < t.len() && nested(t, m + 1, None, 0)
            && nested(t.subrange(j0, m), j - j0, Some(b), (d - 1) as nat),
    decreases t.len() - j,
{
    match t[j].token {
        RawToken::Bracket(Bracket(b2, BracketDirection::Opening)) => {
            lemma_nested_closes(t, j0, j + 1, b, d + 1);
            let m = close_of(t, j, b, d)->Ok_0;
            let sub = t.subrange(j0, m);
            assert(sub[j - j0] == t[j]);
        },
        RawToken::Bracket(Bracket(b2, BracketDirection::Closing)) => {
            if d > 1 {
                lemma_nested_closes(t, j0, j + 1, b, (d - 1) as nat);
                let m = close_of(t, j, b, d)->Ok_0;
                let sub = t.subrange(j0, m);
                assert(sub[j - j0] == t[j]);
                if d == 2 {
                    lemma_nested_outside_any(sub, j + 1 - j0, Some(b), None);
                }
            }
        },
        _ => {
            lemma_nested_closes(t, j0, j + 1, b, d);
            let m = close_of(t, j, b, d)->Ok_0;
            let sub = t.subrange(j0, m);
            assert(sub[j - j0] == t[j]);
        },
    }
}

proof fn lemma_nested_groups(
    t: Seq<Token<RawToken>>,
    i: int,
    c: Option<BracketType>,
    limit: nat,
    outer: Option<Range<usize>>,
)
    requires
        0 <= i <= t.len() <= limit,
        nested(t, i, c, 0),
    ensures
        group_from(t, i, limit, outer) is Ok,
    decreases t.len(), t.len() - i,
{
    if i < t.len() {
        match t[i].token {
            RawToken::Bracket(Bracket(b, BracketDirection::Opening)) => {
                lemma_nested_closes(t, i + 1, i + 1, b, 1);
                let m = close_of(t, i + 1, b, 1)->Ok_0;
                let sub = t.subrange(i + 1, m);
                lemma_nested_outside_any(sub, 0, Some(b), None);
                lemma_nested_groups(sub, 0, None, (limit - 1) as nat, Some(t[m].span));
                lemma_nested_groups(t, m + 1, None, limit, outer);
            },
            RawToken::Bracket(_) | RawToken::Error(_) => {},
            _ => {
                lemma_nested_groups(t, i + 1, c, limit, outer);
            },
        }
    }
}

/// Balanced, non-interleaved tokens always group without error, and
/// flattening the trees gives them back, where bracket tokens are one byte wide.
pub proof fn lemma_well_nested_round_trip(t: Seq<Token<RawToken>>)
    requires
        well_nested(t),
        narrow_brackets(t),
    ensures
        group(t) is Ok,
        flatten(group(t)->Ok_0) == t,
{
    lemma_nested_groups(t, 0, None, t.len(), None);
    lemma_group_round_trip(t, t.len());
}

proof fn lemma_nested_no_error(t: Seq<Token<RawToken>>, i: int, c: Option<BracketType>, d: nat, k: int)
    requires
        0 <= i <= k < t.len(),
        nested(t, i, c, d),
    ensures
        !(t[k].token is Error),
    decreases k - i,
{
    if i < k {
        match t[i].token {
            RawToken::Bracket(Bracket(b, BracketDirection::Opening)) => {
                if d == 0 {
                    lemma_nested_no_error(t, i + 1, Some(b), 1, k);
                } else {
                    lemma_nested_no_error(t, i + 1, c, d + 1, k);
                }
            },
            RawToken::Bracket(Bracket(b, BracketDirection::Closing)) => {
                lemma_nested_no_error(t, i + 1, if d == 1 { None } else { c }, (d - 1) as nat, k);
            },
            _ => {
                lemma_nested_no_error(t, i + 1, c, d, k);
            },
        }
    }
}

/// Where the scanner's tokens are balanced and not interleaved, the scan
/// succeeds, grouping them succeeds, and flattening the trees reproduces them.
pub proof fn lemma_scan_well_nested_round_trip(s: Seq<u8>)
    requires
        s.len() <= usize::MAX,
        well_nested(scan_from(s, 0, false)),
    ensures
        scan_result(s, false) == Ok::<_, Error>(scan_from(s, 0, false)),
        group(scan_from(s, 0, false)) is Ok,
        flatten(group(scan_from(s, 0, false))->Ok_0) == scan_from(s, 0, false),
{
    let t = scan_from(s, 0, false);
    if t.len() > 0 {
        lemma_nested_no_error(t, 0, None, 0, t.len() - 1);
    }
    lemma_scanned_brackets_narrow(s, 0, false);
    lemma_well_nested_round_trip(t);
}

pub open spec fn as_spec_result(r: Result<TokenStream, Error>) -> Result<Seq<Tree>, Error> {
    match r {
        Ok(v) => Ok(forest_of(v@)),
        Err(e) => Err(e),
    }
}

fn copy_span(span: &Range<usize>) -> (r: Range<usize>)
    ensures
        r == *span,
{
    Range { start: span.start, end: span.end }
}

/// Index of the bracket that closes the bracket of type `b` opened just
/// before `j0`, within `tokens[lo..hi]`.
fn find_close(tokens: &[Token<RawToken>], lo: usize, hi: usize, j0: usize, b: BracketType) -> (r:
    Result<usize, Error>)
    requires
        lo < j0 <= hi <= tokens@.len(),
    ensures
        close_of(tokens@.subrange(lo as int, hi as int), j0 - lo, b, 1) == (match r {
            Ok(m) => Ok(m - lo),
            Err(e) => Err(e),
        }),
        r matches Ok(m) ==> j0 <= m <= hi,
{
    let ghost sub = tokens@.subrange(lo as int, hi as int);
    let mut j = j0;
    let mut depth: usize = 1;
    while j < hi
        invariant
            lo < j0 <= j <= hi <= tokens@.len(),
            sub == tokens@.subrange(lo as int, hi as int),
            1 <= depth <= j - j0 + 1,
            close_of(sub, j - lo, b, depth as nat) == close_of(sub, j0 - lo, b, 1),
        decreases hi - j,
    {
        match tokens[j].token {
            RawToken::Bracket(Bracket(b2, BracketDirection::Opening)) => {
                if b2 == b {
                    depth = depth + 1;
                }
            },
            RawToken::Bracket(Bracket(b2, BracketDirection::Closing)) => {
                if b2 != b {
                    return Err(
                        Error {
                            kind: ErrorKind::MismatchedClosingParentheses,
                            span: copy_span(&tokens[j].span),
                        },
                    );
                } else if depth <= 1 {
                    return Ok(j);
                } else {
                    depth = depth - 1;
                }
            },
            _ => {},
        }
        j = j + 1;
    }
    Ok(hi)
}

fn leaf_token(k: RawToken) -> (r: BasicToken)
    requires
        is_leaf(k),
    ensures
        raw_of(r) == k,
        !(r is Bracketed),
{
    match k {
        RawToken::String => BasicToken::String,
        RawToken::Character => BasicToken::Character,
        RawToken::Comment => BasicToken::Comment,
        RawToken::Operator => BasicToken::Operator,
        RawToken::Identifier => BasicToken::Identifier,
        RawToken::SpecialCharacter(t) => BasicToken::Terminator(t),
        _ => BasicToken::Dot,
    }
}

/// Groups `tokens[lo..hi]` with at most `limit` levels of brackets.
fn group_range(
    tokens: &[Token<RawToken>],
    lo: usize,
    hi: usize,
    limit: usize,
    outer: &Option<Range<usize>>,
) -> (r: Result<TokenStream, Error>)
    requires
        lo <= hi <= tokens@.len(),
    ensures
        as_spec_result(r) == group_from(
            tokens@.subrange(lo as int, hi as int),
            0,
            limit as nat,
            *outer,
        ),
    decreases hi - lo,
{
    let ghost sub = tokens@.subrange(lo as int, hi as int);
    let mut res: TokenStream = Vec::new();
    let mut i = lo;
    while i < hi
        invariant
            lo <= i <= hi <= tokens@.len(),
            sub == tokens@.subrange(lo as int, hi as int),
            group_from(sub, 0, limit as nat, *outer) == prepend(
                forest_of(res@),
                group_from(sub, i - lo, limit as nat, *outer),
            ),
        decreases hi - i,
    {
        let k = tokens[i].token;
        match k {
            RawToken::Error(u) => {
                return Err(Error { kind: ErrorKind::LexingError(u), span: copy_span(&tokens[i].span) });
            },
            RawToken::Bracket(Bracket(_, BracketDirection::Closing)) => {
                return Err(
                    Error {
                        kind: ErrorKind::MismatchedClosingParentheses,
                        span: copy_span(&tokens[i].span),
                    },
                );
            },
            RawToken::Bracket(Bracket(b, BracketDirection::Opening)) => {
                if limit == 0 {
                    return Err(
                        Error { kind: ErrorKind::NestingTooDeep, span: copy_span(&tokens[i].span) },
                    );
                }
                let m = match find_close(tokens, lo, hi, i + 1, b) {
                    Ok(m) => m,
                    Err(e) => {
                        return Err(e);
                    },
                };
                if m >= hi {
                    return Err(
                        match outer {
                            Some(close) => Error {
                                kind: ErrorKind::MismatchedClosingParentheses,
                                span: copy_span(close),
                            },
                            None => Error {
                                kind: ErrorKind::UnterminatedGroup,
                                span: copy_span(&tokens[i].span),
                            },
                        },
                    );
                }
                proof {
                    assert(sub.subrange(i - lo + 1, m - lo) =~= tokens@.subrange(i + 1, m as int));
                }
                let inner = match group_range(tokens, i + 1, m, limit - 1, &Some(copy_span(&tokens[m].span))) {
                    Ok(v) => v,
                    Err(e) => {
                        return Err(e);
                    },
                };
                let node = Token {
                    token: BasicToken::Bracketed(b, inner),
                    span: Range { start: tokens[i].span.start, end: tokens[m].span.start },
                };
                proof {
                    let n = Tree::Node(
                        b,
                        Range { start: tokens@[i as int].span.start, end: tokens@[m as int].span.start },
                        forest_of(inner@),
                    );
                    assert(tree_of(node) == n);
                    match group_from(sub, m - lo + 1, limit as nat, *outer) {
                        Ok(rest) => {
                            assert(res@.push(node).drop_last() =~= res@);
                            assert(forest_of(res@.push(node)) + rest =~= forest_of(res@) + (seq![n] + rest));
                        },
                        Err(e) => {},
                    }
                }
                res.push(node);
                i = m + 1;
            },
            _ => {
                let t = Token { token: leaf_token(k), span: copy_span(&tokens[i].span) };
                proof {
                    let l = Tree::Leaf(tokens@[i as int]);
                    assert(tree_of(t) == l);
                    match group_from(sub, i - lo + 1, limit as nat, *outer) {
                        Ok(rest) => {
                            assert(res@.push(t).drop_last() =~= res@);
                            assert(forest_of(res@.push(t)) + rest =~= forest_of(res@) + (seq![l] + rest));
                        },
                        Err(e) => {},
                    }
                }
                res.push(t);
                i = i + 1;
            },
        }
    }
    proof {
        assert(forest_of(res@) + seq![] =~= forest_of(res@));
    }
    Ok(res)
}

/// Groups a flat token sequence into bracketed trees.
pub fn group_parentheses(tokens: &[Token<RawToken>]) -> (r: Result<TokenStream, Error>)
    ensures
        as_spec_result(r) == group(tokens@),
{
    group_parentheses_within(tokens, tokens.len())
}

/// Groups a flat token sequence into bracketed trees nested at most
/// `max_depth` levels deep; a bracket opened deeper is `NestingTooDeep`.
pub fn group_parentheses_within(tokens: &[Token<RawToken>], max_depth: usize) -> (r: Result<
    TokenStream,
    Error,
>)
    ensures
        as_spec_result(r) == group_within(tokens@, max_depth as nat),
{
    proof {
        assert(tokens@.subrange(0, tokens@.len() as int) =~= tokens@);
    }
    group_range(tokens, 0, tokens.len(), max_depth, &None)
}

proof fn lemma_no_limit_reached(
    t: Seq<Token<RawToken>>,
    i: int,
    limit: nat,
    outer: Option<Range<usize>>,
)
    requires
        0 <= i <= t.len() <= limit,
    ensures
        group_from(t, i, limit, outer) matches Err(e) ==> e.kind != ErrorKind::NestingTooDeep,
    decreases t.len(), t.len() - i,
{
    if i < t.len() {
        match t[i].token {
            RawToken::Bracket(Bracket(b, BracketDirection::Opening)) => {
                lemma_close_of_bounds(t, i + 1, b, 1);
                match close_of(t, i + 1, b, 1) {
                    Ok(m) => {
                        if m < t.len() {
                            let sub = t.subrange(i + 1, m);
                            assert(sub.len() <= limit - 1);
                            lemma_no_limit_reached(sub, 0, (limit - 1) as nat, Some(t[m].span));
                            lemma_no_limit_reached(t, m + 1, limit, outer);
                        }
                    },
                    Err(e) => {},
                }
            },
            RawToken::Bracket(_) | RawToken::Error(_) => {},
            _ => {
                lemma_no_limit_reached(t, i + 1, limit, outer);
            },
        }
    }
}

/// Without a limit of its own, grouping never fails for depth: a sequence
/// cannot nest deeper than it is long.
pub proof fn lemma_group_never_too_deep(t: Seq<Token<RawToken>>)
    ensures
        group(t) matches Err(e) ==> e.kind != ErrorKind::NestingTooDeep,
{
    lemma_no_limit_reached(t, 0, t.len(), None);
}

pub proof fn lemma_forest_index(v: Seq<Token<BasicToken>>)
    ensures
        forest_of(v).len() == v.len(),
        forall|k: int| 0 <= k < v.len() ==> #[trigger] forest_of(v)[k] == tree_of(v[k]),
    decreases v.len(),
{
    if v.len() > 0 {
        lemma_forest_index(v.drop_last());
    }
}

} // verus!
