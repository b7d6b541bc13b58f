//! Lexical front end: a byte scanner, a bracket grouper and an expression
//! splitter, each with its result stated over spec functions.
pub mod lexer;
pub mod tokenizer;
pub mod util;

use crate::lexer::{
    forest_of, group, group_parentheses, lemma_forest_index, tree_of, BasicToken,
    TokenStream, Tree,
};
use crate::tokenizer::{scan_result, tokenize, RawToken, Terminator, Unfinished};
use crate::util::Token;
use std::ops::Range;
use vstd::prelude::*;
use vstd::string::StringSliceAdditionalSpecFns;

verus! {

#[derive(Debug, PartialEq, Eq, Structural, Clone, Copy)]
pub enum ErrorKind {
    /// A closing bracket that does not close the bracket open at its level.
    MismatchedClosingParentheses,
    /// A string, character or comment that is never closed, with its kind.
    LexingError(Unfinished),
    /// A terminator of the other kind than the first one of the sequence.
    MismatchedTerminator,
    /// An opening bracket that is never closed.
    UnterminatedGroup,
    /// An opening bracket nested deeper than the limit that grouping was given.
    NestingTooDeep,
}

/// The first error met, with the span of the token where it was found.
#[derive(Debug)]
pub struct Error {
    pub kind: ErrorKind,
    pub span: Range<usize>,
}

/// Splitting of the first `n` trees of `t`: the terminator met first, if any,
/// and the expressions so far, the last one still open.
pub open spec fn split_prefix(t: Seq<Tree>, n: int) -> Result<
    (Option<Terminator>, Seq<Seq<Tree>>),
    Error,
>
    decreases n,
{
    if n <= 0 {
        Ok((None, seq![seq![]]))
    } else {
        match split_prefix(t, n - 1) {
            Err(e) => Err(e),
            Ok((cur, ex)) => match t[n - 1] {
                Tree::Leaf(Token { token: RawToken::SpecialCharacter(x), span }) => {
                    if cur matches Some(c) && c != x {
                        Err(Error { kind: ErrorKind::MismatchedTerminator, span })
                    } else {
                        Ok((Some(x), ex.push(seq![])))
                    }
                },
                other => Ok((cur, ex.update(ex.len() - 1, ex.last().push(other)))),
            },
        }
    }
}

/// The expressions of `t` split on its top-level terminators, with the
/// terminator used (`Semicolon` when there is none).
pub open spec fn split(t: Seq<Tree>) -> Result<(Terminator, Seq<Seq<Tree>>), Error> {
    match split_prefix(t, t.len() as int) {
        Ok((c, ex)) => Ok(
            (
                match c {
                    Some(x) => x,
                    None => Terminator::Semicolon,
                },
                ex,
            ),
        ),
        Err(e) => Err(e),
    }
}

pub open spec fn exprs_view(v: Seq<TokenStream>) -> Seq<Seq<Tree>> {
    v.map_values(|e: TokenStream| forest_of(e@))
}

pub open spec fn split_result(r: Result<(Terminator, Vec<TokenStream>), Error>) -> Result<
    (Terminator, Seq<Seq<Tree>>),
    Error,
> {
    match r {
        Ok((c, ex)) => Ok((c, exprs_view(ex@))),
        Err(e) => Err(e),
    }
}

proof fn lemma_split_error_stays(t: Seq<Tree>, n: int, m: int)
    requires
        n <= m,
        split_prefix(t, n) is Err,
    ensures
        split_prefix(t, m) == split_prefix(t, n),
    decreases m - n,
{
    if n < m {
        lemma_split_error_stays(t, n, m - 1);
    }
}

/// Splits a grouped stream into expressions on its top-level terminators.
pub fn group_expressions(tokens: TokenStream) -> (r: Result<(Terminator, Vec<TokenStream>), Error>)
    ensures
        split_result(r) == split(forest_of(tokens@)),
{
    let ghost ts = forest_of(tokens@);
    proof {
        lemma_forest_index(tokens@);
    }
    let ghost orig = tokens@;
    let mut current_terminator: Option<Terminator> = None;
    let mut done: Vec<TokenStream> = Vec::new();
    let mut current: TokenStream = Vec::new();
    proof {
        assert(exprs_view(done@).push(forest_of(current@)) =~= seq![seq![]]);
    }
    for tok in it: tokens.into_iter()
        invariant
            it.seq() == orig,
            ts == forest_of(orig),
            ts.len() == orig.len(),
            forall|k: int| 0 <= k < orig.len() ==> #[trigger] ts[k] == tree_of(orig[k]),
            split_prefix(ts, it.index() as int) == Ok::<_, Error>(
                (current_terminator, exprs_view(done@).push(forest_of(current@))),
            ),
    {
        let ghost idx = it.index() as int;
        assert(tok == orig[idx]);
        let term: Option<Terminator> = match &tok.token {
            BasicToken::Terminator(x) => Some(*x),
            _ => None,
        };
        match term {
            Some(x) => {
                let mismatch = match current_terminator {
                    Some(c) => c != x,
                    None => false,
                };
                if mismatch {
                    proof {
                        lemma_split_error_stays(ts, idx + 1, ts.len() as int);
                    }
                    return Err(Error { kind: ErrorKind::MismatchedTerminator, span: tok.span });
                }
                let ghost ex = exprs_view(done@).push(forest_of(current@));
                assert(split_prefix(ts, idx + 1) == Ok::<_, Error>((Some(x), ex.push(seq![]))));
                current_terminator = Some(x);
                let mut finished: TokenStream = Vec::new();
                std::mem::swap(&mut finished, &mut current);
                let ghost old_done = done@;
                done.push(finished);
                proof {
                    assert(exprs_view(done@) =~= exprs_view(old_done).push(forest_of(finished@)));
                    assert(forest_of(current@) =~= seq![]);
                    assert(exprs_view(done@).push(forest_of(current@)) =~= ex.push(seq![]));
                }
            },
            None => {
                proof {
                    let ex = exprs_view(done@).push(forest_of(current@));
                    assert(current@.push(tok).drop_last() =~= current@);
                    assert(exprs_view(done@).push(forest_of(current@.push(tok))) =~= ex.update(
                        ex.len() - 1,
                        ex.last().push(ts[idx]),
                    ));
                }
                current.push(tok);
            },
        }
    }
    let ghost before = done@;
    done.push(current);
    proof {
        assert(exprs_view(done@) =~= exprs_view(before).push(forest_of(current@)));
    }
    Ok((
        match current_terminator {
            Some(x) => x,
            None => Terminator::Semicolon,
        },
        done,
    ))
}

/// The terminator that tree `k` of `t` is, if it is one.
pub open spec fn terminator_at(t: Seq<Tree>, k: int) -> Option<Terminator> {
    match t[k] {
        Tree::Leaf(Token { token: RawToken::SpecialCharacter(x), .. }) => Some(x),
        _ => None,
    }
}

pub open spec fn tree_span(t: Tree) -> Range<usize> {
    match t {
        Tree::Leaf(tok) => tok.span,
        Tree::Node(_, span, _) => span,
    }
}

proof fn lemma_split_before(t: Seq<Tree>, i: int, j: int, n: int)
    requires
        0 <= i < j < t.len(),
        0 <= n <= j,
        terminator_at(t, i) is Some,
        forall|k: int| 0 <= k < j && (#[trigger] terminator_at(t, k)) is Some ==> terminator_at(t, k)
            == terminator_at(t, i),
    ensures
        split_prefix(t, n) matches Ok((cur, _)) && (cur is None || cur == terminator_at(t, i)) && (n
            > i ==> cur == terminator_at(t, i)),
    decreases n,
{
    if n > 0 {
        lemma_split_before(t, i, j, n - 1);
        if terminator_at(t, n - 1) is Some {
            assert(terminator_at(t, n - 1) == terminator_at(t, i));
        }
    }
}

/// Once a sequence holds terminators of both kinds at the top level, splitting
/// fails with `MismatchedTerminator` at the first terminator whose kind differs
/// from the terminators before it: no kind is picked silently.
pub proof fn lemma_terminator_consistency(t: Seq<Tree>, i: int, j: int)
    requires
        0 <= i < j < t.len(),
        terminator_at(t, i) is Some,
        terminator_at(t, j) is Some,
        terminator_at(t, j) != terminator_at(t, i),
        forall|k: int| 0 <= k < j && (#[trigger] terminator_at(t, k)) is Some ==> terminator_at(t, k)
            == terminator_at(t, i),
    ensures
        split(t) == Err::<(Terminator, Seq<Seq<Tree>>), Error>(
            Error { kind: ErrorKind::MismatchedTerminator, span: tree_span(t[j]) },
        ),
{
    lemma_split_before(t, i, j, j);
    lemma_split_error_stays(t, j + 1, t.len() as int);
}

/// The result of scanning, grouping and splitting source bytes `s`.
pub open spec fn parse_spec(s: Seq<u8>) -> Result<(Terminator, Seq<Seq<Tree>>), Error> {
    match scan_result(s, false) {
        Err(e) => Err(e),
        Ok(t) => match group(t) {
            Ok(g) => split(g),
            Err(e) => Err(e),
        },
    }
}

/// Scans, groups and splits `source`: the terminator used and the expressions.
pub fn parse(source: &str) -> (r: Result<(Terminator, Vec<TokenStream>), Error>)
    ensures
        split_result(r) == parse_spec(source.spec_bytes()),
{
    let tokens = match tokenize(source) {
        Ok(t) => t,
        Err(e) => {
            return Err(e);
        },
    };
    let grouped = match group_parentheses(tokens.as_slice()) {
        Ok(g) => g,
        Err(e) => {
            return Err(e);
        },
    };
    group_expressions(grouped)
}

} // verus!
