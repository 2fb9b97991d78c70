//! Compiles a small pattern-description language into a regular expression.
//!
//! The pipeline has three stages: [`tokens::tokenize`] turns the text into
//! tokens, [`ast::parse`] turns the tokens into pattern functions, and
//! [`regex::transpile`] folds those into the regular-expression text.
use vstd::prelude::*;

pub mod ast;
pub mod error;
pub mod regex;
pub mod tokens;

use crate::ast::{
    all_primitive_nodes, joined, lemma_primitive_list, parsed, primitive_nodes, simple_primitive,
};
use crate::error::{Error, ErrorView};
use crate::regex::{lemma_regex_concat, regex_of_nodes};
use crate::tokens::{disallowed, lemma_lex_stops_at, lemma_lex_succeeds_from, lex, TokenView};

verus! {

/// The regular expression that the text `s` describes, or why it describes
/// none: the tokenizer's error first, then the parser's.
pub open spec fn compiled(s: Seq<char>) -> Result<Seq<char>, ErrorView> {
    match lex(s) {
        Err(e) => Err(e),
        Ok(t) => match parsed(t) {
            Err(e) => Err(e),
            Ok(ns) => Ok(regex_of_nodes(ns)),
        },
    }
}

/// Compiles a pattern description into regular-expression text: tokenize,
/// parse, then transpile. A character that starts no token, or an identifier
/// that names no primitive, fails the whole compilation.
pub fn parse(input: String) -> (r: Result<String, Error>)
    ensures
        match r {
            Ok(x) => compiled(input@) == Ok::<Seq<char>, ErrorView>(x@),
            Err(e) => compiled(input@) == Err::<Seq<char>, ErrorView>(e@),
        },
{
    let tokens = match tokens::tokenize(input) {
        Ok(t) => t,
        Err(e) => {
            return Err(e);
        },
    };
    let functions = match ast::parse(tokens) {
        Ok(f) => f,
        Err(e) => {
            return Err(e);
        },
    };
    Ok(regex::transpile(functions))
}

/// The expression of each primitive on its own, one after the other.
pub open spec fn all_primitive_regex(ps: Seq<Seq<TokenView>>) -> Seq<char>
    decreases ps.len(),
{
    if ps.len() == 0 {
        Seq::empty()
    } else {
        regex_of_nodes(primitive_nodes(ps[0])) + all_primitive_regex(ps.drop_first())
    }
}

pub proof fn lemma_all_primitive_regex(ps: Seq<Seq<TokenView>>)
    ensures
        regex_of_nodes(all_primitive_nodes(ps)) == all_primitive_regex(ps),
    decreases ps.len(),
{
    if ps.len() > 0 {
        lemma_all_primitive_regex(ps.drop_first());
        lemma_regex_concat(primitive_nodes(ps[0]), all_primitive_nodes(ps.drop_first()));
    }
}

/// A text whose tokens are primitives that hold no others, with ` | `
/// between them, compiles to the expression of each primitive on its own,
/// in the order in which they stand.
pub proof fn lemma_primitive_list_compiles(s: Seq<char>, ps: Seq<Seq<TokenView>>)
    requires
        forall|k: int| 0 <= k < ps.len() ==> simple_primitive(#[trigger] ps[k]),
        lex(s) == Ok::<Seq<TokenView>, ErrorView>(joined(ps)),
    ensures
        compiled(s) == Ok::<Seq<char>, ErrorView>(all_primitive_regex(ps)),
{
    lemma_primitive_list(ps);
    lemma_all_primitive_regex(ps);
}

/// A text with a character that starts no token fails to compile with that
/// character, the first such one, before anything is parsed.
pub proof fn lemma_invalid_character(s: Seq<char>, k: int)
    requires
        0 <= k < s.len(),
        disallowed(s[k]),
        forall|j: int| 0 <= j < k ==> !disallowed(#[trigger] s[j]),
    ensures
        lex(s) == Err::<Seq<TokenView>, ErrorView>(ErrorView::InvalidToken(s[k])),
        compiled(s) == Err::<Seq<char>, ErrorView>(ErrorView::InvalidToken(s[k])),
{
    lemma_lex_stops_at(s, 0, k);
}

proof fn lemma_first_disallowed(s: Seq<char>, k: int) -> (m: int)
    requires
        0 <= k < s.len(),
        disallowed(s[k]),
    ensures
        0 <= m <= k,
        disallowed(s[m]),
        forall|j: int| 0 <= j < m ==> !disallowed(#[trigger] s[j]),
    decreases k,
{
    if exists|j: int| 0 <= j < k && disallowed(#[trigger] s[j]) {
        let j = choose|j: int| 0 <= j < k && disallowed(#[trigger] s[j]);
        lemma_first_disallowed(s, j)
    } else {
        k
    }
}

/// Tokenizing fails exactly on a text that holds a character that starts no
/// token, and then with the first such character.
pub proof fn lemma_tokenize_fails_iff(s: Seq<char>)
    ensures
        lex(s) is Err <==> exists|k: int| 0 <= k < s.len() && disallowed(#[trigger] s[k]),
        lex(s) is Err ==> exists|k: int|
            0 <= k < s.len() && disallowed(#[trigger] s[k]) && lex(s) == Err::<
                Seq<TokenView>,
                ErrorView,
            >(ErrorView::InvalidToken(s[k])) && (forall|j: int|
                0 <= j < k ==> !disallowed(#[trigger] s[j])),
{
    if exists|k: int| 0 <= k < s.len() && disallowed(#[trigger] s[k]) {
        let k = choose|k: int| 0 <= k < s.len() && disallowed(#[trigger] s[k]);
        let m = lemma_first_disallowed(s, k);
        lemma_lex_stops_at(s, 0, m);
    } else {
        lemma_lex_succeeds_from(s, 0);
    }
}

/// Compiling is a function of the text alone: the same text always gives the
/// same result.
pub proof fn lemma_compile_deterministic(s1: Seq<char>, s2: Seq<char>)
    requires
        s1 == s2,
    ensures
        compiled(s1) == compiled(s2),
{
}

} // verus!
