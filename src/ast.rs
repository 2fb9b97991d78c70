//! The parser: from tokens to pattern functions.
use vstd::prelude::*;

use crate::error::{lemma_prepend_ok_twice, prepend_ok, Error, ErrorView};
use crate::tokens::{lemma_token_views_push, token_views, word_is, Token, TokenView};

verus! {

/// Which letters a letter primitive matches.
#[derive(Debug, PartialEq, Eq, Clone, Copy)]
pub enum Casing {
    Upcase,
    Downcase,
}

/// One pattern function of the syntax tree.
#[derive(Debug, PartialEq, Eq)]
pub enum Function {
    Letter { casing: Option<Casing>, select: Option<u32> },
    Letters { casing: Option<Casing> },
    Glob { rest: bool },
    Whitespace,
    Number { select: Option<u32> },
    Numbers,
    Group(Box<Vec<Function>>),
}

/// The mathematical value of a [`Function`]: a tree whose groups hold
/// sequences.
pub enum Node {
    Letter { casing: Option<Casing>, select: Option<u32> },
    Letters { casing: Option<Casing> },
    Glob { rest: bool },
    Whitespace,
    Number { select: Option<u32> },
    Numbers,
    Group(Seq<Node>),
}

/// The tree that a function stands for.
pub open spec fn node_of(f: Function) -> Node
    decreases f,
{
    match f {
        Function::Letter { casing, select } => Node::Letter { casing, select },
        Function::Letters { casing } => Node::Letters { casing },
        Function::Glob { rest } => Node::Glob { rest },
        Function::Whitespace => Node::Whitespace,
        Function::Number { select } => Node::Number { select },
        Function::Numbers => Node::Numbers,
        Function::Group(fs) => Node::Group(nodes_of(fs@)),
    }
}

/// The trees that a sequence of functions stands for, in order.
pub open spec fn nodes_of(fs: Seq<Function>) -> Seq<Node>
    decreases fs,
{
    if fs.len() == 0 {
        Seq::empty()
    } else {
        nodes_of(fs.subrange(0, fs.len() - 1)).push(node_of(fs[fs.len() - 1]))
    }
}

impl View for Function {
    type V = Node;

    open spec fn view(&self) -> Node {
        node_of(*self)
    }
}

/// The view of what [`parse`] returns.
pub open spec fn functions_result(r: Result<Vec<Function>, Error>) -> Result<Seq<Node>, ErrorView> {
    match r {
        Ok(v) => Ok(nodes_of(v@)),
        Err(e) => Err(e@),
    }
}

pub proof fn lemma_nodes_of_push(fs: Seq<Function>, f: Function)
    ensures
        nodes_of(fs.push(f)) == nodes_of(fs).push(node_of(f)),
{
    assert(fs.push(f).subrange(0, fs.len() as int) =~= fs);
}

/// The first `)` at or after position `k`, or -1.
pub open spec fn find_close(t: Seq<TokenView>, k: int) -> int
    decreases t.len() - k,
{
    if k < 0 || k >= t.len() {
        -1
    } else if t[k] is RightParen {
        k
    } else {
        find_close(t, k + 1)
    }
}

/// The `)` that brings the nesting depth, `depth` at position `k`, down to
/// zero, or -1.
pub open spec fn find_group_close(t: Seq<TokenView>, k: int, depth: nat) -> int
    decreases t.len() - k,
{
    if k < 0 || k >= t.len() {
        -1
    } else if t[k] is LeftParen {
        find_group_close(t, k + 1, depth + 1)
    } else if t[k] is RightParen {
        if depth <= 1 {
            k
        } else {
            find_group_close(t, k + 1, (depth - 1) as nat)
        }
    } else {
        find_group_close(t, k + 1, depth)
    }
}

pub proof fn lemma_find_close(t: Seq<TokenView>, k: int)
    requires
        0 <= k,
    ensures
        find_close(t, k) == -1 || (k <= find_close(t, k) < t.len() && t[find_close(t, k)] is RightParen),
    decreases t.len() - k,
{
    if k < t.len() && !(t[k] is RightParen) {
        lemma_find_close(t, k + 1);
    }
}

pub proof fn lemma_find_group_close(t: Seq<TokenView>, k: int, depth: nat)
    requires
        0 <= k,
    ensures
        find_group_close(t, k, depth) == -1 || k <= find_group_close(t, k, depth) < t.len(),
    decreases t.len() - k,
{
    if k < t.len() {
        if t[k] is LeftParen {
            lemma_find_group_close(t, k + 1, depth + 1);
        } else if t[k] is RightParen {
            if depth > 1 {
                lemma_find_group_close(t, k + 1, (depth - 1) as nat);
            }
        } else {
            lemma_find_group_close(t, k + 1, depth);
        }
    }
}

/// Two positions past `i`, or the end of `t` where that lies beyond it.
pub open spec fn skip_two(t: Seq<TokenView>, i: int) -> int {
    if i + 2 <= t.len() {
        i + 2
    } else {
        t.len() as int
    }
}

/// Whether the primitive at `i` has a parameter list: `(` follows it.
pub open spec fn opens_params(t: Seq<TokenView>, i: int) -> bool {
    i + 1 < t.len() && t[i + 1] is LeftParen
}

/// The `)` that ends the parameter list of the primitive at `i`: the first
/// one after its `(`; -1 where it has no list or the list is never closed.
pub open spec fn param_close(t: Seq<TokenView>, i: int) -> int {
    if opens_params(t, i) {
        find_close(t, i + 1)
    } else {
        -1
    }
}

/// The parameter span of the primitive at `i`: its own parameter list, from
/// `(` up to and including the `)` that ends it; empty where it has none or
/// the list is never closed.
pub open spec fn param_span(t: Seq<TokenView>, i: int) -> Seq<TokenView> {
    let c = param_close(t, i);
    if c >= 0 {
        t.subrange(i + 1, c + 1)
    } else {
        Seq::empty()
    }
}

/// Where the scan resumes after the primitive at `i` and its parameter list:
/// just after the primitive where it has none.
pub open spec fn param_next(t: Seq<TokenView>, i: int) -> int {
    let c = param_close(t, i);
    if c >= 0 {
        c + 1
    } else if opens_params(t, i) {
        skip_two(t, i)
    } else {
        i + 1
    }
}

/// The `)` that closes the group at `i`, or -1 where `(` does not follow it
/// or is never closed.
pub open spec fn group_close(t: Seq<TokenView>, i: int) -> int {
    if i + 1 < t.len() && t[i + 1] is LeftParen {
        find_group_close(t, i + 2, 1)
    } else {
        -1
    }
}

/// The tokens between the parentheses of the group at `i`.
pub open spec fn group_body(t: Seq<TokenView>, i: int) -> Seq<TokenView> {
    let c = group_close(t, i);
    if c >= 0 {
        t.subrange(i + 2, c)
    } else {
        Seq::empty()
    }
}

/// Where the scan resumes after the group at `i`.
pub open spec fn group_next(t: Seq<TokenView>, i: int) -> int {
    let c = group_close(t, i);
    if c >= 0 {
        c + 1
    } else {
        skip_two(t, i)
    }
}

/// Whether `key=value` stands somewhere in `span`.
pub open spec fn has_setting(span: Seq<TokenView>, key: Seq<char>, value: TokenView) -> bool {
    exists|k: int| setting_at(span, k, key, value)
}

/// Whether `key=value` stands in `span` at position `k`.
pub open spec fn setting_at(span: Seq<TokenView>, k: int, key: Seq<char>, value: TokenView) -> bool {
    0 <= k && k + 2 < span.len() && span[k] == TokenView::Parameter(key) && span[k + 1]
        == TokenView::Equal && span[k + 2] == value
}

/// The casing that `key=True` or `key=False` in `span` selects; none where
/// both or neither stand there.
pub open spec fn casing_setting(span: Seq<TokenView>, key: Seq<char>) -> Option<Casing> {
    let up = has_setting(span, key, TokenView::True);
    let down = has_setting(span, key, TokenView::False);
    if up && !down {
        Some(Casing::Upcase)
    } else if down && !up {
        Some(Casing::Downcase)
    } else {
        None
    }
}

/// The integer of the first `key=n` in `span` at or after position `k`.
pub open spec fn int_setting(span: Seq<TokenView>, key: Seq<char>, k: int) -> Option<u32>
    decreases span.len() - k,
{
    if k < 0 || k + 2 >= span.len() {
        None
    } else if span[k] == TokenView::Parameter(key) && span[k + 1] == TokenView::Equal
        && span[k + 2] is Int {
        match span[k + 2] {
            TokenView::Int(n) => Some(n),
            _ => None,
        }
    } else {
        int_setting(span, key, k + 1)
    }
}

/// The glob that a parameter span gives: only `(rest=True)` and
/// `(rest=False)` give one.
pub open spec fn glob_node(span: Seq<TokenView>) -> Option<Node> {
    if span.len() == 5 && span[0] == TokenView::LeftParen && span[1] == TokenView::Parameter(
        "rest"@,
    ) && span[2] == TokenView::Equal && span[4] == TokenView::RightParen {
        if span[3] == TokenView::True {
            Some(Node::Glob { rest: true })
        } else if span[3] == TokenView::False {
            Some(Node::Glob { rest: false })
        } else {
            None
        }
    } else {
        None
    }
}

/// What the primitive `name` at `i` (not a group) gives, and where the scan
/// resumes; `None` where `name` is no such primitive.
pub open spec fn flat_step(t: Seq<TokenView>, i: int, name: Seq<char>) -> Option<(Seq<Node>, int)> {
    let span = param_span(t, i);
    let next = param_next(t, i);
    if name == "letter"@ {
        Some(
            (
                seq![
                    Node::Letter {
                        casing: casing_setting(span, "upcase"@),
                        select: int_setting(span, "select"@, 0),
                    },
                ],
                next,
            ),
        )
    } else if name == "letters"@ {
        Some((seq![Node::Letters { casing: casing_setting(span, "upcase"@) }], next))
    } else if name == "number"@ {
        Some((seq![Node::Number { select: int_setting(span, "select"@, 0) }], next))
    } else if name == "numbers"@ {
        Some((seq![Node::Numbers], i + 1))
    } else if name == "glob"@ {
        match glob_node(span) {
            Some(g) => Some((seq![g], next)),
            None => Some((Seq::empty(), next)),
        }
    } else if name == "whitespace"@ {
        Some((seq![Node::Whitespace], i + 1))
    } else {
        None
    }
}

pub proof fn lemma_steps_advance(t: Seq<TokenView>, i: int)
    requires
        0 <= i < t.len(),
    ensures
        i < param_next(t, i) <= t.len(),
        i < group_next(t, i) <= t.len(),
        group_body(t, i).len() < t.len(),
{
    lemma_find_close(t, i + 1);
    if i + 1 < t.len() && t[i + 1] is LeftParen {
        lemma_find_group_close(t, i + 2, 1);
    }
}

/// The functions that `t` holds from position `i` on.
pub open spec fn parse_from(t: Seq<TokenView>, i: int) -> Result<Seq<Node>, ErrorView>
    decreases t.len(), t.len() - i,
{
    if i < 0 || i >= t.len() {
        Ok(Seq::empty())
    } else {
        proof {
            lemma_steps_advance(t, i);
        }
        match t[i] {
            TokenView::Identifier(name) => {
                if name == "group"@ {
                    match parse_from(group_body(t, i), 0) {
                        Ok(inner) => prepend_ok(
                            seq![Node::Group(inner)],
                            parse_from(t, group_next(t, i)),
                        ),
                        Err(e) => Err(e),
                    }
                } else {
                    match flat_step(t, i, name) {
                        Some((nodes, next)) => if i < next <= t.len() {
                            prepend_ok(nodes, parse_from(t, next))
                        } else {
                            Ok(nodes)
                        },
                        None => Err(ErrorView::UnknownPrimitive(name)),
                    }
                }
            },
            _ => parse_from(t, i + 1),
        }
    }
}

/// An identifier that names no primitive fails the parse where it stands;
/// it is never skipped.
pub proof fn lemma_unknown_identifier(before: Seq<Node>, t: Seq<TokenView>, i: int, name: Seq<char>)
    requires
        0 <= i < t.len(),
        t[i] == TokenView::Identifier(name),
        name != "group"@,
        name != "letter"@,
        name != "letters"@,
        name != "number"@,
        name != "numbers"@,
        name != "glob"@,
        name != "whitespace"@,
    ensures
        prepend_ok(before, parse_from(t, i)) == Err::<Seq<Node>, ErrorView>(
            ErrorView::UnknownPrimitive(name),
        ),
{
}

pub proof fn lemma_find_close_shift(x: Seq<TokenView>, y: Seq<TokenView>, k: int)
    requires
        0 <= k,
    ensures
        find_close(x + y, x.len() + k) == if find_close(y, k) >= 0 {
            x.len() + find_close(y, k)
        } else {
            -1
        },
    decreases y.len() - k,
{
    if k < y.len() {
        assert((x + y)[x.len() + k] == y[k]);
        lemma_find_close_shift(x, y, k + 1);
    }
}

pub proof fn lemma_find_group_close_shift(x: Seq<TokenView>, y: Seq<TokenView>, k: int, depth: nat)
    requires
        0 <= k,
    ensures
        find_group_close(x + y, x.len() + k, depth) == if find_group_close(y, k, depth) >= 0 {
            x.len() + find_group_close(y, k, depth)
        } else {
            -1
        },
    decreases y.len() - k,
{
    if k < y.len() {
        assert((x + y)[x.len() + k] == y[k]);
        lemma_find_group_close_shift(x, y, k + 1, depth + 1);
        if depth > 1 {
            lemma_find_group_close_shift(x, y, k + 1, (depth - 1) as nat);
        }
        lemma_find_group_close_shift(x, y, k + 1, depth);
    }
}

/// Parsing does not look back: what follows position `x.len() + j` of
/// `x + y` parses as what follows position `j` of `y`.
pub proof fn lemma_parse_shift(x: Seq<TokenView>, y: Seq<TokenView>, j: int)
    requires
        0 <= j <= y.len(),
    ensures
        parse_from(x + y, x.len() + j) == parse_from(y, j),
    decreases y.len() - j,
{
    let t = x + y;
    let i = x.len() + j;
    if j < y.len() {
        assert(t[i] == y[j]);
        lemma_steps_advance(y, j);
        lemma_find_close_shift(x, y, j + 1);
        lemma_find_group_close_shift(x, y, j + 2, 1);
        lemma_find_close(y, j + 1);
        lemma_find_group_close(y, j + 2, 1);
        if i + 1 < t.len() {
            assert(t[i + 1] == y[j + 1]);
        }
        assert(param_span(t, i) =~= param_span(y, j));
        assert(param_next(t, i) == x.len() + param_next(y, j));
        assert(group_body(t, i) =~= group_body(y, j));
        assert(group_next(t, i) == x.len() + group_next(y, j));
        match y[j] {
            TokenView::Identifier(name) => {
                if name == "group"@ {
                    lemma_parse_shift(x, y, group_next(y, j));
                } else {
                    match flat_step(y, j, name) {
                        Some((nodes, next)) => {
                            if j < next <= y.len() {
                                lemma_parse_shift(x, y, next);
                            }
                        },
                        None => {},
                    }
                }
            },
            _ => {
                lemma_parse_shift(x, y, j + 1);
            },
        }
    }
}

/// The name of the primitive that `p` starts with.
pub open spec fn head_name(p: Seq<TokenView>) -> Seq<char> {
    match p[0] {
        TokenView::Identifier(name) => name,
        _ => Seq::empty(),
    }
}

/// A parenthesised parameter list after the identifier, whose only `)` is
/// the last token.
pub open spec fn closed_params(p: Seq<TokenView>) -> bool {
    &&& p.len() >= 2
    &&& p[1] is LeftParen
    &&& p[p.len() - 1] is RightParen
    &&& forall|k: int| 1 <= k < p.len() - 1 ==> !(#[trigger] p[k] is RightParen)
}

/// A well-formed primitive that holds no other: a bare `numbers` or
/// `whitespace`; `letter`, `letters` or `number`, bare or with a parameter
/// list; or `glob` with a parameter list.
pub open spec fn simple_primitive(p: Seq<TokenView>) -> bool {
    &&& p.len() >= 1
    &&& p[0] is Identifier
    &&& {
        let name = head_name(p);
        if name == "numbers"@ || name == "whitespace"@ {
            p.len() == 1
        } else if name == "letter"@ || name == "letters"@ || name == "number"@ {
            p.len() == 1 || closed_params(p)
        } else if name == "glob"@ {
            closed_params(p)
        } else {
            false
        }
    }
}

/// What a primitive on its own parses to.
pub open spec fn primitive_nodes(p: Seq<TokenView>) -> Seq<Node> {
    match flat_step(p, 0, head_name(p)) {
        Some((nodes, _next)) => nodes,
        None => Seq::empty(),
    }
}

/// The separator ` | ` between primitives, as tokens.
pub open spec fn separator() -> Seq<TokenView> {
    seq![TokenView::Whitespace, TokenView::Pipe, TokenView::Whitespace]
}

/// The primitives `ps` with a separator between each two.
pub open spec fn joined(ps: Seq<Seq<TokenView>>) -> Seq<TokenView>
    decreases ps.len(),
{
    if ps.len() == 0 {
        Seq::empty()
    } else if ps.len() == 1 {
        ps[0]
    } else {
        ps[0] + separator() + joined(ps.drop_first())
    }
}

/// What each of the primitives `ps` parses to on its own, one after the other.
pub open spec fn all_primitive_nodes(ps: Seq<Seq<TokenView>>) -> Seq<Node>
    decreases ps.len(),
{
    if ps.len() == 0 {
        Seq::empty()
    } else {
        primitive_nodes(ps[0]) + all_primitive_nodes(ps.drop_first())
    }
}

pub proof fn lemma_primitive_close(p: Seq<TokenView>, rest: Seq<TokenView>, k: int)
    requires
        p.len() >= 2,
        p[p.len() - 1] is RightParen,
        forall|m: int| 1 <= m < p.len() - 1 ==> !(#[trigger] p[m] is RightParen),
        1 <= k < p.len(),
    ensures
        find_close(p + rest, k) == p.len() - 1,
    decreases p.len() - k,
{
    assert((p + rest)[k] == p[k]);
    if k < p.len() - 1 {
        lemma_primitive_close(p, rest, k + 1);
    }
}

proof fn lemma_words_distinct()
    ensures
        "letter"@ != "group"@,
        "letters"@ != "group"@,
        "number"@ != "group"@,
        "numbers"@ != "group"@,
        "glob"@ != "group"@,
        "whitespace"@ != "group"@,
        "numbers"@ != "letter"@,
        "numbers"@ != "letters"@,
        "numbers"@ != "number"@,
        "whitespace"@ != "letter"@,
        "whitespace"@ != "letters"@,
        "whitespace"@ != "number"@,
        "whitespace"@ != "numbers"@,
        "whitespace"@ != "glob"@,
{
    reveal_strlit("group");
    reveal_strlit("letter");
    reveal_strlit("letters");
    reveal_strlit("number");
    reveal_strlit("numbers");
    reveal_strlit("glob");
    reveal_strlit("whitespace");
    assert("group"@.len() == 5);
    assert("letter"@.len() == 6);
    assert("letters"@.len() == 7);
    assert("number"@.len() == 6);
    assert("numbers"@.len() == 7);
    assert("glob"@.len() == 4);
    assert("whitespace"@.len() == 10);
    assert("letters"@[0] != "numbers"@[0]);
}

/// A primitive followed by anything takes its own tokens, exactly, and gives
/// what it gives on its own.
pub proof fn lemma_primitive_step(p: Seq<TokenView>, rest: Seq<TokenView>)
    requires
        simple_primitive(p),
        rest.len() == 0 || !(rest[0] is LeftParen),
    ensures
        (p + rest)[0] == TokenView::Identifier(head_name(p)),
        head_name(p) != "group"@,
        flat_step(p + rest, 0, head_name(p)) == Some((primitive_nodes(p), p.len() as int)),
{
    lemma_words_distinct();
    let t = p + rest;
    let name = head_name(p);
    assert(t[0] == p[0]);
    if p.len() == 1 {
        if rest.len() > 0 {
            assert(t[1] == rest[0]);
        }
        assert(param_span(t, 0) =~= param_span(p, 0));
        assert(param_next(t, 0) == param_next(p, 0));
    } else if closed_params(p) {
        assert(t[1] == p[1]);
        lemma_primitive_close(p, rest, 1);
        lemma_primitive_close(p, Seq::empty(), 1);
        assert(p + Seq::<TokenView>::empty() =~= p);
        assert(param_span(t, 0) =~= param_span(p, 0));
        assert(param_next(t, 0) == param_next(p, 0));
    }
}

/// Primitives that hold no others, with ` | ` between them, parse to what
/// each gives on its own, in the order in which they stand.
pub proof fn lemma_primitive_list(ps: Seq<Seq<TokenView>>)
    requires
        forall|k: int| 0 <= k < ps.len() ==> simple_primitive(#[trigger] ps[k]),
    ensures
        parsed(joined(ps)) == Ok::<Seq<Node>, ErrorView>(all_primitive_nodes(ps)),
    decreases ps.len(),
{
    if ps.len() == 0 {
        return;
    }
    let p = ps[0];
    assert(simple_primitive(p));
    let rest = if ps.len() == 1 {
        Seq::empty()
    } else {
        separator() + joined(ps.drop_first())
    };
    let t = p + rest;
    assert(joined(ps) == t) by {
        if ps.len() == 1 {
            assert(p + Seq::<TokenView>::empty() =~= p);
        } else {
            assert(p + separator() + joined(ps.drop_first()) =~= t);
        }
    }
    if ps.len() > 1 {
        assert(rest[0] == TokenView::Whitespace);
    }
    lemma_primitive_step(p, rest);
    lemma_parse_shift(p, rest, 0);
    assert(parse_from(t, 0) == prepend_ok(primitive_nodes(p), parse_from(rest, 0)));
    let tail = ps.drop_first();
    assert forall|k: int| 0 <= k < tail.len() implies simple_primitive(#[trigger] tail[k]) by {
        assert(tail[k] == ps[k + 1]);
    }
    lemma_primitive_list(tail);
    if ps.len() == 1 {
        assert(all_primitive_nodes(tail) =~= Seq::<Node>::empty());
        assert(primitive_nodes(p) + Seq::<Node>::empty() =~= primitive_nodes(p));
    } else {
        let r = joined(tail);
        lemma_parse_shift(separator(), r, 0);
        assert(rest[0] == TokenView::Whitespace);
        assert(rest[1] == TokenView::Pipe);
        assert(rest[2] == TokenView::Whitespace);
        assert(parse_from(rest, 2) == parse_from(rest, 3));
        assert(parse_from(rest, 1) == parse_from(rest, 2));
        assert(parse_from(rest, 0) == parse_from(rest, 1));
        assert(separator().len() == 3);
    }
}

/// The functions that the tokens `t` describe, in source order, or the first
/// identifier that names no primitive.
pub open spec fn parsed(t: Seq<TokenView>) -> Result<Seq<Node>, ErrorView> {
    parse_from(t, 0)
}

/// A copy of a token.
fn copy_token(tok: &Token) -> (r: Token)
    ensures
        r@ == tok@,
{
    match tok {
        Token::Identifier(s) => Token::Identifier(s.clone()),
        Token::Parameter(s) => Token::Parameter(s.clone()),
        Token::Int(n) => Token::Int(*n),
        Token::LeftParen => Token::LeftParen,
        Token::RightParen => Token::RightParen,
        Token::Whitespace => Token::Whitespace,
        Token::Equal => Token::Equal,
        Token::False => Token::False,
        Token::True => Token::True,
        Token::Pipe => Token::Pipe,
    }
}

/// A copy of `tokens[lo..hi]`.
fn copy_span(tokens: &Vec<Token>, lo: usize, hi: usize) -> (r: Vec<Token>)
    requires
        lo <= hi <= tokens@.len(),
    ensures
        token_views(r@) == token_views(tokens@).subrange(lo as int, hi as int),
{
    let mut out: Vec<Token> = Vec::new();
    let mut k: usize = lo;
    while k < hi
        invariant
            lo <= k <= hi <= tokens@.len(),
            token_views(out@) =~= token_views(tokens@).subrange(lo as int, k as int),
        decreases hi - k,
    {
        let tok = copy_token(&tokens[k]);
        let ghost before = out@;
        out.push(tok);
        proof {
            lemma_token_views_push(before, tok);
        }
        k = k + 1;
    }
    out
}

/// The parameter span of the primitive at `curr_idx` (empty where `(` does
/// not follow it), and where the scan resumes after it.
fn slice_until_end_func(tokens: &Vec<Token>, curr_idx: usize) -> (r: (Vec<Token>, usize))
    requires
        curr_idx < tokens@.len(),
    ensures
        token_views(r.0@) == param_span(token_views(tokens@), curr_idx as int),
        r.1 == param_next(token_views(tokens@), curr_idx as int),
{
    let ghost t = token_views(tokens@);
    let n = tokens.len();
    if curr_idx + 1 >= n {
        return (Vec::new(), curr_idx + 1);
    }
    if let Token::LeftParen = tokens[curr_idx + 1] {
    } else {
        return (Vec::new(), curr_idx + 1);
    }
    let mut k: usize = curr_idx + 1;
    while k < n
        invariant
            n == tokens@.len(),
            t == token_views(tokens@),
            curr_idx + 1 <= k <= n,
            opens_params(t, curr_idx as int),
            find_close(t, curr_idx + 1) == find_close(t, k as int),
        decreases n - k,
    {
        if let Token::RightParen = tokens[k] {
            return (copy_span(tokens, curr_idx + 1, k + 1), k + 1);
        }
        k = k + 1;
    }
    let next = if n - curr_idx >= 2 {
        curr_idx + 2
    } else {
        n
    };
    (Vec::new(), next)
}

/// The tokens between the parentheses of the group at `curr_idx`, and where
/// the scan resumes after it. The closing parenthesis is the one that brings
/// the nesting depth back to zero.
fn slice_until_end_group(tokens: &Vec<Token>, curr_idx: usize) -> (r: (Vec<Token>, usize))
    requires
        curr_idx < tokens@.len(),
    ensures
        token_views(r.0@) == group_body(token_views(tokens@), curr_idx as int),
        r.1 == group_next(token_views(tokens@), curr_idx as int),
{
    let ghost t = token_views(tokens@);
    let n = tokens.len();
    let next = if n - curr_idx >= 2 {
        curr_idx + 2
    } else {
        n
    };
    if curr_idx + 1 >= n {
        return (Vec::new(), next);
    }
    if let Token::LeftParen = tokens[curr_idx + 1] {
    } else {
        return (Vec::new(), next);
    }
    let mut depth: usize = 1;
    let mut k: usize = curr_idx + 2;
    while k < n
        invariant
            n == tokens@.len(),
            t == token_views(tokens@),
            curr_idx + 2 <= k <= n,
            1 <= depth <= k,
            t[curr_idx + 1] is LeftParen,
            find_group_close(t, curr_idx + 2, 1) == find_group_close(t, k as int, depth as nat),
        decreases n - k,
    {
        match tokens[k] {
            Token::LeftParen => {
                depth = depth + 1;
            },
            Token::RightParen => {
                if depth <= 1 {
                    return (copy_span(tokens, curr_idx + 2, k), k + 1);
                }
                depth = depth - 1;
            },
            _ => {},
        }
        k = k + 1;
    }
    (Vec::new(), next)
}

/// Whether `tokens[k]` names the parameter `key` and `=` follows it.
fn key_at(tokens: &Vec<Token>, k: usize, key: &str) -> (r: bool)
    requires
        k + 1 < tokens@.len(),
    ensures
        r == (tokens@[k as int]@ == TokenView::Parameter(key@) && tokens@[k + 1]@
            == TokenView::Equal),
{
    let n = tokens.len();
    match &tokens[k] {
        Token::Parameter(p) => word_is(p, key) && matches!(tokens[k + 1], Token::Equal),
        _ => false,
    }
}

/// The integer of the first `parameter=n` among `tokens`.
fn find_int_parameter(tokens: &Vec<Token>, parameter: &str) -> (r: Option<u32>)
    ensures
        r == int_setting(token_views(tokens@), parameter@, 0),
{
    let ghost t = token_views(tokens@);
    let mut k: usize = 0;
    while k < tokens.len() && tokens.len() - k > 2
        invariant
            t == token_views(tokens@),
            int_setting(t, parameter@, 0) == int_setting(t, parameter@, k as int),
        decreases tokens@.len() - k,
    {
        if key_at(tokens, k, parameter) {
            if let Token::Int(n) = tokens[k + 2] {
                return Some(n);
            }
        }
        k = k + 1;
    }
    None
}

/// Whether `parameter=True` (`value`) or `parameter=False` stands among
/// `tokens`.
fn has_bool_parameter(tokens: &Vec<Token>, parameter: &str, value: bool) -> (r: bool)
    ensures
        r == has_setting(
            token_views(tokens@),
            parameter@,
            if value {
                TokenView::True
            } else {
                TokenView::False
            },
        ),
{
    let ghost t = token_views(tokens@);
    let ghost want = if value {
        TokenView::True
    } else {
        TokenView::False
    };
    let mut k: usize = 0;
    while k < tokens.len() && tokens.len() - k > 2
        invariant
            t == token_views(tokens@),
            want == if value {
                TokenView::True
            } else {
                TokenView::False
            },
            forall|m: int| 0 <= m < k ==> !#[trigger] setting_at(t, m, parameter@, want),
        decreases tokens@.len() - k,
    {
        assert(t[k as int] == tokens@[k as int]@ && t[k + 1] == tokens@[k + 1]@ && t[k + 2]
            == tokens@[k + 2]@);
        if key_at(tokens, k, parameter) {
            let found = match &tokens[k + 2] {
                Token::True => value,
                Token::False => !value,
                _ => false,
            };
            if found {
                assert(setting_at(t, k as int, parameter@, want));
                return true;
            }
        }
        k = k + 1;
    }
    false
}

/// The casing that `parameter=True` or `parameter=False` among `tokens`
/// selects: none where both or neither stand there.
fn find_casing_parameter(tokens: &Vec<Token>, parameter: &str) -> (r: Option<Casing>)
    ensures
        r == casing_setting(token_views(tokens@), parameter@),
{
    let upcase = has_bool_parameter(tokens, parameter, true);
    let downcase = has_bool_parameter(tokens, parameter, false);
    if upcase && !downcase {
        Some(Casing::Upcase)
    } else if downcase && !upcase {
        Some(Casing::Downcase)
    } else {
        None
    }
}

/// The glob that a parameter span gives, if it is `(rest=True)` or
/// `(rest=False)`.
fn glob_parameter(tokens: &Vec<Token>) -> (r: Option<Function>)
    ensures
        match r {
            Some(f) => glob_node(token_views(tokens@)) == Some(node_of(f)),
            None => glob_node(token_views(tokens@)) is None,
        },
{
    if tokens.len() != 5 {
        return None;
    }
    if !(matches!(tokens[0], Token::LeftParen) && key_at(tokens, 1, "rest") && matches!(
        tokens[4],
        Token::RightParen,
    )) {
        return None;
    }
    match tokens[3] {
        Token::True => Some(Function::Glob { rest: true }),
        Token::False => Some(Function::Glob { rest: false }),
        _ => None,
    }
}

/// The sequence of at most one tree.
pub open spec fn opt_nodes(f: Option<Function>) -> Seq<Node> {
    match f {
        Some(f) => seq![node_of(f)],
        None => Seq::empty(),
    }
}

/// The primitive `name` at `curr_idx`, other than a group: the function it
/// gives, if any, and where the scan resumes; `None` where `name` is no
/// such primitive.
fn flat_primitive(tokens: &Vec<Token>, curr_idx: usize, name: &String) -> (r: Option<
    (Option<Function>, usize),
>)
    requires
        curr_idx < tokens@.len(),
    ensures
        match r {
            Some((f, next)) => flat_step(token_views(tokens@), curr_idx as int, name@) == Some(
                (opt_nodes(f), next as int),
            ),
            None => flat_step(token_views(tokens@), curr_idx as int, name@) is None,
        },
{
    let ghost t = token_views(tokens@);
    let n = tokens.len();
    assert(curr_idx + 1 <= n);
    if word_is(name, "letter") || word_is(name, "letters") {
        let (func_tokens, next) = slice_until_end_func(tokens, curr_idx);
        let casing = find_casing_parameter(&func_tokens, "upcase");
        if word_is(name, "letter") {
            let select = find_int_parameter(&func_tokens, "select");
            let f = Function::Letter { casing, select };
            assert(opt_nodes(Some(f)) =~= seq![
                Node::Letter {
                    casing: casing_setting(param_span(t, curr_idx as int), "upcase"@),
                    select: int_setting(param_span(t, curr_idx as int), "select"@, 0),
                },
            ]);
            Some((Some(f), next))
        } else {
            let f = Function::Letters { casing };
            assert(opt_nodes(Some(f)) =~= seq![
                Node::Letters {
                    casing: casing_setting(param_span(t, curr_idx as int), "upcase"@),
                },
            ]);
            Some((Some(f), next))
        }
    } else if word_is(name, "number") {
        let (func_tokens, next) = slice_until_end_func(tokens, curr_idx);
        let select = find_int_parameter(&func_tokens, "select");
        let f = Function::Number { select };
        assert(opt_nodes(Some(f)) =~= seq![
            Node::Number { select: int_setting(param_span(t, curr_idx as int), "select"@, 0) },
        ]);
        Some((Some(f), next))
    } else if word_is(name, "numbers") {
        assert(opt_nodes(Some(Function::Numbers)) =~= seq![Node::Numbers]);
        Some((Some(Function::Numbers), curr_idx + 1))
    } else if word_is(name, "glob") {
        let (func_tokens, next) = slice_until_end_func(tokens, curr_idx);
        let g = glob_parameter(&func_tokens);
        Some((g, next))
    } else if word_is(name, "whitespace") {
        assert(opt_nodes(Some(Function::Whitespace)) =~= seq![Node::Whitespace]);
        Some((Some(Function::Whitespace), curr_idx + 1))
    } else {
        None
    }
}

/// Turns tokens into pattern functions, in source order.
///
/// Tokens other than identifiers are skipped. An identifier names a
/// primitive: `letter`, `letters`, `number` and `glob` read the parameters up
/// to the next `)`; `numbers` and `whitespace` take none; `group` parses what
/// stands between its parentheses, nesting included. Any other identifier
/// fails the whole parse with [`Error::UnknownPrimitive`].
pub fn parse(tokens: Vec<Token>) -> (r: Result<Vec<Function>, Error>)
    ensures
        functions_result(r) == parsed(token_views(tokens@)),
    decreases tokens@.len(),
{
    let ghost t = token_views(tokens@);
    let n = tokens.len();
    let mut functions: Vec<Function> = Vec::new();
    let mut i: usize = 0;
    while i < n
        invariant
            n == tokens@.len(),
            t == token_views(tokens@),
            i <= n,
            parsed(t) == prepend_ok(nodes_of(functions@), parse_from(t, i as int)),
        decreases n - i,
    {
        let ghost before = functions@;
        proof {
            lemma_steps_advance(t, i as int);
        }
        assert(t[i as int] == tokens@[i as int]@);
        match &tokens[i] {
            Token::Identifier(identifier) => {
                if word_is(identifier, "group") {
                    let (group_tokens, next) = slice_until_end_group(&tokens, i);
                    let inner = match parse(group_tokens) {
                        Ok(v) => v,
                        Err(e) => {
                            return Err(e);
                        },
                    };
                    let f = Function::Group(Box::new(inner));
                    let ghost node = f@;
                    functions.push(f);
                    proof {
                        lemma_nodes_of_push(before, functions@.last());
                        lemma_prepend_ok_twice(
                            nodes_of(before),
                            seq![node],
                            parse_from(t, next as int),
                        );
                        assert(nodes_of(before) + seq![node] =~= nodes_of(functions@));
                    }
                    i = next;
                } else {
                    match flat_primitive(&tokens, i, identifier) {
                        Some((f, next)) => {
                            match f {
                                Some(f) => {
                                    let ghost node = f@;
                                    functions.push(f);
                                    proof {
                                        lemma_nodes_of_push(before, functions@.last());
                                        assert(nodes_of(before) + seq![node] =~= nodes_of(
                                            functions@,
                                        ));
                                    }
                                },
                                None => {
                                    assert(nodes_of(before) + Seq::empty() =~= nodes_of(
                                        functions@,
                                    ));
                                },
                            }
                            proof {
                                lemma_prepend_ok_twice(
                                    nodes_of(before),
                                    opt_nodes(f),
                                    parse_from(t, next as int),
                                );
                            }
                            i = next;
                        },
                        None => {
                            return Err(Error::UnknownPrimitive(identifier.clone()));
                        },
                    }
                }
            },
            _ => {
                i = i + 1;
            },
        }
    }
    assert(nodes_of(functions@) + Seq::empty() =~= nodes_of(functions@));
    Ok(functions)
}

} // verus!
