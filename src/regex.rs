//! The transpiler: from pattern functions to regular-expression text.
use vstd::prelude::*;

use crate::ast::{nodes_of, node_of, Casing, Function, Node};

verus! {

/// The ASCII digit of `d`, for `d < 10`.
pub open spec fn digit_char(d: nat) -> char {
    ('0' as nat + d) as char
}

/// The decimal digits of `n`, without leading zeros.
pub open spec fn decimal_of(n: nat) -> Seq<char>
    decreases n,
{
    if n < 10 {
        seq![digit_char(n)]
    } else {
        decimal_of(n / 10).push(digit_char(n % 10))
    }
}

/// The quantifier `{n}` that a `select` gives, or nothing.
pub open spec fn quantifier(select: Option<u32>) -> Seq<char> {
    match select {
        Some(n) => "{"@ + decimal_of(n as nat) + "}"@,
        None => Seq::empty(),
    }
}

/// The class of one letter: upper case only where asked for.
pub open spec fn letter_class(casing: Option<Casing>) -> Seq<char> {
    if casing == Some(Casing::Upcase) {
        "[A-Z]"@
    } else {
        "[a-z]"@
    }
}

/// The class of a run of letters.
pub open spec fn letters_class(casing: Option<Casing>) -> Seq<char> {
    if casing == Some(Casing::Upcase) {
        "[A-Z]+"@
    } else {
        "[a-z]+"@
    }
}

/// The regular-expression text of one tree.
pub open spec fn regex_of(n: Node) -> Seq<char>
    decreases n,
{
    match n {
        Node::Letter { casing, select } => letter_class(casing) + quantifier(select),
        Node::Letters { casing } => letters_class(casing),
        Node::Glob { rest } => if rest {
            ".*"@
        } else {
            "."@
        },
        Node::Whitespace => "\\s"@,
        Node::Number { select } => "[0-9]"@ + quantifier(select),
        Node::Numbers => "[0-9]+"@,
        Node::Group(ns) => "("@ + regex_of_nodes(ns) + ")"@,
    }
}

/// The texts of the trees `ns`, one after another in order.
pub open spec fn regex_of_nodes(ns: Seq<Node>) -> Seq<char>
    decreases ns,
{
    if ns.len() == 0 {
        Seq::empty()
    } else {
        regex_of_nodes(ns.subrange(0, ns.len() - 1)) + regex_of(ns[ns.len() - 1])
    }
}

pub proof fn lemma_regex_of_push(ns: Seq<Node>, n: Node)
    ensures
        regex_of_nodes(ns.push(n)) == regex_of_nodes(ns) + regex_of(n),
{
    assert(ns.push(n).subrange(0, ns.len() as int) =~= ns);
}

pub proof fn lemma_nodes_of_prefix(fs: Seq<Function>, k: int)
    requires
        0 <= k < fs.len(),
    ensures
        nodes_of(fs.subrange(0, k + 1)) == nodes_of(fs.subrange(0, k)).push(node_of(fs[k])),
{
    assert(fs.subrange(0, k + 1).subrange(0, k) =~= fs.subrange(0, k));
}

/// The text of a sequence of trees is the texts of its parts, one after the
/// other: splitting the sequence anywhere splits the text there too.
pub proof fn lemma_regex_concat(xs: Seq<Node>, ys: Seq<Node>)
    ensures
        regex_of_nodes(xs + ys) == regex_of_nodes(xs) + regex_of_nodes(ys),
    decreases ys.len(),
{
    if ys.len() == 0 {
        assert(xs + ys =~= xs);
        assert(regex_of_nodes(xs) + regex_of_nodes(ys) =~= regex_of_nodes(xs));
    } else {
        let init = ys.subrange(0, ys.len() - 1);
        let last = ys[ys.len() - 1];
        lemma_regex_concat(xs, init);
        assert(ys =~= init.push(last));
        assert(xs + ys =~= (xs + init).push(last));
        lemma_regex_of_push(xs + init, last);
        lemma_regex_of_push(init, last);
        assert(regex_of_nodes(xs + ys) =~= regex_of_nodes(xs) + regex_of_nodes(ys));
    }
}

/// A group's text is the text of what it holds between `(` and `)`.
pub proof fn lemma_group_wraps(xs: Seq<Node>)
    ensures
        regex_of_nodes(seq![Node::Group(xs)]) == "("@ + regex_of_nodes(xs) + ")"@,
{
    lemma_regex_of_push(Seq::empty(), Node::Group(xs));
    assert(Seq::<Node>::empty().push(Node::Group(xs)) =~= seq![Node::Group(xs)]);
    assert(Seq::<char>::empty() + regex_of(Node::Group(xs)) =~= regex_of(Node::Group(xs)));
}

/// `n` inside `depth` groups, each holding only the next.
pub open spec fn nested(n: Node, depth: nat) -> Node
    decreases depth,
{
    if depth == 0 {
        n
    } else {
        Node::Group(seq![nested(n, (depth - 1) as nat)])
    }
}

/// `count` copies of `c`.
pub open spec fn repeated(c: char, count: nat) -> Seq<char> {
    Seq::new(count, |_i: int| c)
}

/// Nesting adds exactly one pair of parentheses per level.
pub proof fn lemma_nested_depth(n: Node, depth: nat)
    ensures
        regex_of(nested(n, depth)) == repeated('(', depth) + regex_of(n) + repeated(')', depth),
    decreases depth,
{
    reveal_strlit("(");
    reveal_strlit(")");
    if depth == 0 {
        assert(repeated('(', 0) + regex_of(n) + repeated(')', 0) =~= regex_of(n));
    } else {
        let inner = nested(n, (depth - 1) as nat);
        lemma_nested_depth(n, (depth - 1) as nat);
        lemma_group_wraps(seq![inner]);
        lemma_regex_of_push(Seq::empty(), inner);
        assert(Seq::<Node>::empty().push(inner) =~= seq![inner]);
        assert(regex_of_nodes(seq![inner]) =~= regex_of(inner));
        assert(regex_of(nested(n, depth)) =~= repeated('(', depth) + regex_of(n) + repeated(
            ')',
            depth,
        ));
    }
}

/// The one-digit text of `d`.
fn digit_text(d: u32) -> (r: &'static str)
    requires
        d < 10,
    ensures
        r@ == seq![digit_char(d as nat)],
{
    proof {
        reveal_strlit("0");
        reveal_strlit("1");
        reveal_strlit("2");
        reveal_strlit("3");
        reveal_strlit("4");
        reveal_strlit("5");
        reveal_strlit("6");
        reveal_strlit("7");
        reveal_strlit("8");
        reveal_strlit("9");
    }
    let r = if d == 0 {
        "0"
    } else if d == 1 {
        "1"
    } else if d == 2 {
        "2"
    } else if d == 3 {
        "3"
    } else if d == 4 {
        "4"
    } else if d == 5 {
        "5"
    } else if d == 6 {
        "6"
    } else if d == 7 {
        "7"
    } else if d == 8 {
        "8"
    } else {
        "9"
    };
    assert(r@ =~= seq![digit_char(d as nat)]);
    r
}

/// Appends the decimal digits of `n`.
fn append_decimal(acc: &mut String, n: u32)
    ensures
        final(acc)@ == old(acc)@ + decimal_of(n as nat),
    decreases n,
{
    if n < 10 {
        acc.append(digit_text(n));
    } else {
        append_decimal(acc, n / 10);
        acc.append(digit_text(n % 10));
        assert(final(acc)@ =~= old(acc)@ + decimal_of(n as nat));
    }
}

/// Appends the quantifier that `select` gives.
fn append_quantifier(acc: &mut String, select: Option<u32>)
    ensures
        final(acc)@ == old(acc)@ + quantifier(select),
{
    match select {
        Some(n) => {
            acc.append("{");
            append_decimal(acc, n);
            acc.append("}");
            assert(final(acc)@ =~= old(acc)@ + quantifier(select));
        },
        None => {
            assert(acc@ =~= old(acc)@ + quantifier(select));
        },
    }
}

/// Appends the text of each function, in order.
fn append_regex(acc: &mut String, functions: &Vec<Function>)
    ensures
        final(acc)@ == old(acc)@ + regex_of_nodes(nodes_of(functions@)),
    decreases functions@,
{
    let n = functions.len();
    let mut k: usize = 0;
    while k < n
        invariant
            n == functions@.len(),
            k <= n,
            acc@ == old(acc)@ + regex_of_nodes(nodes_of(functions@.subrange(0, k as int))),
        decreases n - k,
    {
        let ghost start = acc@;
        let f = &functions[k];
        match f {
            Function::Letter { casing, select } => {
                match casing {
                    Some(Casing::Upcase) => acc.append("[A-Z]"),
                    _ => acc.append("[a-z]"),
                }
                append_quantifier(acc, *select);
            },
            Function::Letters { casing } => {
                match casing {
                    Some(Casing::Upcase) => acc.append("[A-Z]+"),
                    _ => acc.append("[a-z]+"),
                }
            },
            Function::Glob { rest } => {
                if *rest {
                    acc.append(".*");
                } else {
                    acc.append(".");
                }
            },
            Function::Whitespace => {
                acc.append("\\s");
            },
            Function::Number { select } => {
                acc.append("[0-9]");
                append_quantifier(acc, *select);
            },
            Function::Numbers => {
                acc.append("[0-9]+");
            },
            Function::Group(inner) => {
                assert(decreases_to!(functions@ => functions@[k as int]));
                acc.append("(");
                append_regex(acc, inner);
                acc.append(")");
            },
        }
        proof {
            assert(acc@ =~= start + regex_of(node_of(functions@[k as int])));
            lemma_nodes_of_prefix(functions@, k as int);
            lemma_regex_of_push(
                nodes_of(functions@.subrange(0, k as int)),
                node_of(functions@[k as int]),
            );
        }
        k = k + 1;
    }
    assert(functions@.subrange(0, n as int) =~= functions@);
}

/// The regular-expression text of `functions`: the text of each, in order,
/// with a group's text between `(` and `)`.
pub fn transpile(functions: Vec<Function>) -> (r: String)
    ensures
        r@ == regex_of_nodes(nodes_of(functions@)),
{
    let mut acc = String::new();
    append_regex(&mut acc, &functions);
    assert(acc@ =~= regex_of_nodes(nodes_of(functions@)));
    acc
}

} // verus!
