//! The tokenizer: one left-to-right scan of the input text.
use vstd::prelude::*;

use crate::error::{lemma_prepend_ok_twice, prepend_ok, Error, ErrorView};

verus! {

/// One lexical unit of the pattern language.
#[derive(Debug, PartialEq, Eq, Clone)]
pub enum Token {
    /// A word that is not directly followed by `=`.
    Identifier(String),
    /// A word directly followed by `=`.
    Parameter(String),
    /// A run of decimal digits.
    Int(u32),
    LeftParen,
    RightParen,
    Whitespace,
    Equal,
    False,
    True,
    Pipe,
}

/// The mathematical value of a [`Token`].
pub enum TokenView {
    Identifier(Seq<char>),
    Parameter(Seq<char>),
    Int(u32),
    LeftParen,
    RightParen,
    Whitespace,
    Equal,
    False,
    True,
    Pipe,
}

impl View for Token {
    type V = TokenView;

    open spec fn view(&self) -> TokenView {
        match self {
            Token::Identifier(s) => TokenView::Identifier(s@),
            Token::Parameter(s) => TokenView::Parameter(s@),
            Token::Int(n) => TokenView::Int(*n),
            Token::LeftParen => TokenView::LeftParen,
            Token::RightParen => TokenView::RightParen,
            Token::Whitespace => TokenView::Whitespace,
            Token::Equal => TokenView::Equal,
            Token::False => TokenView::False,
            Token::True => TokenView::True,
            Token::Pipe => TokenView::Pipe,
        }
    }
}

/// The views of a sequence of tokens.
pub open spec fn token_views(v: Seq<Token>) -> Seq<TokenView> {
    v.map_values(|t: Token| t@)
}

pub proof fn lemma_token_views_push(v: Seq<Token>, t: Token)
    ensures
        token_views(v.push(t)) == token_views(v).push(t@),
{
    assert(token_views(v.push(t)) =~= token_views(v).push(t@));
}

/// The view of what [`tokenize`] returns.
pub open spec fn tokens_result(r: Result<Vec<Token>, Error>) -> Result<Seq<TokenView>, ErrorView> {
    match r {
        Ok(v) => Ok(token_views(v@)),
        Err(e) => Err(e@),
    }
}

/// Whether a character has Unicode's Alphabetic property.
pub uninterp spec fn alphabetic(c: char) -> bool;

/// Whether a character is alphabetic or numeric in Unicode's sense.
pub uninterp spec fn alphanumeric(c: char) -> bool;

/// An ASCII letter.
pub open spec fn is_ascii_letter(c: char) -> bool {
    ('a' <= c && c <= 'z') || ('A' <= c && c <= 'Z')
}

/// A character that starts or continues a word: among ASCII characters
/// exactly the letters.
pub open spec fn letter_char(c: char) -> bool {
    if (c as u32) < 128 {
        is_ascii_letter(c)
    } else {
        alphabetic(c)
    }
}

/// A character that continues a number run: among ASCII characters exactly
/// the letters and digits; every word character is one.
pub open spec fn word_char(c: char) -> bool {
    if (c as u32) < 128 {
        is_ascii_letter(c) || is_digit(c)
    } else {
        alphabetic(c) || alphanumeric(c)
    }
}

/// Relies on `char::is_alphabetic`: whether `c` has the Alphabetic property,
/// which depends on the character alone; among ASCII characters only the
/// letters have it.
#[verifier::external_body]
fn is_alphabetic(c: char) -> (r: bool)
    ensures
        r == letter_char(c),
{
    c.is_alphabetic()
}

/// Relies on `char::is_alphanumeric`: whether `c` is alphabetic or numeric,
/// which depends on the character alone; among ASCII characters exactly the
/// letters and digits are, and every alphabetic character is.
#[verifier::external_body]
fn is_alphanumeric(c: char) -> (r: bool)
    ensures
        r == word_char(c),
        (c as u32) >= 128 ==> r == alphanumeric(c),
        alphabetic(c) ==> r,
{
    c.is_alphanumeric()
}

/// An ASCII decimal digit.
pub open spec fn is_digit(c: char) -> bool {
    '0' <= c && c <= '9'
}

/// The number that a string of decimal digits spells.
pub open spec fn digits_value(s: Seq<char>) -> nat
    decreases s.len(),
{
    if s.len() == 0 {
        0
    } else {
        digits_value(s.drop_last()) * 10 + ((s.last() as int - '0' as int) as nat)
    }
}

/// The `u32` that a run of characters spells in decimal, if it is a non-empty
/// run of ASCII digits whose value fits.
pub open spec fn decimal_value(s: Seq<char>) -> Option<u32> {
    if s.len() > 0 && (forall|k: int| 0 <= k < s.len() ==> is_digit(#[trigger] s[k]))
        && digits_value(s) <= u32::MAX {
        Some(digits_value(s) as u32)
    } else {
        None
    }
}

proof fn lemma_digits_value_grows(s: Seq<char>, k: int)
    requires
        0 <= k <= s.len(),
        forall|m: int| 0 <= m < s.len() ==> is_digit(#[trigger] s[m]),
    ensures
        digits_value(s.subrange(0, k)) <= digits_value(s),
    decreases s.len() - k,
{
    if k < s.len() {
        lemma_digits_value_grows(s, k + 1);
        let p = s.subrange(0, k + 1);
        assert(p.drop_last() =~= s.subrange(0, k));
        assert(is_digit(s[k]));
    } else {
        assert(s.subrange(0, k) =~= s);
    }
}

/// Reads `chars[lo..hi]` as a decimal number.
fn read_decimal(chars: &Vec<char>, lo: usize, hi: usize) -> (r: Option<u32>)
    requires
        lo <= hi <= chars@.len(),
    ensures
        r == decimal_value(chars@.subrange(lo as int, hi as int)),
{
    let ghost s = chars@.subrange(lo as int, hi as int);
    if lo == hi {
        return None;
    }
    let mut value: u32 = 0;
    let mut i: usize = lo;
    while i < hi
        invariant
            lo <= i <= hi <= chars@.len(),
            s == chars@.subrange(lo as int, hi as int),
            forall|m: int| 0 <= m < i - lo ==> is_digit(#[trigger] s[m]),
            value as nat == digits_value(s.subrange(0, i - lo)),
        decreases hi - i,
    {
        let c = chars[i];
        if !('0' <= c && c <= '9') {
            assert(!is_digit(s[i - lo]));
            return None;
        }
        let d: u32 = (c as u32) - ('0' as u32);
        proof {
            let p = s.subrange(0, i - lo + 1);
            assert(p.drop_last() =~= s.subrange(0, i - lo));
            assert(p.last() == c);
        }
        if value > (u32::MAX - d) / 10 {
            proof {
                assert(value as int * 10 + d as int > u32::MAX) by (nonlinear_arith)
                    requires
                        value as int > (u32::MAX as int - d as int) / 10,
                        d <= 9,
                ;
                if forall|m: int| 0 <= m < s.len() ==> is_digit(#[trigger] s[m]) {
                    lemma_digits_value_grows(s, i - lo + 1);
                }
            }
            return None;
        }
        value = value * 10 + d;
        i = i + 1;
    }
    assert(s.subrange(0, s.len() as int) =~= s);
    Some(value)
}

fn in_run(c: char, alpha: bool) -> (r: bool)
    ensures
        r == run_char(c, alpha),
{
    if alpha {
        is_alphabetic(c)
    } else {
        is_alphanumeric(c)
    }
}

/// The characters that continue a word (`alpha`) or a number.
pub open spec fn run_char(c: char, alpha: bool) -> bool {
    if alpha {
        letter_char(c)
    } else {
        word_char(c)
    }
}

/// Where the run of word (`alpha`) or number characters from `i` on ends.
pub open spec fn run_end(s: Seq<char>, i: int, alpha: bool) -> int
    decreases s.len() - i,
{
    if 0 <= i < s.len() && run_char(s[i], alpha) {
        run_end(s, i + 1, alpha)
    } else {
        i
    }
}

pub proof fn lemma_run_end(s: Seq<char>, i: int, alpha: bool)
    requires
        0 <= i <= s.len(),
    ensures
        i <= run_end(s, i, alpha) <= s.len(),
    decreases s.len() - i,
{
    if i < s.len() && run_char(s[i], alpha) {
        lemma_run_end(s, i + 1, alpha);
    }
}

/// The token of a single-character symbol.
pub open spec fn symbol_token(c: char) -> Option<TokenView> {
    if c == '(' {
        Some(TokenView::LeftParen)
    } else if c == ')' {
        Some(TokenView::RightParen)
    } else if c == '|' {
        Some(TokenView::Pipe)
    } else if c == ' ' {
        Some(TokenView::Whitespace)
    } else if c == '=' {
        Some(TokenView::Equal)
    } else {
        None
    }
}

/// The token of the word `s[i..j]`: a boolean literal, a parameter name when
/// `=` follows it, else an identifier.
pub open spec fn word_token(s: Seq<char>, i: int, j: int) -> TokenView {
    let w = s.subrange(i, j);
    if w == "True"@ {
        TokenView::True
    } else if w == "False"@ {
        TokenView::False
    } else if j < s.len() && s[j] == '=' {
        TokenView::Parameter(w)
    } else {
        TokenView::Identifier(w)
    }
}

/// The tokens of `s` from position `i` on.
pub open spec fn lex_from(s: Seq<char>, i: int) -> Result<Seq<TokenView>, ErrorView>
    decreases s.len() - i,
{
    if i < 0 || i >= s.len() {
        Ok(Seq::empty())
    } else if letter_char(s[i]) {
        let j = run_end(s, i + 1, true);
        proof {
            lemma_run_end(s, i + 1, true);
        }
        prepend_ok(seq![word_token(s, i, j)], lex_from(s, j))
    } else if word_char(s[i]) {
        let j = run_end(s, i + 1, false);
        proof {
            lemma_run_end(s, i + 1, false);
        }
        match decimal_value(s.subrange(i, j)) {
            Some(n) => prepend_ok(seq![TokenView::Int(n)], lex_from(s, j)),
            None => lex_from(s, j),
        }
    } else if s[i] == ',' {
        lex_from(s, i + 1)
    } else {
        match symbol_token(s[i]) {
            Some(t) => prepend_ok(seq![t], lex_from(s, i + 1)),
            None => Err(ErrorView::InvalidToken(s[i])),
        }
    }
}

/// The tokens of the whole text `s`, or the first character that starts none.
pub open spec fn lex(s: Seq<char>) -> Result<Seq<TokenView>, ErrorView> {
    lex_from(s, 0)
}

/// A character that starts no token.
pub open spec fn disallowed(c: char) -> bool {
    !word_char(c) && c != ',' && symbol_token(c) is None
}

pub proof fn lemma_run_stops(s: Seq<char>, i: int, alpha: bool, k: int)
    requires
        0 <= i <= k < s.len(),
        !run_char(s[k], alpha),
    ensures
        run_end(s, i, alpha) <= k,
    decreases k - i,
{
    if run_char(s[i], alpha) {
        lemma_run_stops(s, i + 1, alpha, k);
    }
}

/// Scanning from `i` fails at the first character that starts no token.
pub proof fn lemma_lex_stops_at(s: Seq<char>, i: int, k: int)
    requires
        0 <= i <= k < s.len(),
        disallowed(s[k]),
        forall|j: int| i <= j < k ==> !disallowed(#[trigger] s[j]),
    ensures
        lex_from(s, i) == Err::<Seq<TokenView>, ErrorView>(ErrorView::InvalidToken(s[k])),
    decreases k - i,
{
    if i < k {
        assert(!disallowed(s[i]));
        if letter_char(s[i]) {
            lemma_run_stops(s, i + 1, true, k);
            lemma_run_end(s, i + 1, true);
            lemma_lex_stops_at(s, run_end(s, i + 1, true), k);
        } else if word_char(s[i]) {
            lemma_run_stops(s, i + 1, false, k);
            lemma_run_end(s, i + 1, false);
            lemma_lex_stops_at(s, run_end(s, i + 1, false), k);
        } else {
            lemma_lex_stops_at(s, i + 1, k);
        }
    }
}

/// Scanning from `i` succeeds where no character from `i` on is one that
/// starts no token.
pub proof fn lemma_lex_succeeds_from(s: Seq<char>, i: int)
    requires
        0 <= i,
        forall|j: int| i <= j < s.len() ==> !disallowed(#[trigger] s[j]),
    ensures
        lex_from(s, i) is Ok,
    decreases s.len() - i,
{
    if i < s.len() {
        assert(!disallowed(s[i]));
        if letter_char(s[i]) {
            lemma_run_end(s, i + 1, true);
            lemma_lex_succeeds_from(s, run_end(s, i + 1, true));
        } else if word_char(s[i]) {
            lemma_run_end(s, i + 1, false);
            lemma_lex_succeeds_from(s, run_end(s, i + 1, false));
        } else {
            lemma_lex_succeeds_from(s, i + 1);
        }
    }
}

/// The end of the run of word (`alpha`) or number characters from `start` on.
fn scan_run(chars: &Vec<char>, start: usize, alpha: bool) -> (j: usize)
    requires
        start <= chars@.len(),
    ensures
        j == run_end(chars@, start as int, alpha),
{
    let mut k: usize = start;
    while k < chars.len() && in_run(chars[k], alpha)
        invariant
            start <= k <= chars@.len(),
            run_end(chars@, start as int, alpha) == run_end(chars@, k as int, alpha),
        decreases chars@.len() - k,
    {
        k = k + 1;
    }
    k
}

fn symbol(c: char) -> (r: Option<Token>)
    ensures
        match r {
            Some(t) => symbol_token(c) == Some(t@),
            None => symbol_token(c) is None,
        },
{
    if c == '(' {
        Some(Token::LeftParen)
    } else if c == ')' {
        Some(Token::RightParen)
    } else if c == '|' {
        Some(Token::Pipe)
    } else if c == ' ' {
        Some(Token::Whitespace)
    } else if c == '=' {
        Some(Token::Equal)
    } else {
        None
    }
}

pub(crate) fn word_is(word: &String, lit: &str) -> (r: bool)
    ensures
        r == (word@ == lit@),
{
    let l = String::from_str(lit);
    *word == l
}

/// Splits `line` into tokens, in the order in which they stand in it.
///
/// A word is `True`, `False`, a parameter name when `=` follows it, or an
/// identifier; a run of digits that does not fit a `u32` gives no token;
/// each of `(`, `)`, `|`, ` ` and `=` is a token of its own; a `,`, which
/// separates parameters, gives no token wherever it stands. Any other
/// character fails the whole scan with [`Error::InvalidToken`].
pub fn tokenize(line: String) -> (r: Result<Vec<Token>, Error>)
    ensures
        tokens_result(r) == lex(line@),
{
    let text = line.as_str();
    let n = text.unicode_len();
    let mut chars: Vec<char> = Vec::new();
    let mut k: usize = 0;
    while k < n
        invariant
            n == line@.len(),
            text@ == line@,
            k <= n,
            chars@ == line@.subrange(0, k as int),
        decreases n - k,
    {
        chars.push(text.get_char(k));
        k = k + 1;
    }
    assert(chars@ =~= line@);
    let ghost s = line@;
    let mut tokens: Vec<Token> = Vec::new();
    let mut i: usize = 0;
    while i < n
        invariant
            n == s.len(),
            line@ == s,
            text@ == s,
            chars@ == s,
            i <= n,
            lex(s) == prepend_ok(token_views(tokens@), lex_from(s, i as int)),
        decreases n - i,
    {
        let c = chars[i];
        let ghost before = tokens@;
        if is_alphabetic(c) {
            let j = scan_run(&chars, i + 1, true);
            proof {
                lemma_run_end(s, i + 1, true);
            }
            let word = String::from_str(text.substring_char(i, j));
            let tok = if word_is(&word, "True") {
                Token::True
            } else if word_is(&word, "False") {
                Token::False
            } else if j < n && chars[j] == '=' {
                Token::Parameter(word)
            } else {
                Token::Identifier(word)
            };
            assert(tok@ == word_token(s, i as int, j as int));
            tokens.push(tok);
            proof {
                lemma_prepend_ok_twice(token_views(before), seq![tok@], lex_from(s, j as int));
                assert(token_views(before) + seq![tok@] =~= token_views(tokens@));
            }
            i = j;
        } else if is_alphanumeric(c) {
            let j = scan_run(&chars, i + 1, false);
            proof {
                lemma_run_end(s, i + 1, false);
            }
            match read_decimal(&chars, i, j) {
                Some(v) => {
                    tokens.push(Token::Int(v));
                    proof {
                        lemma_prepend_ok_twice(
                            token_views(before),
                            seq![TokenView::Int(v)],
                            lex_from(s, j as int),
                        );
                        assert(token_views(before) + seq![TokenView::Int(v)] =~= token_views(
                            tokens@,
                        ));
                    }
                },
                None => {},
            }
            i = j;
        } else if c == ',' {
            i = i + 1;
        } else {
            let tok = match symbol(c) {
                Some(t) => t,
                None => {
                    return Err(Error::InvalidToken(c));
                },
            };
            assert(symbol_token(c) == Some(tok@));
            tokens.push(tok);
            proof {
                lemma_prepend_ok_twice(token_views(before), seq![tok@], lex_from(s, i + 1));
                assert(token_views(before) + seq![tok@] =~= token_views(tokens@));
            }
            i = i + 1;
        }
    }
    assert(token_views(tokens@) + Seq::empty() =~= token_views(tokens@));
    Ok(tokens)
}

} // verus!
