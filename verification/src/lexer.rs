use vstd::prelude::*;
use crate::chars::{is_whitespace, is_digit, is_hex_digit, is_ident_start, is_ident_char, whitespace};
use crate::error::{IntErrorKind, LexicalError};
use crate::integer::Integer;
use crate::chars::{len_utf8, utf8_bytes};
use crate::text::{string_from_range, string_push};

verus! {

/// A piece of a string literal: literal text, or an interpolated input.
#[derive(Debug, Clone, PartialEq)]
pub enum StringPart {
    /// Literal text, with escapes already replaced.
    Literal(String),
    /// The name of an input interpolated with `${name}`.
    Input(String),
}

/// The mathematical view of a [`StringPart`].
pub enum SPart {
    Literal(Seq<char>),
    Input(Seq<char>),
}

pub open spec fn part_view(p: StringPart) -> SPart {
    match p {
        StringPart::Literal(s) => SPart::Literal(s@),
        StringPart::Input(s) => SPart::Input(s@),
    }
}

pub open spec fn parts_view(s: Seq<StringPart>) -> Seq<SPart>
    decreases s.len(),
{
    if s.len() == 0 {
        seq![]
    } else {
        parts_view(s.drop_last()).push(part_view(s.last()))
    }
}

pub proof fn lemma_parts_view(s: Seq<StringPart>)
    ensures
        parts_view(s).len() == s.len(),
        forall|i: int| 0 <= i < s.len() ==> #[trigger] parts_view(s)[i] == part_view(s[i]),
    decreases s.len(),
{
    if s.len() > 0 {
        lemma_parts_view(s.drop_last());
    }
}

/// A token of the language.
#[derive(Debug, Clone, PartialEq)]
pub enum Token {
    /// `let`
    Let,
    /// `in`
    In,
    /// `null`
    Null,
    /// `=`
    Equals,
    /// `{`
    OpenBrace,
    /// `}`
    CloseBrace,
    /// `[`
    OpenBracket,
    /// `]`
    CloseBracket,
    /// `.`
    Chain,
    /// `..`
    Spread,
    /// `true` or `false`
    Boolean(bool),
    /// An integer literal, decimal or hexadecimal.
    Integer(Integer),
    /// A float literal, as written.
    Float(String),
    /// An input name, without its `$`.
    InputName(String),
    /// A string literal, in parts.
    Literal(Vec<StringPart>),
    /// A key, without its quotes and with `\'` replaced by `'`.
    Key(String),
}

/// The mathematical view of a [`Token`].
pub enum SToken {
    Let,
    In,
    Null,
    Equals,
    OpenBrace,
    CloseBrace,
    OpenBracket,
    CloseBracket,
    Chain,
    Spread,
    Boolean(bool),
    Integer(Integer),
    Float(Seq<char>),
    InputName(Seq<char>),
    Literal(Seq<SPart>),
    Key(Seq<char>),
}

pub open spec fn token_view(t: Token) -> SToken {
    match t {
        Token::Let => SToken::Let,
        Token::In => SToken::In,
        Token::Null => SToken::Null,
        Token::Equals => SToken::Equals,
        Token::OpenBrace => SToken::OpenBrace,
        Token::CloseBrace => SToken::CloseBrace,
        Token::OpenBracket => SToken::OpenBracket,
        Token::CloseBracket => SToken::CloseBracket,
        Token::Chain => SToken::Chain,
        Token::Spread => SToken::Spread,
        Token::Boolean(b) => SToken::Boolean(b),
        Token::Integer(i) => SToken::Integer(i),
        Token::Float(f) => SToken::Float(f@),
        Token::InputName(n) => SToken::InputName(n@),
        Token::Literal(parts) => SToken::Literal(parts_view(parts@)),
        Token::Key(k) => SToken::Key(k@),
    }
}

impl View for Token {
    type V = SToken;

    open spec fn view(&self) -> SToken {
        token_view(*self)
    }
}

// ---------------------------------------------------------------------------
// The token classes, each the longest prefix of `s[i..]` that its pattern
// matches (0 when it matches none).

/// The number of characters from `i` on that satisfy `p`.
pub open spec fn span_while(s: Seq<char>, i: int, p: spec_fn(char) -> bool) -> nat
    decreases s.len() - i,
{
    if 0 <= i < s.len() && p(s[i]) {
        1 + span_while(s, i + 1, p)
    } else {
        0
    }
}

/// What `span_while` counts: the characters from `i` satisfy `p`, the one
/// after them (if any) does not, and they stay inside `s`.
pub proof fn lemma_span_while(s: Seq<char>, i: int, p: spec_fn(char) -> bool)
    ensures
        i < 0 || i >= s.len() ==> span_while(s, i, p) == 0,
        0 <= i <= s.len() ==> i + span_while(s, i, p) <= s.len(),
        forall|k: int| i <= k < i + span_while(s, i, p) ==> p(#[trigger] s[k]),
        0 <= i + span_while(s, i, p) < s.len() && 0 <= i ==> !p(s[i + span_while(s, i, p)]),
    decreases s.len() - i,
{
    if 0 <= i < s.len() && p(s[i]) {
        lemma_span_while(s, i + 1, p);
    }
}

pub open spec fn digit_pred() -> spec_fn(char) -> bool {
    |c: char| is_digit(c)
}

pub open spec fn hex_or_underscore_pred() -> spec_fn(char) -> bool {
    |c: char| is_hex_digit(c) || c == '_'
}

pub open spec fn ident_pred() -> spec_fn(char) -> bool {
    |c: char| is_ident_char(c)
}

pub open spec fn ws_pred() -> spec_fn(char) -> bool {
    |c: char| is_whitespace(c)
}

pub open spec fn not_newline_pred() -> spec_fn(char) -> bool {
    |c: char| c != '\n' && c != '\r'
}

pub open spec fn newline_pred() -> spec_fn(char) -> bool {
    |c: char| c == '\n' || c == '\r'
}

/// A character that may start an unquoted key: `[^\s.=0-9\[\]{}"']`.
pub open spec fn is_key_start(c: char) -> bool {
    !is_whitespace(c) && !is_digit(c) && c != '.' && c != '=' && c != '[' && c != ']' && c != '{'
        && c != '}' && c != '"' && c != '\''
}

/// A character that may continue an unquoted key: `[^\s.=\[\]{}"']`.
pub open spec fn is_key_char(c: char) -> bool {
    !is_whitespace(c) && c != '.' && c != '=' && c != '[' && c != ']' && c != '{' && c != '}' && c
        != '"' && c != '\''
}

pub open spec fn key_char_pred() -> spec_fn(char) -> bool {
    |c: char| is_key_char(c)
}

/// A character of plain string content: `[^"$\\{]`.
pub open spec fn is_content_char(c: char) -> bool {
    c != '"' && c != '$' && c != '\\' && c != '{'
}

pub open spec fn content_pred() -> spec_fn(char) -> bool {
    |c: char| is_content_char(c)
}

pub open spec fn char_at(s: Seq<char>, i: int, c: char) -> bool {
    0 <= i < s.len() && s[i] == c
}

/// `s[i..]` starts with `w`.
pub open spec fn starts_with_at(s: Seq<char>, i: int, w: Seq<char>) -> bool {
    0 <= i && i + w.len() <= s.len() && s.subrange(i, i + w.len()) == w
}

/// `(_[0-9]+)*` from `j`.
pub open spec fn digit_groups_len(s: Seq<char>, j: int) -> nat
    decreases s.len() - j,
{
    if char_at(s, j, '_') && span_while(s, j + 1, digit_pred()) > 0 && j >= 0 {
        let k = span_while(s, j + 1, digit_pred());
        proof {
            lemma_span_while(s, j + 1, digit_pred());
        }
        1 + k + digit_groups_len(s, j + 1 + k)
    } else {
        0
    }
}

/// `[0-9]+(_[0-9]+)*`
pub open spec fn decimal_len(s: Seq<char>, i: int) -> nat {
    let d = span_while(s, i, digit_pred());
    if d == 0 {
        0
    } else {
        d + digit_groups_len(s, i + d)
    }
}

/// `-[0-9]+(_[0-9]+)*`
pub open spec fn negative_len(s: Seq<char>, i: int) -> nat {
    if char_at(s, i, '-') && decimal_len(s, i + 1) > 0 {
        1 + decimal_len(s, i + 1)
    } else {
        0
    }
}

/// `0x[0-9a-fA-F][_0-9a-fA-F]*`
pub open spec fn hex_len(s: Seq<char>, i: int) -> nat {
    if char_at(s, i, '0') && char_at(s, i + 1, 'x') && 0 <= i + 2 < s.len() && is_hex_digit(s[i + 2]) {
        3 + span_while(s, i + 3, hex_or_underscore_pred())
    } else {
        0
    }
}

/// `([eE][+-]?[0-9]+)?` from `e`.
pub open spec fn exponent_len(s: Seq<char>, e: int) -> nat {
    if char_at(s, e, 'e') || char_at(s, e, 'E') {
        let q = if char_at(s, e + 1, '+') || char_at(s, e + 1, '-') {
            e + 2
        } else {
            e + 1
        };
        let k = span_while(s, q, digit_pred());
        if k > 0 {
            (q + k - e) as nat
        } else {
            0
        }
    } else {
        0
    }
}

/// `-?[0-9]+\.[0-9]*([eE][+-]?[0-9]+)?`
pub open spec fn float_len(s: Seq<char>, i: int) -> nat {
    let m = if char_at(s, i, '-') {
        1int
    } else {
        0int
    };
    let d = span_while(s, i + m, digit_pred());
    let p = i + m + d;
    if d == 0 || !char_at(s, p, '.') {
        0
    } else {
        let f = span_while(s, p + 1, digit_pred());
        let e = p + 1 + f;
        (e + exponent_len(s, e) - i) as nat
    }
}

/// `\$[a-zA-Z_][a-zA-Z0-9_]*`
pub open spec fn input_name_len(s: Seq<char>, i: int) -> nat {
    if char_at(s, i, '$') && 0 <= i + 1 < s.len() && is_ident_start(s[i + 1]) {
        2 + span_while(s, i + 2, ident_pred())
    } else {
        0
    }
}

/// The end of the longest match of `([^']|\\')*'` from `j`, running its
/// automaton with `q` (inside the quotes) and `e` (just read a `\`) as its
/// states; `last` is the end of the longest match so far, or -1.
pub open spec fn quoted_key_end(s: Seq<char>, j: int, q: bool, e: bool, last: int) -> int
    decreases s.len() - j,
{
    if !q && !e || j >= s.len() || j < 0 {
        last
    } else {
        let c = s[j];
        let accept = q && c == '\'';
        let nq = (q && c != '\'') || (e && c == '\'');
        let ne = q && c == '\\';
        quoted_key_end(s, j + 1, nq, ne, if accept { j + 1 } else { last })
    }
}

/// `'(?:[^']|(\\'))*'|[^\s.=0-9\[\]{}"'][^\s.=\[\]{}"']*`
pub open spec fn key_len(s: Seq<char>, i: int) -> nat {
    if char_at(s, i, '\'') {
        let end = quoted_key_end(s, i + 1, true, false, -1);
        if end > i {
            (end - i) as nat
        } else {
            0
        }
    } else if 0 <= i < s.len() && is_key_start(s[i]) {
        1 + span_while(s, i + 1, key_char_pred())
    } else {
        0
    }
}

/// `//[^\n\r]*[\n\r]*`
pub open spec fn line_comment_len(s: Seq<char>, i: int) -> nat {
    if char_at(s, i, '/') && char_at(s, i + 1, '/') {
        let a = 2 + span_while(s, i + 2, not_newline_pred());
        a + span_while(s, i + a, newline_pred())
    } else {
        0
    }
}

/// The end of `([^*/]|\*[^/]|/[^*])*\*/` from `j` in automaton state `st`
/// (0: between items, 1: after `*`, 2: after `/`), or -1 when it never ends.
pub open spec fn block_comment_end(s: Seq<char>, j: int, st: int) -> int
    decreases s.len() - j,
{
    if j >= s.len() || j < 0 {
        -1
    } else {
        let c = s[j];
        if st == 1 {
            if c == '/' {
                j + 1
            } else {
                block_comment_end(s, j + 1, 0)
            }
        } else if st == 2 {
            if c == '*' {
                -1
            } else {
                block_comment_end(s, j + 1, 0)
            }
        } else if c == '*' {
            block_comment_end(s, j + 1, 1)
        } else if c == '/' {
            block_comment_end(s, j + 1, 2)
        } else {
            block_comment_end(s, j + 1, 0)
        }
    }
}

/// `/\*([^*/]|\*[^/]|/[^*])*\*/`
pub open spec fn block_comment_len(s: Seq<char>, i: int) -> nat {
    if char_at(s, i, '/') && char_at(s, i + 1, '*') {
        let end = block_comment_end(s, i + 2, 0);
        if end > i {
            (end - i) as nat
        } else {
            0
        }
    } else {
        0
    }
}

/// The length of a fixed word at `i`, or 0.
pub open spec fn word_len(s: Seq<char>, i: int, w: Seq<char>) -> nat {
    if starts_with_at(s, i, w) {
        w.len()
    } else {
        0
    }
}

/// The kinds of lexemes of the top-level context.
#[derive(PartialEq, Eq, Structural, Clone, Copy, Debug)]
pub enum Lexeme {
    Whitespace,
    LineComment,
    BlockComment,
    Spread,
    Chain,
    Equals,
    OpenBrace,
    CloseBrace,
    OpenBracket,
    CloseBracket,
    Let,
    In,
    Null,
    True,
    False,
    Float,
    Hex,
    Negative,
    Decimal,
    InputName,
    Quote,
    Key,
}

/// The length of the longest match of a lexeme at `i`.
pub open spec fn lexeme_len(s: Seq<char>, i: int, l: Lexeme) -> nat {
    match l {
        Lexeme::Whitespace => span_while(s, i, ws_pred()),
        Lexeme::LineComment => line_comment_len(s, i),
        Lexeme::BlockComment => block_comment_len(s, i),
        Lexeme::Spread => word_len(s, i, seq!['.', '.']),
        Lexeme::Chain => word_len(s, i, seq!['.']),
        Lexeme::Equals => word_len(s, i, seq!['=']),
        Lexeme::OpenBrace => word_len(s, i, seq!['{']),
        Lexeme::CloseBrace => word_len(s, i, seq!['}']),
        Lexeme::OpenBracket => word_len(s, i, seq!['[']),
        Lexeme::CloseBracket => word_len(s, i, seq![']']),
        Lexeme::Let => word_len(s, i, seq!['l', 'e', 't']),
        Lexeme::In => word_len(s, i, seq!['i', 'n']),
        Lexeme::Null => word_len(s, i, seq!['n', 'u', 'l', 'l']),
        Lexeme::True => word_len(s, i, seq!['t', 'r', 'u', 'e']),
        Lexeme::False => word_len(s, i, seq!['f', 'a', 'l', 's', 'e']),
        Lexeme::Float => float_len(s, i),
        Lexeme::Hex => hex_len(s, i),
        Lexeme::Negative => negative_len(s, i),
        Lexeme::Decimal => decimal_len(s, i),
        Lexeme::InputName => input_name_len(s, i),
        Lexeme::Quote => word_len(s, i, seq!['"']),
        Lexeme::Key => key_len(s, i),
    }
}

/// The number of lexemes other than keys.
pub open spec fn ranked_count() -> int {
    21
}

/// The lexemes other than keys, in the order in which they win ties.
pub open spec fn ranked_lexeme(k: int) -> Lexeme {
    if k == 0 {
        Lexeme::Whitespace
    } else if k == 1 {
        Lexeme::LineComment
    } else if k == 2 {
        Lexeme::BlockComment
    } else if k == 3 {
        Lexeme::Spread
    } else if k == 4 {
        Lexeme::Chain
    } else if k == 5 {
        Lexeme::Equals
    } else if k == 6 {
        Lexeme::OpenBrace
    } else if k == 7 {
        Lexeme::CloseBrace
    } else if k == 8 {
        Lexeme::OpenBracket
    } else if k == 9 {
        Lexeme::CloseBracket
    } else if k == 10 {
        Lexeme::Let
    } else if k == 11 {
        Lexeme::In
    } else if k == 12 {
        Lexeme::Null
    } else if k == 13 {
        Lexeme::True
    } else if k == 14 {
        Lexeme::False
    } else if k == 15 {
        Lexeme::Float
    } else if k == 16 {
        Lexeme::Hex
    } else if k == 17 {
        Lexeme::Negative
    } else if k == 18 {
        Lexeme::Decimal
    } else if k == 19 {
        Lexeme::InputName
    } else {
        Lexeme::Quote
    }
}

/// The lexeme found at `i` and its length: the longest match of all lexemes;
/// among equally long matches a key loses to every other lexeme, and the
/// others never match equally long text.  `None` when nothing matches.
pub open spec fn next_lexeme(s: Seq<char>, i: int) -> Option<(Lexeme, nat)> {
    let best = longest_ranked(s, i, ranked_count());
    let k = lexeme_len(s, i, Lexeme::Key);
    if best.1 > 0 && best.1 >= k {
        Some(best)
    } else if k > 0 {
        Some((Lexeme::Key, k))
    } else {
        None
    }
}

/// Among the first `n` ranked lexemes, the first whose match at `i` is longest.
pub open spec fn longest_ranked(s: Seq<char>, i: int, n: int) -> (Lexeme, nat)
    decreases n,
{
    if n <= 0 {
        (Lexeme::Whitespace, 0)
    } else {
        let prev = longest_ranked(s, i, n - 1);
        let l = ranked_lexeme(n - 1);
        let len = lexeme_len(s, i, l);
        if len > prev.1 {
            (l, len)
        } else {
            prev
        }
    }
}

// ---------------------------------------------------------------------------
// Values of tokens.

/// The value of a digit in base 16 (also right for decimal digits).
pub open spec fn digit_value(c: char) -> nat {
    if '0' <= c <= '9' {
        (c as nat - '0' as nat) as nat
    } else if 'a' <= c <= 'f' {
        (c as nat - 'a' as nat + 10) as nat
    } else if 'A' <= c <= 'F' {
        (c as nat - 'A' as nat + 10) as nat
    } else {
        0
    }
}

/// The number written with the digits of `t` in base `radix`, underscores skipped.
pub open spec fn number_value(t: Seq<char>, radix: nat) -> nat
    decreases t.len(),
{
    if t.len() == 0 {
        0
    } else if t.last() == '_' {
        number_value(t.drop_last(), radix)
    } else {
        number_value(t.drop_last(), radix) * radix + digit_value(t.last())
    }
}

/// The value of an integer token, which must fit in a signed 64-bit integer:
/// decimal literals are stored unsigned, negative and hexadecimal literals
/// signed.
pub open spec fn integer_token(s: Seq<char>, i: int, n: nat, l: Lexeme) -> Result<Integer, LexicalError> {
    let text = s.subrange(i, i + n);
    match l {
        Lexeme::Decimal => {
            let v = number_value(text, 10);
            if v <= i64::MAX {
                Ok(Integer::from_spec_u64(v as u64))
            } else {
                Err(LexicalError::InvalidInteger(IntErrorKind::PosOverflow))
            }
        },
        Lexeme::Negative => {
            let v = number_value(text.drop_first(), 10);
            if v <= 0x8000_0000_0000_0000 {
                Ok(Integer::from_spec_i64((0 - v) as i64))
            } else {
                Err(LexicalError::InvalidInteger(IntErrorKind::NegOverflow))
            }
        },
        _ => {
            let v = number_value(text.skip(2), 16);
            if v <= i64::MAX {
                Ok(Integer::from_spec_i64(v as i64))
            } else {
                Err(LexicalError::InvalidInteger(IntErrorKind::PosOverflow))
            }
        },
    }
}

/// The text `0x` followed by `digits`.
pub open spec fn hex_text(digits: Seq<char>) -> Seq<char> {
    seq!['0', 'x'] + digits
}

/// The value of the hexadecimal literal `0x` followed by `digits`.
pub open spec fn hex_value(digits: Seq<char>) -> Result<Integer, LexicalError> {
    integer_token(hex_text(digits), 0, (digits.len() + 2) as nat, Lexeme::Hex)
}

/// A one-digit hexadecimal literal has the value of its digit's place in
/// `0123456789abcdef`, and an upper-case digit the same as its lower-case form
/// (`a`/`A` is 10, ..., `f`/`F` is 15).
pub proof fn lemma_hex_digit_values(k: int)
    requires
        0 <= k < 16,
    ensures
        hex_value(seq!["0123456789abcdef"@[k]]) == Ok::<Integer, LexicalError>(Integer::from_spec_i64(k as i64)),
        hex_value(seq!["0123456789ABCDEF"@[k]]) == Ok::<Integer, LexicalError>(Integer::from_spec_i64(k as i64)),
{
    reveal_strlit("0123456789abcdef");
    reveal_strlit("0123456789ABCDEF");
    let lo = "0123456789abcdef"@[k];
    let up = "0123456789ABCDEF"@[k];
    assert(hex_text(seq![lo]).subrange(0, 3).skip(2) =~= seq![lo]);
    assert(hex_text(seq![up]).subrange(0, 3).skip(2) =~= seq![up]);
    assert(seq![lo].drop_last() =~= Seq::<char>::empty());
    assert(seq![up].drop_last() =~= Seq::<char>::empty());
    assert(digit_value(lo) == k && digit_value(up) == k) by {
        if k == 0 {} else if k == 1 {} else if k == 2 {} else if k == 3 {} else if k == 4 {} else if k == 5 {}
        else if k == 6 {} else if k == 7 {} else if k == 8 {} else if k == 9 {} else if k == 10 {}
        else if k == 11 {} else if k == 12 {} else if k == 13 {} else if k == 14 {} else {}
    }
    assert(lo != '_' && up != '_');
    assert(seq![lo].last() == lo && seq![up].last() == up);
    assert(number_value(Seq::<char>::empty(), 16) == 0);
    assert(number_value(seq![lo], 16) == k);
    assert(number_value(seq![up], 16) == k);
    assert(hex_text(seq![lo]).subrange(0, 0 + 3 as int).skip(2) == seq![lo]);
    assert(hex_text(seq![up]).subrange(0, 0 + 3 as int).skip(2) == seq![up]);
}

/// Appending a digit to a hexadecimal literal multiplies its value by 16 and
/// adds the digit's value, while the result fits in a signed 64-bit integer.
pub proof fn lemma_hex_append(digits: Seq<char>, c: char)
    requires
        c != '_',
        hex_value(digits) is Ok,
        hex_value(seq![c]) is Ok,
        hex_value(digits.push(c)) is Ok,
    ensures
        hex_value(digits.push(c))->Ok_0.value() == 16 * hex_value(digits)->Ok_0.value() + hex_value(
            seq![c],
        )->Ok_0.value(),
{
    let t = hex_text(digits.push(c));
    assert(t.subrange(0, digits.len() + 3 as int).skip(2) =~= digits.push(c));
    assert(hex_text(digits).subrange(0, digits.len() + 2 as int).skip(2) =~= digits);
    assert(hex_text(seq![c]).subrange(0, 3).skip(2) =~= seq![c]);
    assert(digits.push(c).drop_last() =~= digits);
    assert(seq![c].drop_last() =~= Seq::<char>::empty());
    let a = number_value(digits, 16);
    let b = number_value(digits.push(c), 16);
    let d = number_value(seq![c], 16);
    Integer::lemma_read_back(a as i64, 0);
    Integer::lemma_read_back(b as i64, 0);
    Integer::lemma_read_back(d as i64, 0);
    assert(digits.push(c).last() == c);
    assert(b == a * 16 + digit_value(c));
    assert(number_value(Seq::<char>::empty(), 16) == 0);
    assert(seq![c].last() == c);
    assert(d == digit_value(c));
    assert(t.subrange(0, 0 + (digits.push(c).len() + 2) as int).skip(2) == digits.push(c));
    assert(hex_text(digits).subrange(0, 0 + (digits.len() + 2) as int).skip(2) == digits);
    assert(hex_text(seq![c]).subrange(0, 0 + 3 as int).skip(2) == seq![c]);
}

/// A quoted key's text without the quotes around it: `trim_matches('\'')`.
pub open spec fn trim_quotes(t: Seq<char>) -> Seq<char>
    decreases t.len(),
{
    if t.len() > 0 && t[0] == '\'' {
        trim_quotes(t.drop_first())
    } else if t.len() > 0 && t.last() == '\'' {
        trim_quotes(t.drop_last())
    } else {
        t
    }
}

/// Every `\'` replaced by `'`, scanning from the left.
pub open spec fn unescape_quotes(t: Seq<char>) -> Seq<char>
    decreases t.len(),
{
    if t.len() >= 2 && t[0] == '\\' && t[1] == '\'' {
        seq!['\''] + unescape_quotes(t.skip(2))
    } else if t.len() > 0 {
        seq![t[0]] + unescape_quotes(t.drop_first())
    } else {
        t
    }
}

/// The text of a key token.
pub open spec fn key_text(t: Seq<char>) -> Seq<char> {
    if t.len() > 0 && t[0] == '\'' {
        unescape_quotes(trim_quotes(t))
    } else {
        t
    }
}

// ---------------------------------------------------------------------------
// String literals.

/// One step of reading a string literal.
pub enum StrStep {
    /// The closing quote.
    Quote,
    /// Plain text of the given length.
    Content(nat),
    /// A two-character escape standing for the character.
    Escape(char),
    /// A `\uXXXX` escape with the given code.
    Unicode(nat),
    /// An interpolation `${name}`; the length of the name.
    Interpolation(nat),
    /// Text that starts no token of the string; its length.
    Invalid(nat),
}

/// The character of a two-character escape, if `c` makes one after `\`.
pub open spec fn escape_char(c: char) -> Option<char> {
    if c == 'n' {
        Some('\n')
    } else if c == 'r' {
        Some('\r')
    } else if c == 't' {
        Some('\t')
    } else if c == '\\' || c == '"' || c == '$' || c == '{' || c == '}' {
        Some(c)
    } else {
        None
    }
}

pub open spec fn hex_pred() -> spec_fn(char) -> bool {
    |c: char| is_hex_digit(c)
}

/// The step at `j` (which must be inside `s`).  An invalid step covers the
/// longest text that could still have become a token of the string.
pub open spec fn str_step(s: Seq<char>, j: int) -> StrStep {
    let c = s[j];
    if c == '"' {
        StrStep::Quote
    } else if is_content_char(c) {
        StrStep::Content(span_while(s, j, content_pred()))
    } else if c == '\\' {
        if j + 1 >= s.len() {
            StrStep::Invalid(1)
        } else if s[j + 1] == 'u' {
            let h = span_while(s, j + 2, hex_pred());
            if h >= 4 {
                StrStep::Unicode(number_value(s.subrange(j + 2, j + 6), 16))
            } else {
                StrStep::Invalid(2 + h)
            }
        } else {
            match escape_char(s[j + 1]) {
                Some(e) => StrStep::Escape(e),
                None => StrStep::Invalid(1),
            }
        }
    } else if c == '$' {
        if char_at(s, j + 1, '{') {
            if 0 <= j + 2 < s.len() && is_ident_start(s[j + 2]) {
                let k = span_while(s, j + 3, ident_pred());
                if char_at(s, j + 3 + k, '}') {
                    StrStep::Interpolation(k + 1)
                } else {
                    StrStep::Invalid(3 + k)
                }
            } else {
                StrStep::Invalid(2)
            }
        } else {
            StrStep::Invalid(1)
        }
    } else {
        StrStep::Invalid(1)
    }
}

/// The code point of a character.
pub open spec fn char_code(c: char) -> nat {
    (c as u32) as nat
}

/// The character of a `\uXXXX` code: the code point, or U+FFFD for a surrogate.
pub open spec fn unicode_char(code: nat) -> char {
    if code < 0xD800 || (0xE000 <= code && code <= 0x10FFFF) {
        choose|c: char| #[trigger] char_code(c) == code
    } else {
        '\u{FFFD}'
    }
}

/// The parts with the pending literal text added, if there is any.
pub open spec fn flush_literal(parts: Seq<SPart>, cur: Seq<char>) -> Seq<SPart> {
    if cur.len() > 0 {
        parts.push(SPart::Literal(cur))
    } else {
        parts
    }
}

/// Reads the rest of a string literal from `j`: the parts and where the
/// literal ends.  The literal ends after its closing quote, after text that
/// starts no token of the string, or at the end of the input.
pub open spec fn scan_literal(s: Seq<char>, j: int, parts: Seq<SPart>, cur: Seq<char>) -> (Seq<SPart>, int)
    decreases s.len() - j,
{
    if j >= s.len() || j < 0 {
        (flush_literal(parts, cur), s.len() as int)
    } else {
        match str_step(s, j) {
            StrStep::Quote => (flush_literal(parts, cur), j + 1),
            StrStep::Content(n) => if n > 0 {
                proof {
                    lemma_span_while(s, j, content_pred());
                }
                scan_literal(s, j + n, parts, cur + s.subrange(j, j + n))
            } else {
                (flush_literal(parts, cur), j + 1)
            },
            StrStep::Escape(c) => scan_literal(s, j + 2, parts, cur.push(c)),
            StrStep::Unicode(code) => {
                proof {
                    lemma_span_while(s, j + 2, hex_pred());
                }
                scan_literal(s, j + 6, parts, cur.push(unicode_char(code)))
            },
            StrStep::Interpolation(k) => {
                proof {
                    lemma_span_while(s, j + 3, ident_pred());
                }
                scan_literal(
                s,
                j + 3 + k,
                flush_literal(parts, cur).push(SPart::Input(s.subrange(j + 2, j + 2 + k))),
                seq![],
            )
            },
            StrStep::Invalid(n) => (flush_literal(parts, cur), j + n),
        }
    }
}

// ---------------------------------------------------------------------------
// The whole input.

/// The tokens of an input, or the tokens before the first lexical error
/// and that error.
pub enum LexResult {
    Tokens(Seq<SToken>),
    Failed(Seq<SToken>, LexicalError),
}

pub open spec fn prepend_token(t: SToken, r: LexResult) -> LexResult {
    match r {
        LexResult::Tokens(ts) => LexResult::Tokens(seq![t] + ts),
        LexResult::Failed(ts, e) => LexResult::Failed(seq![t] + ts, e),
    }
}

/// The token of a lexeme that is neither skipped nor a string literal.
pub open spec fn simple_token(s: Seq<char>, i: int, l: Lexeme, n: nat) -> Result<SToken, LexicalError> {
    match l {
        Lexeme::Spread => Ok(SToken::Spread),
        Lexeme::Chain => Ok(SToken::Chain),
        Lexeme::Equals => Ok(SToken::Equals),
        Lexeme::OpenBrace => Ok(SToken::OpenBrace),
        Lexeme::CloseBrace => Ok(SToken::CloseBrace),
        Lexeme::OpenBracket => Ok(SToken::OpenBracket),
        Lexeme::CloseBracket => Ok(SToken::CloseBracket),
        Lexeme::Let => Ok(SToken::Let),
        Lexeme::In => Ok(SToken::In),
        Lexeme::Null => Ok(SToken::Null),
        Lexeme::True => Ok(SToken::Boolean(true)),
        Lexeme::False => Ok(SToken::Boolean(false)),
        Lexeme::Float => Ok(SToken::Float(s.subrange(i, i + n))),
        Lexeme::InputName => Ok(SToken::InputName(s.subrange(i + 1, i + n))),
        Lexeme::Key => Ok(SToken::Key(key_text(s.subrange(i, i + n)))),
        _ => match integer_token(s, i, n, l) {
            Ok(v) => Ok(SToken::Integer(v)),
            Err(e) => Err(e),
        },
    }
}

pub open spec fn is_skipped(l: Lexeme) -> bool {
    l == Lexeme::Whitespace || l == Lexeme::LineComment || l == Lexeme::BlockComment
}

/// The tokens of `s[i..]`: lexeme after lexeme, white space and comments
/// skipped, until the end of the input or the first error.
pub open spec fn lex_from(s: Seq<char>, i: int) -> LexResult
    decreases s.len() - i,
{
    if i >= s.len() || i < 0 {
        LexResult::Tokens(seq![])
    } else {
        match next_lexeme(s, i) {
            None => LexResult::Failed(seq![], LexicalError::InvalidToken),
            Some((l, n)) => if n == 0 || i + n > s.len() {
                LexResult::Failed(seq![], LexicalError::InvalidToken)
            } else if is_skipped(l) {
                lex_from(s, i + n)
            } else if l == Lexeme::Quote {
                let (parts, end) = scan_literal(s, i + 1, seq![], seq![]);
                if end > i && end <= s.len() {
                    prepend_token(SToken::Literal(parts), lex_from(s, end))
                } else {
                    LexResult::Failed(seq![], LexicalError::InvalidToken)
                }
            } else {
                match simple_token(s, i, l, n) {
                    Ok(t) => prepend_token(t, lex_from(s, i + n)),
                    Err(e) => LexResult::Failed(seq![], e),
                }
            },
        }
    }
}

/// The tokens of a whole input, or the first lexical error.
pub open spec fn lex(s: Seq<char>) -> LexResult {
    lex_from(s, 0)
}

/// Where the tokens that [`lex_from`] gives start and end, as character
/// positions in `s`, in order.
pub open spec fn lex_spans_from(s: Seq<char>, i: int) -> Seq<(int, int)>
    decreases s.len() - i,
{
    if i >= s.len() || i < 0 {
        seq![]
    } else {
        match next_lexeme(s, i) {
            None => seq![],
            Some((l, n)) => if n == 0 || i + n > s.len() {
                seq![]
            } else if is_skipped(l) {
                lex_spans_from(s, i + n)
            } else if l == Lexeme::Quote {
                let (parts, end) = scan_literal(s, i + 1, seq![], seq![]);
                if end > i && end <= s.len() {
                    seq![(i, end)] + lex_spans_from(s, end)
                } else {
                    seq![]
                }
            } else {
                match simple_token(s, i, l, n) {
                    Ok(t) => seq![(i, i + n)] + lex_spans_from(s, i + n),
                    Err(e) => seq![],
                }
            },
        }
    }
}

/// Where the tokens of a whole input start and end, in characters.
pub open spec fn lex_spans(s: Seq<char>) -> Seq<(int, int)> {
    lex_spans_from(s, 0)
}

/// The tokens of a lexing result: all of them, or those before the error.
pub open spec fn lexed(r: LexResult) -> Seq<SToken> {
    match r {
        LexResult::Tokens(t) => t,
        LexResult::Failed(t, _) => t,
    }
}

/// Each token has a span, and the spans lie in order inside the text from
/// `i` on, none empty and none overlapping the next.
pub proof fn lemma_spans(s: Seq<char>, i: int)
    requires
        0 <= i,
    ensures
        lex_spans_from(s, i).len() == lexed(lex_from(s, i)).len(),
        forall|k: int| 0 <= k < lex_spans_from(s, i).len() ==> i <= (#[trigger] lex_spans_from(s, i)[k]).0
            < lex_spans_from(s, i)[k].1 <= s.len(),
        forall|k: int| 0 <= k < lex_spans_from(s, i).len() - 1 ==> (#[trigger] lex_spans_from(s, i)[k]).1
            <= lex_spans_from(s, i)[k + 1].0,
    decreases s.len() - i,
{
    if i < s.len() {
        if let Some((l, n)) = next_lexeme(s, i) {
            if n > 0 && i + n <= s.len() {
                if is_skipped(l) {
                    lemma_spans(s, i + n);
                } else {
                    let end = if l == Lexeme::Quote {
                        scan_literal(s, i + 1, seq![], seq![]).1
                    } else {
                        i + n
                    };
                    if end > i && end <= s.len() && (l == Lexeme::Quote || simple_token(s, i, l, n) is Ok) {
                        lemma_spans(s, end);
                        let rest = lex_spans_from(s, end);
                        let all = lex_spans_from(s, i);
                        assert(all == seq![(i, end)] + rest);
                        assert forall|k: int| 0 <= k < all.len() implies i <= (#[trigger] all[k]).0 < all[k].1
                            <= s.len() by {
                            if k > 0 {
                                assert(all[k] == rest[k - 1]);
                            }
                        }
                        assert forall|k: int| 0 <= k < all.len() - 1 implies (#[trigger] all[k]).1 <= all[k + 1].0 by {
                            assert(all[k + 1] == rest[k]);
                            if k > 0 {
                                assert(all[k] == rest[k - 1]);
                            }
                        }
                    }
                }
            }
        }
    }
}

/// An integer token's value fits in a signed 64-bit integer.
pub open spec fn token_fits(t: SToken) -> bool {
    t matches SToken::Integer(i) ==> i64::MIN <= i.value() <= i64::MAX
}

/// Every integer token's value fits in a signed 64-bit integer.
pub open spec fn tokens_fit(ts: Seq<SToken>) -> bool {
    forall|k: int| 0 <= k < ts.len() ==> #[trigger] token_fits(ts[k])
}

/// An integer literal is read only when its value fits in a signed 64-bit integer.
pub proof fn lemma_integer_token_fits(s: Seq<char>, i: int, n: nat, l: Lexeme)
    ensures
        integer_token(s, i, n, l) matches Ok(v) ==> i64::MIN <= v.value() <= i64::MAX,
{
    let text = s.subrange(i, i + n);
    match l {
        Lexeme::Decimal => {
            let v = number_value(text, 10);
            if v <= i64::MAX {
                Integer::lemma_read_back(0, v as u64);
            }
        },
        Lexeme::Negative => {
            let v = number_value(text.drop_first(), 10);
            Integer::lemma_read_back((0 - v) as i64, 0);
        },
        _ => {
            let v = number_value(text.skip(2), 16);
            Integer::lemma_read_back(v as i64, 0);
        },
    }
}

/// Every integer token of a text fits in a signed 64-bit integer.
pub proof fn lemma_lexed_fit(s: Seq<char>, i: int)
    ensures
        tokens_fit(lexed(lex_from(s, i))),
    decreases s.len() - i,
{
    if 0 <= i < s.len() {
        if let Some((l, n)) = next_lexeme(s, i) {
            if n > 0 && i + n <= s.len() {
                if is_skipped(l) {
                    lemma_lexed_fit(s, i + n);
                } else if l == Lexeme::Quote {
                    let (parts, end) = scan_literal(s, i + 1, seq![], seq![]);
                    if end > i && end <= s.len() {
                        lemma_lexed_fit(s, end);
                        lemma_prepend_fit(SToken::Literal(parts), lex_from(s, end));
                    }
                } else {
                    lemma_integer_token_fits(s, i, n, l);
                    if let Ok(t) = simple_token(s, i, l, n) {
                        lemma_lexed_fit(s, i + n);
                        lemma_prepend_fit(t, lex_from(s, i + n));
                    }
                }
            }
        }
    }
}

proof fn lemma_prepend_fit(t: SToken, r: LexResult)
    requires
        token_fits(t),
        tokens_fit(lexed(r)),
    ensures
        tokens_fit(lexed(prepend_token(t, r))),
{
    let ts = lexed(r);
    let all = lexed(prepend_token(t, r));
    assert(all == seq![t] + ts);
    assert forall|k: int| 0 <= k < all.len() implies #[trigger] token_fits(all[k]) by {
        if k > 0 {
            assert(all[k] == ts[k - 1]);
        }
    }
}

/// The offset in bytes of the character position `k` of `s` (held at
/// `usize::MAX` should it not fit).
pub open spec fn byte_offset(s: Seq<char>, k: int) -> int {
    let b = utf8_bytes(s.take(k));
    if b > usize::MAX {
        usize::MAX as int
    } else {
        b as int
    }
}

// ---------------------------------------------------------------------------
// Scanning.

broadcast use vstd::std_specs::vec::axiom_spec_len;

/// The character classes that lexemes repeat.
#[derive(PartialEq, Eq, Structural, Clone, Copy)]
enum CharClass {
    Digit,
    Hex,
    HexOrUnderscore,
    Ident,
    Whitespace,
    NotNewline,
    Newline,
    KeyChar,
    Content,
}

spec fn class_pred(cl: CharClass) -> spec_fn(char) -> bool {
    match cl {
        CharClass::Digit => digit_pred(),
        CharClass::Hex => hex_pred(),
        CharClass::HexOrUnderscore => hex_or_underscore_pred(),
        CharClass::Ident => ident_pred(),
        CharClass::Whitespace => ws_pred(),
        CharClass::NotNewline => not_newline_pred(),
        CharClass::Newline => newline_pred(),
        CharClass::KeyChar => key_char_pred(),
        CharClass::Content => content_pred(),
    }
}

fn in_class(cl: CharClass, c: char) -> (b: bool)
    ensures
        b == class_pred(cl)(c),
{
    match cl {
        CharClass::Digit => '0' <= c && c <= '9',
        CharClass::Hex => ('0' <= c && c <= '9') || ('a' <= c && c <= 'f') || ('A' <= c && c <= 'F'),
        CharClass::HexOrUnderscore => ('0' <= c && c <= '9') || ('a' <= c && c <= 'f') || ('A' <= c
            && c <= 'F') || c == '_',
        CharClass::Ident => ('a' <= c && c <= 'z') || ('A' <= c && c <= 'Z') || c == '_' || ('0' <= c
            && c <= '9'),
        CharClass::Whitespace => whitespace(c),
        CharClass::NotNewline => c != '\n' && c != '\r',
        CharClass::Newline => c == '\n' || c == '\r',
        CharClass::KeyChar => key_char(c),
        CharClass::Content => c != '"' && c != '$' && c != '\\' && c != '{',
    }
}

fn key_char(c: char) -> (b: bool)
    ensures
        b == is_key_char(c),
{
    !whitespace(c) && c != '.' && c != '=' && c != '[' && c != ']' && c != '{' && c != '}' && c
        != '"' && c != '\''
}

fn key_start(c: char) -> (b: bool)
    ensures
        b == is_key_start(c),
{
    key_char(c) && !('0' <= c && c <= '9')
}

/// The number of characters from `i` on in the class.
fn span(s: &Vec<char>, i: usize, cl: CharClass) -> (n: usize)
    ensures
        n == span_while(s@, i as int, class_pred(cl)),
        i <= s@.len() ==> i + n <= s@.len(),
{
    proof {
        lemma_span_while(s@, i as int, class_pred(cl));
    }
    if i >= s.len() {
        return 0;
    }
    let mut j = i;
    while j < s.len() && in_class(cl, s[j])
        invariant
            i <= j <= s@.len(),
            span_while(s@, i as int, class_pred(cl)) == (j - i) + span_while(s@, j as int, class_pred(cl)),
        decreases s@.len() - j,
    {
        j = j + 1;
    }
    j - i
}

/// Whether `s[i..]` starts with `c`.
fn at(s: &Vec<char>, i: usize, c: char) -> (b: bool)
    ensures
        b == char_at(s@, i as int, c),
{
    i < s.len() && s[i] == c
}

/// `(_[0-9]+)*` from `j`.
fn digit_groups(s: &Vec<char>, j: usize) -> (n: usize)
    requires
        j <= s@.len(),
    ensures
        n == digit_groups_len(s@, j as int),
        j + n <= s@.len(),
{
    let _len = s.len();
    let mut p = j;
    while at(s, p, '_') && span(s, p + 1, CharClass::Digit) > 0
        invariant
            j <= p <= s@.len(),
            _len == s@.len(),
            digit_groups_len(s@, j as int) == (p - j) + digit_groups_len(s@, p as int),
        decreases s@.len() - p,
    {
        let k = span(s, p + 1, CharClass::Digit);
        p = p + 1 + k;
    }
    p - j
}

fn decimal(s: &Vec<char>, i: usize) -> (n: usize)
    requires
        i <= s@.len(),
    ensures
        n == decimal_len(s@, i as int),
        i + n <= s@.len(),
{
    let _len = s.len();
    let d = span(s, i, CharClass::Digit);
    if d == 0 {
        0
    } else {
        d + digit_groups(s, i + d)
    }
}

fn negative(s: &Vec<char>, i: usize) -> (n: usize)
    requires
        i <= s@.len(),
    ensures
        n == negative_len(s@, i as int),
        i + n <= s@.len(),
{
    let _len = s.len();
    if at(s, i, '-') {
        let d = decimal(s, i + 1);
        if d > 0 {
            return 1 + d;
        }
    }
    0
}

fn hex(s: &Vec<char>, i: usize) -> (n: usize)
    requires
        i <= s@.len(),
    ensures
        n == hex_len(s@, i as int),
        i + n <= s@.len(),
{
    let _len = s.len();
    if at(s, i, '0') && at(s, i + 1, 'x') && i + 2 < s.len() && in_class(CharClass::Hex, s[i + 2]) {
        3 + span(s, i + 3, CharClass::HexOrUnderscore)
    } else {
        0
    }
}

fn exponent(s: &Vec<char>, e: usize) -> (n: usize)
    requires
        e <= s@.len(),
    ensures
        n == exponent_len(s@, e as int),
        e + n <= s@.len(),
{
    let _len = s.len();
    if at(s, e, 'e') || at(s, e, 'E') {
        let q = if at(s, e + 1, '+') || at(s, e + 1, '-') {
            e + 2
        } else {
            e + 1
        };
        let k = span(s, q, CharClass::Digit);
        if k > 0 {
            q + k - e
        } else {
            0
        }
    } else {
        0
    }
}

fn float(s: &Vec<char>, i: usize) -> (n: usize)
    requires
        i <= s@.len(),
    ensures
        n == float_len(s@, i as int),
        i + n <= s@.len(),
{
    let _len = s.len();
    let m: usize = if at(s, i, '-') {
        1
    } else {
        0
    };
    let d = span(s, i + m, CharClass::Digit);
    let p = i + m + d;
    if d == 0 || !at(s, p, '.') {
        0
    } else {
        let f = span(s, p + 1, CharClass::Digit);
        let e = p + 1 + f;
        e + exponent(s, e) - i
    }
}

fn input_name(s: &Vec<char>, i: usize) -> (n: usize)
    requires
        i <= s@.len(),
    ensures
        n == input_name_len(s@, i as int),
        i + n <= s@.len(),
{
    let _len = s.len();
    if at(s, i, '$') && i + 1 < s.len() && is_ident_start_exec(s[i + 1]) {
        2 + span(s, i + 2, CharClass::Ident)
    } else {
        0
    }
}

fn is_ident_start_exec(c: char) -> (b: bool)
    ensures
        b == is_ident_start(c),
{
    ('a' <= c && c <= 'z') || ('A' <= c && c <= 'Z') || c == '_'
}

proof fn lemma_quoted_key_end(s: Seq<char>, j: int, q: bool, e: bool, last: int)
    requires
        0 <= j <= s.len(),
        last <= j,
    ensures
        quoted_key_end(s, j, q, e, last) <= s.len(),
        quoted_key_end(s, j, q, e, last) >= last,
    decreases s.len() - j,
{
    if !(!q && !e || j >= s.len()) {
        let c = s[j];
        let accept = q && c == '\'';
        let nq = (q && c != '\'') || (e && c == '\'');
        let ne = q && c == '\\';
        lemma_quoted_key_end(s, j + 1, nq, ne, if accept { j + 1 } else { last });
    }
}

fn key(s: &Vec<char>, i: usize) -> (n: usize)
    requires
        i <= s@.len(),
    ensures
        n == key_len(s@, i as int),
        i + n <= s@.len(),
{
    let _len = s.len();
    if at(s, i, '\'') {
        let mut j = i + 1;
        let mut q = true;
        let mut e = false;
        let mut last: Option<usize> = None;
        proof {
            lemma_quoted_key_end(s@, i + 1, true, false, -1);
        }
        while (q || e) && j < s.len()
            invariant
                i + 1 <= j <= s@.len(),
                match last {
                    Some(l) => i < l <= j,
                    None => true,
                },
                quoted_key_end(s@, (i + 1) as int, true, false, -1) == quoted_key_end(
                    s@,
                    j as int,
                    q,
                    e,
                    match last {
                        Some(l) => l as int,
                        None => -1,
                    },
                ),
            decreases s@.len() - j,
        {
            let c = s[j];
            let accept = q && c == '\'';
            let nq = (q && c != '\'') || (e && c == '\'');
            let ne = q && c == '\\';
            if accept {
                last = Some(j + 1);
            }
            q = nq;
            e = ne;
            j = j + 1;
        }
        match last {
            Some(l) => l - i,
            None => 0,
        }
    } else if i < s.len() && key_start(s[i]) {
        1 + span(s, i + 1, CharClass::KeyChar)
    } else {
        0
    }
}

fn line_comment(s: &Vec<char>, i: usize) -> (n: usize)
    requires
        i <= s@.len(),
    ensures
        n == line_comment_len(s@, i as int),
        i + n <= s@.len(),
{
    let _len = s.len();
    if at(s, i, '/') && at(s, i + 1, '/') {
        let a = 2 + span(s, i + 2, CharClass::NotNewline);
        a + span(s, i + a, CharClass::Newline)
    } else {
        0
    }
}

proof fn lemma_block_comment_end(s: Seq<char>, j: int, st: int)
    requires
        0 <= j <= s.len(),
    ensures
        block_comment_end(s, j, st) <= s.len(),
        block_comment_end(s, j, st) == -1 || block_comment_end(s, j, st) > j,
    decreases s.len() - j,
{
    if j < s.len() {
        lemma_block_comment_end(s, j + 1, 0);
        lemma_block_comment_end(s, j + 1, 1);
        lemma_block_comment_end(s, j + 1, 2);
    }
}

fn block_comment(s: &Vec<char>, i: usize) -> (n: usize)
    requires
        i <= s@.len(),
    ensures
        n == block_comment_len(s@, i as int),
        i + n <= s@.len(),
{
    let _len = s.len();
    if at(s, i, '/') && at(s, i + 1, '*') {
        let mut j = i + 2;
        let mut st: u8 = 0;
        proof {
            lemma_block_comment_end(s@, i + 2, 0);
        }
        while j < s.len()
            invariant
                i + 2 <= j <= s@.len(),
                st <= 2,
                char_at(s@, i as int, '/') && char_at(s@, i + 1, '*'),
                block_comment_end(s@, (i + 2) as int, 0) == block_comment_end(s@, j as int, st as int),
            decreases s@.len() - j,
        {
            let c = s[j];
            if st == 1 {
                if c == '/' {
                    assert(block_comment_end(s@, j as int, st as int) == j + 1);
                    return j + 1 - i;
                }
                st = 0;
            } else if st == 2 {
                if c == '*' {
                    assert(block_comment_end(s@, j as int, st as int) == -1);
                    return 0;
                }
                st = 0;
            } else if c == '*' {
                st = 1;
            } else if c == '/' {
                st = 2;
            }
            j = j + 1;
        }
        0
    } else {
        0
    }
}

/// Whether `s[i..]` starts with `w`; its length then, else 0.
fn word(s: &Vec<char>, i: usize, w: &[char]) -> (n: usize)
    requires
        i <= s@.len(),
    ensures
        n == word_len(s@, i as int, w@),
        i + n <= s@.len(),
{
    let _len = s.len();
    if w.len() > s.len() - i {
        return 0;
    }
    let mut k: usize = 0;
    while k < w.len()
        invariant
            k <= w@.len(),
            i + w@.len() <= s@.len(),
            _len == s@.len(),
            forall|m: int| 0 <= m < k ==> s@[i + m] == #[trigger] w@[m],
        decreases w@.len() - k,
    {
        if s[i + k] != w[k] {
            proof {
                assert(s@.subrange(i as int, i + w@.len())[k as int] != w@[k as int]);
            }
            return 0;
        }
        k = k + 1;
    }
    proof {
        assert(s@.subrange(i as int, i + w@.len()) =~= w@);
    }
    w.len()
}

fn ranked_lexeme_exec(k: usize) -> (l: Lexeme)
    ensures
        l == ranked_lexeme(k as int),
{
    if k == 0 {
        Lexeme::Whitespace
    } else if k == 1 {
        Lexeme::LineComment
    } else if k == 2 {
        Lexeme::BlockComment
    } else if k == 3 {
        Lexeme::Spread
    } else if k == 4 {
        Lexeme::Chain
    } else if k == 5 {
        Lexeme::Equals
    } else if k == 6 {
        Lexeme::OpenBrace
    } else if k == 7 {
        Lexeme::CloseBrace
    } else if k == 8 {
        Lexeme::OpenBracket
    } else if k == 9 {
        Lexeme::CloseBracket
    } else if k == 10 {
        Lexeme::Let
    } else if k == 11 {
        Lexeme::In
    } else if k == 12 {
        Lexeme::Null
    } else if k == 13 {
        Lexeme::True
    } else if k == 14 {
        Lexeme::False
    } else if k == 15 {
        Lexeme::Float
    } else if k == 16 {
        Lexeme::Hex
    } else if k == 17 {
        Lexeme::Negative
    } else if k == 18 {
        Lexeme::Decimal
    } else if k == 19 {
        Lexeme::InputName
    } else {
        Lexeme::Quote
    }
}

/// The length of the longest match of `l` at `i`.
fn lexeme_length(s: &Vec<char>, i: usize, l: Lexeme) -> (n: usize)
    requires
        i <= s@.len(),
    ensures
        n == lexeme_len(s@, i as int, l),
        i + n <= s@.len(),
{
    match l {
        Lexeme::Whitespace => span(s, i, CharClass::Whitespace),
        Lexeme::LineComment => line_comment(s, i),
        Lexeme::BlockComment => block_comment(s, i),
        Lexeme::Spread => {
            let w = ['.', '.'];
            proof {
                assert(w@ =~= seq!['.', '.']);
            }
            word(s, i, &w)
        },
        Lexeme::Chain => {
            let w = ['.'];
            proof {
                assert(w@ =~= seq!['.']);
            }
            word(s, i, &w)
        },
        Lexeme::Equals => {
            let w = ['='];
            proof {
                assert(w@ =~= seq!['=']);
            }
            word(s, i, &w)
        },
        Lexeme::OpenBrace => {
            let w = ['{'];
            proof {
                assert(w@ =~= seq!['{']);
            }
            word(s, i, &w)
        },
        Lexeme::CloseBrace => {
            let w = ['}'];
            proof {
                assert(w@ =~= seq!['}']);
            }
            word(s, i, &w)
        },
        Lexeme::OpenBracket => {
            let w = ['['];
            proof {
                assert(w@ =~= seq!['[']);
            }
            word(s, i, &w)
        },
        Lexeme::CloseBracket => {
            let w = [']'];
            proof {
                assert(w@ =~= seq![']']);
            }
            word(s, i, &w)
        },
        Lexeme::Let => {
            let w = ['l', 'e', 't'];
            proof {
                assert(w@ =~= seq!['l', 'e', 't']);
            }
            word(s, i, &w)
        },
        Lexeme::In => {
            let w = ['i', 'n'];
            proof {
                assert(w@ =~= seq!['i', 'n']);
            }
            word(s, i, &w)
        },
        Lexeme::Null => {
            let w = ['n', 'u', 'l', 'l'];
            proof {
                assert(w@ =~= seq!['n', 'u', 'l', 'l']);
            }
            word(s, i, &w)
        },
        Lexeme::True => {
            let w = ['t', 'r', 'u', 'e'];
            proof {
                assert(w@ =~= seq!['t', 'r', 'u', 'e']);
            }
            word(s, i, &w)
        },
        Lexeme::False => {
            let w = ['f', 'a', 'l', 's', 'e'];
            proof {
                assert(w@ =~= seq!['f', 'a', 'l', 's', 'e']);
            }
            word(s, i, &w)
        },
        Lexeme::Float => float(s, i),
        Lexeme::Hex => hex(s, i),
        Lexeme::Negative => negative(s, i),
        Lexeme::Decimal => decimal(s, i),
        Lexeme::InputName => input_name(s, i),
        Lexeme::Quote => {
            let w = ['"'];
            proof {
                assert(w@ =~= seq!['"']);
            }
            word(s, i, &w)
        },
        Lexeme::Key => key(s, i),
    }
}

proof fn lemma_longest_ranked(s: Seq<char>, i: int, k: int)
    ensures
        longest_ranked(s, i, k).1 == 0 || longest_ranked(s, i, k).1 == lexeme_len(
            s,
            i,
            longest_ranked(s, i, k).0,
        ),
    decreases k,
{
    if k > 0 {
        lemma_longest_ranked(s, i, k - 1);
    }
}

/// The lexeme at `i`, as [`next_lexeme`] says.
fn find_lexeme(s: &Vec<char>, i: usize) -> (r: Option<(Lexeme, usize)>)
    requires
        i <= s@.len(),
    ensures
        match next_lexeme(s@, i as int) {
            Some((l, n)) => r == Some((l, n as usize)) && i + n <= s@.len() && n == lexeme_len(s@, i as int, l),
            None => r is None,
        },
{
    proof {
        lemma_longest_ranked(s@, i as int, 21);
    }
    let mut best_l = Lexeme::Whitespace;
    let mut best_n: usize = 0;
    let mut k: usize = 0;
    while k < 21
        invariant
            k <= 21,
            i <= s@.len(),
            longest_ranked(s@, i as int, k as int) == (best_l, best_n as nat),
            i + best_n <= s@.len(),
        decreases 21 - k,
    {
        let l = ranked_lexeme_exec(k);
        let n = lexeme_length(s, i, l);
        if n > best_n {
            best_l = l;
            best_n = n;
        }
        k = k + 1;
    }
    let kn = key(s, i);
    if best_n > 0 && best_n >= kn {
        Some((best_l, best_n))
    } else if kn > 0 {
        Some((Lexeme::Key, kn))
    } else {
        None
    }
}

/// 2^64: numbers are tracked exactly up to this bound.
spec fn cap() -> nat {
    0x1_0000_0000_0000_0000
}

spec fn capped(v: nat) -> nat {
    if v < cap() {
        v
    } else {
        cap()
    }
}

proof fn lemma_capped_step(v: nat, r: nat, d: nat)
    requires
        1 <= r <= 16,
        d < 16,
    ensures
        capped(v * r + d) == capped(capped(v) * r + d),
{
    if v >= cap() {
        assert(v * r >= v) by (nonlinear_arith)
            requires
                r >= 1,
        ;
        assert(cap() * r >= cap()) by (nonlinear_arith)
            requires
                r >= 1,
        ;
    }
}

fn digit_value_exec(c: char) -> (d: u128)
    ensures
        d == digit_value(c),
        d < 16,
{
    if '0' <= c && c <= '9' {
        (c as u32 - '0' as u32) as u128
    } else if 'a' <= c && c <= 'f' {
        (c as u32 - 'a' as u32 + 10) as u128
    } else if 'A' <= c && c <= 'F' {
        (c as u32 - 'A' as u32 + 10) as u128
    } else {
        0
    }
}

/// The number written in `s[start..end]`, up to 2^64.
fn number_value_capped(s: &Vec<char>, start: usize, end: usize, radix: u128) -> (r: u128)
    requires
        start <= end <= s@.len(),
        radix == 10 || radix == 16,
    ensures
        r == capped(number_value(s@.subrange(start as int, end as int), radix as nat)),
{
    let mut acc: u128 = 0;
    let mut k = start;
    proof {
        assert(s@.subrange(start as int, start as int) =~= Seq::<char>::empty());
    }
    while k < end
        invariant
            start <= k <= end <= s@.len(),
            radix == 10 || radix == 16,
            acc == capped(number_value(s@.subrange(start as int, k as int), radix as nat)),
        decreases end - k,
    {
        let ghost t = s@.subrange(start as int, k + 1);
        proof {
            assert(t.drop_last() =~= s@.subrange(start as int, k as int));
            assert(t.last() == s@[k as int]);
        }
        let c = s[k];
        if c != '_' {
            let d = digit_value_exec(c);
            proof {
                lemma_capped_step(number_value(s@.subrange(start as int, k as int), radix as nat), radix as nat, d as nat);
                assert(acc <= cap());
                assert(acc * radix <= cap() * 16) by (nonlinear_arith)
                    requires
                        acc <= cap(),
                        radix <= 16,
                ;
            }
            let v = acc * radix + d;
            acc = if v < 0x1_0000_0000_0000_0000 {
                v
            } else {
                0x1_0000_0000_0000_0000
            };
        }
        k = k + 1;
    }
    acc
}

/// The value of an integer lexeme, as [`integer_token`] says.
fn integer_value(s: &Vec<char>, i: usize, n: usize, l: Lexeme) -> (r: Result<Integer, LexicalError>)
    requires
        i + n <= s@.len(),
        l == Lexeme::Decimal || l == Lexeme::Negative || l == Lexeme::Hex,
        l == Lexeme::Negative ==> n >= 1,
        l == Lexeme::Hex ==> n >= 2,
    ensures
        r == integer_token(s@, i as int, n as nat, l),
{
    let _len = s.len();
    let ghost text = s@.subrange(i as int, i + n);
    match l {
        Lexeme::Decimal => {
            let v = number_value_capped(s, i, i + n, 10);
            if v <= 0x7FFF_FFFF_FFFF_FFFF {
                Ok(Integer::from_u64(v as u64))
            } else {
                Err(LexicalError::InvalidInteger(IntErrorKind::PosOverflow))
            }
        },
        Lexeme::Negative => {
            proof {
                assert(text.drop_first() =~= s@.subrange(i + 1, i + n));
            }
            let v = number_value_capped(s, i + 1, i + n, 10);
            if v <= 0x8000_0000_0000_0000 {
                let x: i64 = if v == 0x8000_0000_0000_0000 {
                    i64::MIN
                } else {
                    0 - (v as i64)
                };
                Ok(Integer::from_i64(x))
            } else {
                Err(LexicalError::InvalidInteger(IntErrorKind::NegOverflow))
            }
        },
        _ => {
            proof {
                assert(text.skip(2) =~= s@.subrange(i + 2, i + n));
            }
            let v = number_value_capped(s, i + 2, i + n, 16);
            if v <= 0x7FFF_FFFF_FFFF_FFFF {
                Ok(Integer::from_i64(v as i64))
            } else {
                Err(LexicalError::InvalidInteger(IntErrorKind::PosOverflow))
            }
        },
    }
}

/// `s[lo..hi]` with every `\'` replaced by `'`.
fn unescape_range(s: &Vec<char>, lo: usize, hi: usize) -> (out: String)
    requires
        lo <= hi <= s@.len(),
    ensures
        out@ == unescape_quotes(s@.subrange(lo as int, hi as int)),
{
    let ghost u = s@.subrange(lo as int, hi as int);
    let mut out = String::new();
    let mut k = lo;
    while k < hi
        invariant
            lo <= k <= hi <= s@.len(),
            u == s@.subrange(lo as int, hi as int),
            unescape_quotes(u) == out@ + unescape_quotes(s@.subrange(k as int, hi as int)),
        decreases hi - k,
    {
        let ghost v = s@.subrange(k as int, hi as int);
        if s[k] == '\\' && k + 1 < hi && s[k + 1] == '\'' {
            proof {
                assert(v[0] == s@[k as int] && v[1] == s@[k + 1]);
                assert(v.skip(2) =~= s@.subrange(k + 2, hi as int));
            }
            string_push(&mut out, '\'');
            k = k + 2;
        } else {
            proof {
                assert(v[0] == s@[k as int]);
                if v.len() >= 2 {
                    assert(v[1] == s@[k + 1]);
                }
                assert(v.drop_first() =~= s@.subrange(k + 1, hi as int));
            }
            string_push(&mut out, s[k]);
            k = k + 1;
        }
        proof {
            assert(unescape_quotes(u) =~= out@ + unescape_quotes(s@.subrange(k as int, hi as int)));
        }
    }
    proof {
        assert(s@.subrange(hi as int, hi as int) =~= Seq::<char>::empty());
        assert(out@ =~= out@ + unescape_quotes(s@.subrange(hi as int, hi as int)));
    }
    out
}

/// A key segment with every `\'` replaced by `'`.
pub fn unescape_key(segment: &str) -> (out: String)
    ensures
        out@ == unescape_quotes(segment@),
{
    let chars = crate::text::chars_of(segment);
    proof {
        assert(chars@.subrange(0, chars@.len() as int) =~= chars@);
    }
    unescape_range(&chars, 0, chars.len())
}

/// The text of the key lexeme `s[i..i + n]`.
fn key_text_exec(s: &Vec<char>, i: usize, n: usize) -> (r: String)
    requires
        i + n <= s@.len(),
        n >= 1,
    ensures
        r@ == key_text(s@.subrange(i as int, i + n)),
{
    let _len = s.len();
    let ghost t = s@.subrange(i as int, i + n);
    if s[i] != '\'' {
        return string_from_range(s, i, i + n);
    }
    let mut lo = i;
    let mut hi = i + n;
    while lo < hi && s[lo] == '\''
        invariant
            i <= lo <= hi,
            hi == i + n,
            i + n <= s@.len(),
            trim_quotes(t) == trim_quotes(s@.subrange(lo as int, hi as int)),
        decreases hi - lo,
    {
        proof {
            assert(s@.subrange(lo as int, hi as int).drop_first() =~= s@.subrange(lo + 1, hi as int));
        }
        lo = lo + 1;
    }
    while hi > lo && s[hi - 1] == '\''
        invariant
            i <= lo <= hi <= i + n,
            i + n <= s@.len(),
            lo < hi ==> s@[lo as int] != '\'',
            trim_quotes(t) == trim_quotes(s@.subrange(lo as int, hi as int)),
        decreases hi - lo,
    {
        proof {
            let u = s@.subrange(lo as int, hi as int);
            assert(u[0] == s@[lo as int]);
            assert(u.drop_last() =~= s@.subrange(lo as int, hi - 1));
        }
        hi = hi - 1;
    }
    proof {
        let u = s@.subrange(lo as int, hi as int);
        if lo < hi {
            assert(u[0] == s@[lo as int]);
            assert(u.last() == s@[hi - 1]);
        }
        assert(trim_quotes(u) == u);
    }
    unescape_range(s, lo, hi)
}

/// One step of reading a string literal, as computed.
enum Step {
    Quote,
    Content(usize),
    Escape(char),
    Unicode(u128),
    Interpolation(usize),
    Invalid(usize),
}

spec fn step_matches(x: Step, y: StrStep) -> bool {
    match (x, y) {
        (Step::Quote, StrStep::Quote) => true,
        (Step::Content(a), StrStep::Content(b)) => a == b,
        (Step::Escape(a), StrStep::Escape(b)) => a == b,
        (Step::Unicode(a), StrStep::Unicode(b)) => a == b,
        (Step::Interpolation(a), StrStep::Interpolation(b)) => a == b,
        (Step::Invalid(a), StrStep::Invalid(b)) => a == b,
        _ => false,
    }
}

fn escape_char_exec(c: char) -> (r: Option<char>)
    ensures
        r == escape_char(c),
{
    if c == 'n' {
        Some('\n')
    } else if c == 'r' {
        Some('\r')
    } else if c == 't' {
        Some('\t')
    } else if c == '\\' || c == '"' || c == '$' || c == '{' || c == '}' {
        Some(c)
    } else {
        None
    }
}

/// The step at `j`, as [`str_step`] says.
fn string_step(s: &Vec<char>, j: usize) -> (r: Step)
    requires
        j < s@.len(),
    ensures
        step_matches(r, str_step(s@, j as int)),
        match r {
            Step::Content(n) => 0 < n && j + n <= s@.len(),
            Step::Escape(_) => j + 2 <= s@.len(),
            Step::Unicode(code) => j + 6 <= s@.len() && code < 0x10000,
            Step::Interpolation(k) => k >= 1 && j + 3 + k <= s@.len(),
            Step::Invalid(n) => n >= 1 && j + n <= s@.len(),
            Step::Quote => true,
        },
{
    let _len = s.len();
    let c = s[j];
    if c == '"' {
        Step::Quote
    } else if c != '$' && c != '\\' && c != '{' {
        Step::Content(span(s, j, CharClass::Content))
    } else if c == '\\' {
        if j + 1 >= s.len() {
            Step::Invalid(1)
        } else if s[j + 1] == 'u' {
            let h = span(s, j + 2, CharClass::Hex);
            if h >= 4 {
                let code = number_value_capped(s, j + 2, j + 6, 16);
                proof {
                    lemma_span_while(s@, j + 2, hex_pred());
                    lemma_four_hex_digits(s@.subrange(j + 2, j + 6));
                }
                Step::Unicode(code)
            } else {
                Step::Invalid(2 + h)
            }
        } else {
            match escape_char_exec(s[j + 1]) {
                Some(e) => Step::Escape(e),
                None => Step::Invalid(1),
            }
        }
    } else if c == '$' {
        if at(s, j + 1, '{') {
            if j + 2 < s.len() && is_ident_start_exec(s[j + 2]) {
                let k = span(s, j + 3, CharClass::Ident);
                if at(s, j + 3 + k, '}') {
                    Step::Interpolation(k + 1)
                } else {
                    Step::Invalid(3 + k)
                }
            } else {
                Step::Invalid(2)
            }
        } else {
            Step::Invalid(1)
        }
    } else {
        Step::Invalid(1)
    }
}

proof fn lemma_four_hex_digits(t: Seq<char>)
    requires
        t.len() == 4,
    ensures
        number_value(t, 16) < 0x10000,
{
    let t3 = t.drop_last();
    let t2 = t3.drop_last();
    let t1 = t2.drop_last();
    let t0 = t1.drop_last();
    assert(t0.len() == 0);
    assert(number_value(t0, 16) == 0);
    assert(number_value(t1, 16) < 16);
    assert(number_value(t2, 16) < 256);
    assert(number_value(t3, 16) < 4096);
    assert(number_value(t, 16) < 65536);
}

proof fn lemma_char_code_injective(c: char, d: char)
    requires
        c as u32 == d as u32,
    ensures
        c == d,
{
}

/// Converts a code point with `char::from_u32`.
/// Claimed: `None` exactly for surrogates and values above U+10FFFF, and
/// otherwise the character with that code.
#[verifier::external_body]
fn char_from_u32(code: u32) -> (r: Option<char>)
    ensures
        r is Some == (code < 0xD800 || (0xE000 <= code && code <= 0x10FFFF)),
        r matches Some(c) ==> c as u32 == code,
{
    char::from_u32(code)
}

/// The parts with the pending text `cur` added, if there is any.
fn flush(parts: &mut Vec<StringPart>, cur: String)
    ensures
        parts_view(final(parts)@) == flush_literal(parts_view(old(parts)@), cur@),
{
    if !cur.as_str().is_empty() {
        let ghost before = parts@;
        parts.push(StringPart::Literal(cur));
        proof {
            assert(parts@.drop_last() =~= before);
        }
    }
}

/// Reads a string literal whose text starts at `start`, as [`scan_literal`] says.
fn scan_string(s: &Vec<char>, start: usize) -> (r: (Vec<StringPart>, usize))
    requires
        start <= s@.len(),
    ensures
        scan_literal(s@, start as int, seq![], seq![]) == (parts_view(r.0@), r.1 as int),
        start <= r.1 <= s@.len(),
{
    let _len = s.len();
    let mut parts: Vec<StringPart> = Vec::new();
    let mut cur = String::new();
    let mut j = start;
    proof {
        assert(parts_view(parts@) =~= Seq::<SPart>::empty());
    }
    while j < s.len()
        invariant
            start <= j <= s@.len(),
            _len == s@.len(),
            scan_literal(s@, start as int, seq![], seq![]) == scan_literal(s@, j as int, parts_view(parts@), cur@),
        decreases s@.len() - j,
    {
        match string_step(s, j) {
            Step::Quote => {
                flush(&mut parts, cur);
                return (parts, j + 1);
            },
            Step::Content(n) => {
                let ghost before = cur@;
                let mut k = j;
                let end = j + n;
                while k < end
                    invariant
                        j <= k <= end <= s@.len(),
                        end == j + n,
                        cur@ == before + s@.subrange(j as int, k as int),
                    decreases end - k,
                {
                    string_push(&mut cur, s[k]);
                    proof {
                        assert(s@.subrange(j as int, k + 1) =~= s@.subrange(j as int, k as int).push(s@[k as int]));
                    }
                    k = k + 1;
                }
                j = j + n;
            },
            Step::Escape(c) => {
                string_push(&mut cur, c);
                j = j + 2;
            },
            Step::Unicode(code) => {
                let c = match char_from_u32(code as u32) {
                    Some(c) => c,
                    None => '\u{FFFD}',
                };
                proof {
                    if code < 0xD800 || (0xE000 <= code && code <= 0x10FFFF) {
                        assert(c as u32 == code);
                        assert(char_code(c) == code as nat);
                        let d = choose|d: char| #[trigger] char_code(d) == code as nat;
                        assert(d as u32 == c as u32);
                        lemma_char_code_injective(c, d);
                        assert(unicode_char(code as nat) == c);
                    }
                }
                string_push(&mut cur, c);
                j = j + 6;
            },
            Step::Interpolation(k) => {
                flush(&mut parts, cur);
                cur = String::new();
                let name = string_from_range(s, j + 2, j + 2 + k);
                let ghost before = parts@;
                parts.push(StringPart::Input(name));
                proof {
                    assert(parts@.drop_last() =~= before);
                }
                j = j + 3 + k;
            },
            Step::Invalid(n) => {
                flush(&mut parts, cur);
                return (parts, j + n);
            },
        }
    }
    flush(&mut parts, cur);
    (parts, j)
}

/// The token of lexeme `l` found at `i` with length `n`, as [`simple_token`] says.
fn make_token(s: &Vec<char>, i: usize, l: Lexeme, n: usize) -> (r: Result<Token, LexicalError>)
    requires
        i + n <= s@.len(),
        n > 0,
        n == lexeme_len(s@, i as int, l),
        !is_skipped(l),
        l != Lexeme::Quote,
    ensures
        match simple_token(s@, i as int, l, n as nat) {
            Ok(t) => r matches Ok(x) && x@ == t,
            Err(e) => r == Err::<Token, LexicalError>(e),
        },
{
    let _len = s.len();
    match l {
        Lexeme::Spread => Ok(Token::Spread),
        Lexeme::Chain => Ok(Token::Chain),
        Lexeme::Equals => Ok(Token::Equals),
        Lexeme::OpenBrace => Ok(Token::OpenBrace),
        Lexeme::CloseBrace => Ok(Token::CloseBrace),
        Lexeme::OpenBracket => Ok(Token::OpenBracket),
        Lexeme::CloseBracket => Ok(Token::CloseBracket),
        Lexeme::Let => Ok(Token::Let),
        Lexeme::In => Ok(Token::In),
        Lexeme::Null => Ok(Token::Null),
        Lexeme::True => Ok(Token::Boolean(true)),
        Lexeme::False => Ok(Token::Boolean(false)),
        Lexeme::Float => Ok(Token::Float(string_from_range(s, i, i + n))),
        Lexeme::InputName => Ok(Token::InputName(string_from_range(s, i + 1, i + n))),
        Lexeme::Key => Ok(Token::Key(key_text_exec(s, i, n))),
        _ => match integer_value(s, i, n, l) {
            Ok(v) => Ok(Token::Integer(v)),
            Err(e) => Err(e),
        },
    }
}

/// The byte offset of the character position `to`, from that of `from`.
fn add_bytes(s: &Vec<char>, from: usize, to: usize, acc: usize) -> (r: usize)
    requires
        from <= to <= s@.len(),
        acc == byte_offset(s@, from as int),
    ensures
        r == byte_offset(s@, to as int),
{
    let mut total = acc;
    let mut k = from;
    while k < to
        invariant
            from <= k <= to <= s@.len(),
            total == byte_offset(s@, k as int),
        decreases to - k,
    {
        proof {
            assert(s@.take(k + 1).drop_last() =~= s@.take(k as int));
            assert(s@.take(k + 1).last() == s@[k as int]);
        }
        total = total.saturating_add(len_utf8(s[k]));
        k = k + 1;
    }
    total
}

/// Splits a text into tokens, one token at a time.
pub struct Lexer {
    chars: Vec<char>,
    pos: usize,
    byte_pos: usize,
}

impl Lexer {
    /// The text being split.
    pub closed spec fn source(&self) -> Seq<char> {
        self.chars@
    }

    /// The position, in characters, where the next token is looked for.
    pub closed spec fn position(&self) -> int {
        self.pos as int
    }

    /// The position lies inside the text, and the byte position is its offset.
    pub closed spec fn wf(&self) -> bool {
        &&& self.pos <= self.chars@.len()
        &&& self.byte_pos == byte_offset(self.chars@, self.pos as int)
    }

    /// A lexer at the start of `input`.
    pub fn new(input: &str) -> (l: Lexer)
        ensures
            l.source() == input@,
            l.position() == 0,
            l.wf(),
    {
        let chars = crate::text::chars_of(input);
        proof {
            assert(chars@.take(0) =~= Seq::<char>::empty());
        }
        Lexer { chars, pos: 0, byte_pos: 0 }
    }

    /// The next token with its start and end (byte offsets into the text),
    /// or the next lexical error, or `None` at the end of the text.  What is
    /// returned is the head of [`lex_from`] at the current position.  After an
    /// invalid token the lexer is at the end of the text; after an integer
    /// that does not fit, right behind it.
    pub fn next_token(&mut self) -> (r: Option<Result<(usize, Token, usize), LexicalError>>)
        requires
            old(self).wf(),
        ensures
            final(self).wf(),
            final(self).source() == old(self).source(),
            r is None ==> lex_from(old(self).source(), old(self).position()) == LexResult::Tokens(
                seq![],
            ),
            r matches Some(Ok((_, t, _))) ==> lex_from(old(self).source(), old(self).position())
                == prepend_token(t@, lex_from(final(self).source(), final(self).position())),
            r matches Some(Err(e)) ==> lex_from(old(self).source(), old(self).position())
                == LexResult::Failed(seq![], e),
            r is Some ==> final(self).position() > old(self).position(),
            r matches Some(Ok((a, _, b))) ==> {
                let sp = lex_spans_from(old(self).source(), old(self).position());
                &&& sp.len() > 0
                &&& sp.drop_first() == lex_spans_from(final(self).source(), final(self).position())
                &&& a == byte_offset(old(self).source(), sp[0].0)
                &&& b == byte_offset(old(self).source(), sp[0].1)
            },
            !(r matches Some(Ok(_))) ==> lex_spans_from(old(self).source(), old(self).position()) == Seq::<
                (int, int),
            >::empty(),
    {
        let _len = self.chars.len();
        let ghost s = self.chars@;
        let ghost p0 = self.pos as int;
        while self.pos < self.chars.len()
            invariant
                self.pos <= s.len(),
                s == self.chars@,
                s == old(self).source(),
                p0 == old(self).position(),
                _len == s.len(),
                p0 <= self.pos,
                lex_from(s, p0) == lex_from(s, self.pos as int),
                lex_spans_from(s, p0) == lex_spans_from(s, self.pos as int),
                self.byte_pos == byte_offset(s, self.pos as int),
            decreases s.len() - self.pos,
        {
            let i = self.pos;
            match find_lexeme(&self.chars, i) {
                None => {
                    assert(next_lexeme(s, i as int) is None);
                    assert(lex_from(s, i as int) == LexResult::Failed(seq![], LexicalError::InvalidToken));
                    self.byte_pos = add_bytes(&self.chars, i, self.chars.len(), self.byte_pos);
                    self.pos = self.chars.len();
                    return Some(Err(LexicalError::InvalidToken));
                },
                Some((l, n)) => {
                    let start = self.byte_pos;
                    proof {
                        assert(seq![(i as int, (i + n) as int)].drop_first() =~= Seq::<(int, int)>::empty());
                    }
                    if l == Lexeme::Whitespace || l == Lexeme::LineComment || l == Lexeme::BlockComment {
                        self.byte_pos = add_bytes(&self.chars, i, i + n, self.byte_pos);
                        self.pos = i + n;
                    } else if l == Lexeme::Quote {
                        let (parts, end) = scan_string(&self.chars, i + 1);
                        self.byte_pos = add_bytes(&self.chars, i, end, self.byte_pos);
                        self.pos = end;
                        return Some(Ok((start, Token::Literal(parts), self.byte_pos)));
                    } else {
                        self.byte_pos = add_bytes(&self.chars, i, i + n, self.byte_pos);
                        self.pos = i + n;
                        match make_token(&self.chars, i, l, n) {
                            Ok(t) => {
                                return Some(Ok((start, t, self.byte_pos)));
                            },
                            Err(e) => {
                                return Some(Err(e));
                            },
                        }
                    }
                },
            }
        }
        None
    }
}

/// The tokens of a text up to its first lexical error, with their byte
/// offsets, and that error if there is one.
pub fn tokenize(input: &str) -> (r: (Vec<(usize, Token, usize)>, Option<LexicalError>))
    ensures
        match lex(input@) {
            LexResult::Tokens(ts) => r.1 is None && tokens_view(r.0@) == ts,
            LexResult::Failed(ts, e) => r.1 == Some(e) && tokens_view(r.0@) == ts,
        },
        r.0@.len() == lex_spans(input@).len(),
        forall|k: int| 0 <= k < r.0@.len() ==> (#[trigger] r.0@[k]).0 == byte_offset(input@, lex_spans(input@)[k].0)
            && r.0@[k].2 == byte_offset(input@, lex_spans(input@)[k].1),
{
    let mut lexer = Lexer::new(input);
    let mut out: Vec<(usize, Token, usize)> = Vec::new();
    let ghost s = input@;
    let ghost mut pre: Seq<(int, int)> = seq![];
    proof {
        assert(pre + lex_spans_from(s, 0) =~= lex_spans_from(s, 0));
    }
    loop
        invariant
            lexer.wf(),
            lexer.source() == s,
            s == input@,
            lex(s) == prepend_tokens(tokens_view(out@), lex_from(s, lexer.position())),
            lex_spans(s) == pre + lex_spans_from(s, lexer.position()),
            pre.len() == out@.len(),
            forall|k: int| 0 <= k < out@.len() ==> (#[trigger] out@[k]).0 == byte_offset(s, pre[k].0) && out@[k].2
                == byte_offset(s, pre[k].1),
        decreases s.len() - lexer.position(),
    {
        let ghost before = out@;
        let ghost p = lexer.position();
        match lexer.next_token() {
            None => {
                proof {
                    assert(lex_from(s, p) == LexResult::Tokens(seq![]));
                    assert(tokens_view(out@) + seq![] =~= tokens_view(out@));
                    assert(pre + Seq::<(int, int)>::empty() =~= pre);
                }
                return (out, None);
            },
            Some(Ok(t)) => {
                out.push(t);
                proof {
                    assert(out@.drop_last() =~= before);
                    lemma_prepend_tokens(tokens_view(before), t.1@, lex_from(s, lexer.position()));
                    let sp = lex_spans_from(s, p);
                    assert(sp =~= seq![sp[0]] + sp.drop_first());
                    assert(pre + sp =~= pre.push(sp[0]) + lex_spans_from(s, lexer.position()));
                    pre = pre.push(sp[0]);
                }
            },
            Some(Err(e)) => {
                proof {
                    assert(lex_from(s, p) == LexResult::Failed(seq![], e));
                    assert(tokens_view(out@) + seq![] =~= tokens_view(out@));
                    assert(pre + Seq::<(int, int)>::empty() =~= pre);
                }
                return (out, Some(e));
            },
        }
    }
}

/// The views of spanned tokens.
pub open spec fn tokens_view(s: Seq<(usize, Token, usize)>) -> Seq<SToken>
    decreases s.len(),
{
    if s.len() == 0 {
        seq![]
    } else {
        tokens_view(s.drop_last()).push(s.last().1@)
    }
}

pub proof fn lemma_tokens_view(s: Seq<(usize, Token, usize)>)
    ensures
        tokens_view(s).len() == s.len(),
        forall|i: int| 0 <= i < s.len() ==> #[trigger] tokens_view(s)[i] == s[i].1@,
    decreases s.len(),
{
    if s.len() > 0 {
        lemma_tokens_view(s.drop_last());
    }
}

/// Tokens put in front of a lexing result.
pub open spec fn prepend_tokens(ts: Seq<SToken>, r: LexResult) -> LexResult {
    match r {
        LexResult::Tokens(rest) => LexResult::Tokens(ts + rest),
        LexResult::Failed(pre, e) => LexResult::Failed(ts + pre, e),
    }
}

proof fn lemma_prepend_tokens(ts: Seq<SToken>, t: SToken, r: LexResult)
    ensures
        prepend_tokens(ts, prepend_token(t, r)) == prepend_tokens(ts.push(t), r),
{
    match r {
        LexResult::Tokens(rest) => {
            assert(ts + (seq![t] + rest) =~= ts.push(t) + rest);
        },
        LexResult::Failed(pre, e) => {
            assert(ts + (seq![t] + pre) =~= ts.push(t) + pre);
        },
    }
}

} // verus!
