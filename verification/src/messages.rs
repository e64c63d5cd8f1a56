use vstd::prelude::*;
use crate::ast::{Root, strings_view};
use crate::error::{Error, LexicalError, SError, lexical_error_message};
use crate::integer::decimal_text;
use crate::lexer::{SPart, SToken, StringPart, Token, lemma_parts_view, lemma_tokens_view, part_view, parts_view, tokens_view};
use crate::parser::{Expected, Parsed, Terminal, expected_terminals, parse_root_spec, parse_tokens, terminal_name};

verus! {

// ---------------------------------------------------------------------------
// How tokens and syntax errors are shown.

/// The text of a part of a string literal; an interpolated input is shown by its bare name.
pub open spec fn part_text(p: SPart) -> Seq<char> {
    match p {
        SPart::Literal(s) => s,
        SPart::Input(n) => n,
    }
}

/// The texts of the parts of a string literal, one after the other.
pub open spec fn parts_text(parts: Seq<SPart>) -> Seq<char>
    decreases parts.len(),
{
    if parts.len() == 0 {
        seq![]
    } else {
        parts_text(parts.drop_last()) + part_text(parts.last())
    }
}

/// How a token is shown in error messages.
pub open spec fn token_text(t: SToken) -> Seq<char> {
    match t {
        SToken::Let => "let"@,
        SToken::In => "in"@,
        SToken::Null => "null"@,
        SToken::Equals => "="@,
        SToken::OpenBrace => "{"@,
        SToken::CloseBrace => "}"@,
        SToken::OpenBracket => "["@,
        SToken::CloseBracket => "]"@,
        SToken::Chain => "."@,
        SToken::Spread => ".."@,
        SToken::Boolean(b) => if b {
            "true"@
        } else {
            "false"@
        },
        SToken::Integer(i) => decimal_text(i.value()),
        SToken::Float(f) => f,
        SToken::InputName(n) => n,
        SToken::Literal(parts) => parts_text(parts),
        SToken::Key(k) => k,
    }
}

/// The names of the terminals that were expected.
pub open spec fn expected_names(x: Expected) -> Seq<Seq<char>> {
    expected_terminals(x).map_values(|k: Terminal| terminal_name(k))
}

/// The rest of a list of expected names, from the one at `i` on.
pub open spec fn expected_tail(names: Seq<Seq<char>>, i: int) -> Seq<char>
    decreases names.len() - i,
{
    if i < 1 || i >= names.len() {
        seq![]
    } else {
        (if i < names.len() - 1 {
            ","@
        } else {
            " or"@
        }) + " "@ + names[i] + expected_tail(names, i + 1)
    }
}

/// The line that lists what was expected, or nothing when nothing was.
pub open spec fn expected_text(names: Seq<Seq<char>>) -> Seq<char> {
    if names.len() == 0 {
        seq![]
    } else {
        "\nExpected one of "@ + names[0] + expected_tail(names, 1)
    }
}

/// The message for a token that cannot continue the text.
pub open spec fn unrecognized_token_text(start: int, token: Seq<char>, end: int, names: Seq<Seq<char>>) -> Seq<char> {
    "Unrecognized token `"@ + token + "` found at "@ + decimal_text(start) + ":"@ + decimal_text(end)
        + expected_text(names)
}

/// The message for a text that ends too early.
pub open spec fn unrecognized_eof_text(location: int, names: Seq<Seq<char>>) -> Seq<char> {
    "Unrecognized EOF found at "@ + decimal_text(location) + expected_text(names)
}

/// Where the text ended: the end of its last token, or 0 without tokens.
pub open spec fn end_location(toks: Seq<(usize, Token, usize)>) -> int {
    if toks.len() == 0 {
        0
    } else {
        toks.last().2 as int
    }
}

/// Why the spanned tokens `toks`, read up to the lexical error `lex_error`
/// if there is one, are not a configuration, or `None` when they are one.
/// The tokens are read one at a time: a token that cannot continue the text is
/// reported even when a lexical error follows it.
pub open spec fn failure_message(toks: Seq<(usize, Token, usize)>, lex_error: Option<LexicalError>) -> Option<Seq<char>> {
    let t = tokens_view(toks);
    match parse_root_spec(t) {
        Parsed::Stuck(i, x) => if 0 <= i < t.len() {
            Some(unrecognized_token_text(toks[i].0 as int, token_text(t[i]), toks[i].2 as int, expected_names(x)))
        } else {
            match lex_error {
                Some(e) => Some(lexical_error_message(e)),
                None => Some(unrecognized_eof_text(end_location(toks), expected_names(x))),
            }
        },
        Parsed::Done(_, _) => match lex_error {
            Some(e) => Some(lexical_error_message(e)),
            None => None,
        },
    }
}

// ---------------------------------------------------------------------------
// The messages of the parser generator's error type.

/// Formats an "unrecognized token" `lalrpop_util::ParseError` with its `Display` impl.
/// Claimed: the text is the token, its span and the expected terminals, laid out as
/// [`unrecognized_token_text`] says.
#[verifier::external_body]
fn unrecognized_token_message(start: usize, token: String, end: usize, expected: Vec<String>) -> (m: String)
    ensures
        m@ == unrecognized_token_text(start as int, token@, end as int, strings_view(expected@)),
{
    let e: lalrpop_util::ParseError<usize, String, String> = lalrpop_util::ParseError::UnrecognizedToken {
        token: (start, token, end),
        expected,
    };
    e.to_string()
}

/// Formats an "unrecognized end of input" `lalrpop_util::ParseError` with its `Display` impl.
/// Claimed: the text is the location and the expected terminals, laid out as
/// [`unrecognized_eof_text`] says.
#[verifier::external_body]
fn unrecognized_eof_message(location: usize, expected: Vec<String>) -> (m: String)
    ensures
        m@ == unrecognized_eof_text(location as int, strings_view(expected@)),
{
    let e: lalrpop_util::ParseError<usize, String, String> = lalrpop_util::ParseError::UnrecognizedEof {
        location,
        expected,
    };
    e.to_string()
}

/// Formats a user error of `lalrpop_util::ParseError` with its `Display` impl.
/// Claimed: the text is the error's own text.
#[verifier::external_body]
fn user_error_message(error: String) -> (m: String)
    ensures
        m@ == error@,
{
    let e: lalrpop_util::ParseError<usize, String, String> = lalrpop_util::ParseError::User { error };
    e.to_string()
}

// ---------------------------------------------------------------------------
// Building the messages.

/// The name of a terminal, as [`terminal_name`] says.
pub fn terminal_name_text(k: Terminal) -> (s: String)
    ensures
        s@ == terminal_name(k),
{
    match k {
        Terminal::Let => String::from_str("\"let\""),
        Terminal::In => String::from_str("\"in\""),
        Terminal::Null => String::from_str("\"null\""),
        Terminal::Equals => String::from_str("\"=\""),
        Terminal::OpenBrace => String::from_str("\"{\""),
        Terminal::CloseBrace => String::from_str("\"}\""),
        Terminal::OpenBracket => String::from_str("\"[\""),
        Terminal::CloseBracket => String::from_str("\"]\""),
        Terminal::Chain => String::from_str("\".\""),
        Terminal::Spread => String::from_str("\"..\""),
        Terminal::Boolean => String::from_str("Boolean"),
        Terminal::Integer => String::from_str("Integer"),
        Terminal::Float => String::from_str("Float"),
        Terminal::InputName => String::from_str("InputName"),
        Terminal::Literal => String::from_str("Literal"),
        Terminal::Key => String::from_str("Key"),
    }
}

/// The terminals that were expected, as [`expected_terminals`] says.
pub fn expected_terminal_list(x: Expected) -> (v: Vec<Terminal>)
    ensures
        v@ == expected_terminals(x),
{
    let v = match x {
        Expected::RootStart => vec![Terminal::Let, Terminal::OpenBrace],
        Expected::LetBrace => vec![Terminal::OpenBrace],
        Expected::InputOrEnd => vec![Terminal::CloseBrace, Terminal::InputName],
        Expected::InputEquals => vec![Terminal::Equals],
        Expected::Entry => vec![
            Terminal::Null,
            Terminal::OpenBrace,
            Terminal::OpenBracket,
            Terminal::Boolean,
            Terminal::Integer,
            Terminal::Float,
            Terminal::InputName,
            Terminal::Literal,
        ],
        Expected::In => vec![Terminal::In],
        Expected::ObjectBrace => vec![Terminal::OpenBrace],
        Expected::MemberOrEnd => vec![Terminal::CloseBrace, Terminal::Spread, Terminal::Key],
        Expected::KeyContinuation => vec![Terminal::Equals, Terminal::Chain],
        Expected::KeySegment => vec![Terminal::Key],
        Expected::SpreadInput => vec![Terminal::InputName],
        Expected::ItemOrEnd => vec![
            Terminal::Null,
            Terminal::OpenBrace,
            Terminal::OpenBracket,
            Terminal::CloseBracket,
            Terminal::Spread,
            Terminal::Boolean,
            Terminal::Integer,
            Terminal::Float,
            Terminal::InputName,
            Terminal::Literal,
        ],
        Expected::EndOfInput => Vec::new(),
    };
    proof {
        assert(v@ =~= expected_terminals(x));
    }
    v
}

/// The names of the terminals that were expected, as [`expected_names`] says.
pub fn expected_name_list(x: Expected) -> (v: Vec<String>)
    ensures
        strings_view(v@) == expected_names(x),
{
    let ks = expected_terminal_list(x);
    let mut v: Vec<String> = Vec::new();
    let mut i: usize = 0;
    while i < ks.len()
        invariant
            i <= ks@.len(),
            ks@ == expected_terminals(x),
            strings_view(v@) == expected_names(x).take(i as int),
        decreases ks@.len() - i,
    {
        let ghost before = v@;
        v.push(terminal_name_text(ks[i]));
        proof {
            assert(v@.drop_last() =~= before);
            assert(expected_names(x).take(i + 1) =~= expected_names(x).take(i as int).push(
                terminal_name(ks@[i as int]),
            ));
        }
        i = i + 1;
    }
    proof {
        assert(expected_names(x).take(ks@.len() as int) =~= expected_names(x));
    }
    v
}

/// The text of the parts of a string literal, as [`parts_text`] says.
fn parts_text_of(parts: &Vec<StringPart>) -> (s: String)
    ensures
        s@ == parts_text(parts_view(parts@)),
{
    proof {
        lemma_parts_view(parts@);
    }
    let mut s = String::new();
    let mut i: usize = 0;
    while i < parts.len()
        invariant
            i <= parts@.len(),
            parts_view(parts@).len() == parts@.len(),
            forall|k: int| 0 <= k < parts@.len() ==> #[trigger] parts_view(parts@)[k] == part_view(parts@[k]),
            s@ == parts_text(parts_view(parts@).take(i as int)),
        decreases parts@.len() - i,
    {
        match &parts[i] {
            StringPart::Literal(text) => s.append(text.as_str()),
            StringPart::Input(name) => s.append(name.as_str()),
        }
        proof {
            let pv = parts_view(parts@);
            assert(pv.take(i + 1).drop_last() =~= pv.take(i as int));
        }
        i = i + 1;
    }
    proof {
        assert(parts_view(parts@).take(parts@.len() as int) =~= parts_view(parts@));
    }
    s
}

/// How a token is shown, as [`token_text`] says.
pub fn token_text_of(t: &Token) -> (s: String)
    ensures
        s@ == token_text(t@),
{
    match t {
        Token::Let => String::from_str("let"),
        Token::In => String::from_str("in"),
        Token::Null => String::from_str("null"),
        Token::Equals => String::from_str("="),
        Token::OpenBrace => String::from_str("{"),
        Token::CloseBrace => String::from_str("}"),
        Token::OpenBracket => String::from_str("["),
        Token::CloseBracket => String::from_str("]"),
        Token::Chain => String::from_str("."),
        Token::Spread => String::from_str(".."),
        Token::Boolean(b) => if *b {
            String::from_str("true")
        } else {
            String::from_str("false")
        },
        Token::Integer(i) => i.to_decimal_string(),
        Token::Float(f) => f.clone(),
        Token::InputName(n) => n.clone(),
        Token::Literal(parts) => parts_text_of(parts),
        Token::Key(k) => k.clone(),
    }
}

/// Reads a configuration from spanned tokens and the lexical error that ended
/// them, if any: the configuration when [`failure_message`] finds nothing
/// wrong, else a parse error with its message.
pub fn read_tokens(toks: &Vec<(usize, Token, usize)>, lex_error: Option<LexicalError>) -> (r: Result<Root, Error>)
    ensures
        match failure_message(toks@, lex_error) {
            None => r matches Ok(root) && parse_root_spec(tokens_view(toks@)) == Parsed::Done(root@, toks@.len() as int),
            Some(m) => r matches Err(e) && e@ == SError::ParseError(m),
        },
{
    proof {
        lemma_tokens_view(toks@);
    }
    let ghost t = tokens_view(toks@);
    match parse_tokens(toks) {
        Ok(root) => match lex_error {
            Some(e) => Err(Error::ParseError(user_error_message(e.message()))),
            None => Ok(root),
        },
        Err((i, x)) => {
            if i < toks.len() {
                let text = token_text_of(&toks[i].1);
                let m = unrecognized_token_message(toks[i].0, text, toks[i].2, expected_name_list(x));
                Err(Error::ParseError(m))
            } else {
                match lex_error {
                    Some(e) => Err(Error::ParseError(user_error_message(e.message()))),
                    None => {
                        let location = if toks.len() == 0 {
                            0
                        } else {
                            toks[toks.len() - 1].2
                        };
                        Err(Error::ParseError(unrecognized_eof_message(location, expected_name_list(x))))
                    },
                }
            }
        },
    }
}

} // verus!
