use vstd::prelude::*;
use crate::ast::{
    ChainedKey, Entry, EntryOrSpread, Object, PairOrSpread, Root, SEntry, SItem, SMember, SRoot,
    inputs_view, item_view, items_view, member_view, members_view, strings_view,
};
use crate::grammar::{
    entry_ints_fit, inputs_ints_fit, item_ints_fit, items_ints_fit, member_ints_fit, members_ints_fit,
    entry_tokens, entry_wf, inputs_tokens, inputs_wf, item_tokens, item_wf, items_tokens, items_wf,
    key_tokens, member_tokens, member_wf, members_tokens, members_wf, prints, root_tokens_plain,
    root_tokens_with_inputs, root_wf, starts_entry,
};
use crate::lexer::{token_fits, tokens_fit, SToken, StringPart, Token, lemma_parts_view, lemma_tokens_view, part_view, parts_view, tokens_view};

verus! {

// ---------------------------------------------------------------------------
// Terminals and what the parser expects.

/// The terminals of the grammar, in the order in which error messages list them.
#[derive(Debug, PartialEq, Eq, Structural, Clone, Copy)]
pub enum Terminal {
    Let,
    In,
    Null,
    Equals,
    OpenBrace,
    CloseBrace,
    OpenBracket,
    CloseBracket,
    Chain,
    Spread,
    Boolean,
    Integer,
    Float,
    InputName,
    Literal,
    Key,
}

/// The terminal of a token.
pub open spec fn terminal_of(t: SToken) -> Terminal {
    match t {
        SToken::Let => Terminal::Let,
        SToken::In => Terminal::In,
        SToken::Null => Terminal::Null,
        SToken::Equals => Terminal::Equals,
        SToken::OpenBrace => Terminal::OpenBrace,
        SToken::CloseBrace => Terminal::CloseBrace,
        SToken::OpenBracket => Terminal::OpenBracket,
        SToken::CloseBracket => Terminal::CloseBracket,
        SToken::Chain => Terminal::Chain,
        SToken::Spread => Terminal::Spread,
        SToken::Boolean(_) => Terminal::Boolean,
        SToken::Integer(_) => Terminal::Integer,
        SToken::Float(_) => Terminal::Float,
        SToken::InputName(_) => Terminal::InputName,
        SToken::Literal(_) => Terminal::Literal,
        SToken::Key(_) => Terminal::Key,
    }
}

/// The name of a terminal in error messages.
pub open spec fn terminal_name(t: Terminal) -> Seq<char> {
    match t {
        Terminal::Let => "\"let\""@,
        Terminal::In => "\"in\""@,
        Terminal::Null => "\"null\""@,
        Terminal::Equals => "\"=\""@,
        Terminal::OpenBrace => "\"{\""@,
        Terminal::CloseBrace => "\"}\""@,
        Terminal::OpenBracket => "\"[\""@,
        Terminal::CloseBracket => "\"]\""@,
        Terminal::Chain => "\".\""@,
        Terminal::Spread => "\"..\""@,
        Terminal::Boolean => "Boolean"@,
        Terminal::Integer => "Integer"@,
        Terminal::Float => "Float"@,
        Terminal::InputName => "InputName"@,
        Terminal::Literal => "Literal"@,
        Terminal::Key => "Key"@,
    }
}

/// What the parser was looking for at the token where it stopped.
#[derive(Debug, PartialEq, Eq, Structural, Clone, Copy)]
pub enum Expected {
    /// The start of the text: `let` or `{`.
    RootStart,
    /// The `{` after `let`.
    LetBrace,
    /// Another input declaration or the `}` that ends them.
    InputOrEnd,
    /// The `=` after an input name in the declarations.
    InputEquals,
    /// A value.
    Entry,
    /// The `in` after the declarations.
    In,
    /// The `{` after `in`.
    ObjectBrace,
    /// Another pair or spread of an object, or its `}`.
    MemberOrEnd,
    /// The `=` or `.` after a key segment.
    KeyContinuation,
    /// A key segment after `.`.
    KeySegment,
    /// The input name after `..`.
    SpreadInput,
    /// Another element or spread of an array, or its `]`.
    ItemOrEnd,
    /// Nothing: the text should have ended.
    EndOfInput,
}

/// The terminals that would have been accepted, in message order.
pub open spec fn expected_terminals(x: Expected) -> Seq<Terminal> {
    match x {
        Expected::RootStart => seq![Terminal::Let, Terminal::OpenBrace],
        Expected::LetBrace => seq![Terminal::OpenBrace],
        Expected::InputOrEnd => seq![Terminal::CloseBrace, Terminal::InputName],
        Expected::InputEquals => seq![Terminal::Equals],
        Expected::Entry => seq![
            Terminal::Null,
            Terminal::OpenBrace,
            Terminal::OpenBracket,
            Terminal::Boolean,
            Terminal::Integer,
            Terminal::Float,
            Terminal::InputName,
            Terminal::Literal,
        ],
        Expected::In => seq![Terminal::In],
        Expected::ObjectBrace => seq![Terminal::OpenBrace],
        Expected::MemberOrEnd => seq![Terminal::CloseBrace, Terminal::Spread, Terminal::Key],
        Expected::KeyContinuation => seq![Terminal::Equals, Terminal::Chain],
        Expected::KeySegment => seq![Terminal::Key],
        Expected::SpreadInput => seq![Terminal::InputName],
        Expected::ItemOrEnd => seq![
            Terminal::Null,
            Terminal::OpenBrace,
            Terminal::OpenBracket,
            Terminal::CloseBracket,
            Terminal::Spread,
            Terminal::Boolean,
            Terminal::Integer,
            Terminal::Float,
            Terminal::InputName,
            Terminal::Literal,
        ],
        Expected::EndOfInput => seq![],
    }
}

// ---------------------------------------------------------------------------
// The parser, as a function of the tokens.

/// What reading a piece of syntax at some token gives: the piece and the
/// position after it, or the position of the first token that cannot
/// continue it (the length of the tokens for their end) and what was expected
/// there.
pub enum Parsed<A> {
    Done(A, int),
    Stuck(int, Expected),
}

/// `t[p]` exists and is of terminal `k`.
pub open spec fn at(t: Seq<SToken>, p: int, k: Terminal) -> bool {
    0 <= p < t.len() && terminal_of(t[p]) == k
}

/// A chained key at `p`: key segments joined by `.`.
pub open spec fn parse_key_spec(t: Seq<SToken>, p: int) -> Parsed<Seq<Seq<char>>>
    decreases t.len() - p,
{
    if 0 <= p < t.len() && t[p] is Key {
        let seg = t[p]->Key_0;
        if at(t, p + 1, Terminal::Chain) {
            if at(t, p + 2, Terminal::Key) {
                match parse_key_spec(t, p + 2) {
                    Parsed::Done(rest, q) => Parsed::Done(seq![seg] + rest, q),
                    Parsed::Stuck(i, x) => Parsed::Stuck(i, x),
                }
            } else {
                Parsed::Stuck(p + 2, Expected::KeySegment)
            }
        } else {
            Parsed::Done(seq![seg], p + 1)
        }
    } else {
        Parsed::Stuck(p, Expected::MemberOrEnd)
    }
}

/// A value at `p`.
pub open spec fn parse_entry_spec(t: Seq<SToken>, p: int) -> Parsed<SEntry>
    decreases t.len() - p, 0nat,
{
    if 0 <= p < t.len() {
        match t[p] {
            SToken::Literal(parts) => Parsed::Done(SEntry::String(parts), p + 1),
            SToken::Integer(i) => Parsed::Done(SEntry::Integer(i), p + 1),
            SToken::Float(f) => Parsed::Done(SEntry::Float(f), p + 1),
            SToken::Boolean(b) => Parsed::Done(SEntry::Boolean(b), p + 1),
            SToken::Null => Parsed::Done(SEntry::Null, p + 1),
            SToken::InputName(n) => Parsed::Done(SEntry::Input(n), p + 1),
            SToken::OpenBrace => match parse_members_spec(t, p + 1) {
                Parsed::Done(ms, q) => Parsed::Done(SEntry::Object(ms), q),
                Parsed::Stuck(i, x) => Parsed::Stuck(i, x),
            },
            SToken::OpenBracket => match parse_items_spec(t, p + 1) {
                Parsed::Done(items, q) => Parsed::Done(SEntry::Array(items), q),
                Parsed::Stuck(i, x) => Parsed::Stuck(i, x),
            },
            _ => Parsed::Stuck(p, Expected::Entry),
        }
    } else {
        Parsed::Stuck(p, Expected::Entry)
    }
}

/// The pairs and spreads of an object at `p`, through its `}`.
pub open spec fn parse_members_spec(t: Seq<SToken>, p: int) -> Parsed<Seq<SMember>>
    decreases t.len() - p, 2nat,
{
    if at(t, p, Terminal::CloseBrace) {
        Parsed::Done(seq![], p + 1)
    } else if at(t, p, Terminal::Key) || at(t, p, Terminal::Spread) {
        match parse_member_spec(t, p) {
            Parsed::Done(m, q) => if p < q <= t.len() {
                match parse_members_spec(t, q) {
                    Parsed::Done(ms, r) => Parsed::Done(seq![m] + ms, r),
                    Parsed::Stuck(i, x) => Parsed::Stuck(i, x),
                }
            } else {
                Parsed::Stuck(q, Expected::MemberOrEnd)
            },
            Parsed::Stuck(i, x) => Parsed::Stuck(i, x),
        }
    } else {
        Parsed::Stuck(p, Expected::MemberOrEnd)
    }
}

/// One pair or spread of an object at `p`.
pub open spec fn parse_member_spec(t: Seq<SToken>, p: int) -> Parsed<SMember>
    decreases t.len() - p, 1nat,
{
    if at(t, p, Terminal::Spread) {
        if at(t, p + 1, Terminal::InputName) {
            Parsed::Done(SMember::Spread(t[p + 1]->InputName_0), p + 2)
        } else {
            Parsed::Stuck(p + 1, Expected::SpreadInput)
        }
    } else {
        match parse_key_spec(t, p as int) {
            Parsed::Done(k, q) => if p < q && at(t, q, Terminal::Equals) {
                match parse_entry_spec(t, q + 1) {
                    Parsed::Done(e, r) => Parsed::Done(SMember::Pair(k, e), r),
                    Parsed::Stuck(i, x) => Parsed::Stuck(i, x),
                }
            } else {
                Parsed::Stuck(q, Expected::KeyContinuation)
            },
            Parsed::Stuck(i, x) => Parsed::Stuck(i, x),
        }
    }
}

/// The elements and spreads of an array at `p`, through its `]`.
pub open spec fn parse_items_spec(t: Seq<SToken>, p: int) -> Parsed<Seq<SItem>>
    decreases t.len() - p, 2nat,
{
    if at(t, p, Terminal::CloseBracket) {
        Parsed::Done(seq![], p + 1)
    } else if 0 <= p < t.len() && (t[p] is Spread || starts_entry(t[p])) {
        match parse_item_spec(t, p) {
            Parsed::Done(it, q) => if p < q <= t.len() {
                match parse_items_spec(t, q) {
                    Parsed::Done(items, r) => Parsed::Done(seq![it] + items, r),
                    Parsed::Stuck(i, x) => Parsed::Stuck(i, x),
                }
            } else {
                Parsed::Stuck(q, Expected::ItemOrEnd)
            },
            Parsed::Stuck(i, x) => Parsed::Stuck(i, x),
        }
    } else {
        Parsed::Stuck(p, Expected::ItemOrEnd)
    }
}

/// One element or spread of an array at `p`.
pub open spec fn parse_item_spec(t: Seq<SToken>, p: int) -> Parsed<SItem>
    decreases t.len() - p, 1nat,
{
    if at(t, p, Terminal::Spread) {
        if at(t, p + 1, Terminal::InputName) {
            Parsed::Done(SItem::Spread(t[p + 1]->InputName_0), p + 2)
        } else {
            Parsed::Stuck(p + 1, Expected::SpreadInput)
        }
    } else {
        match parse_entry_spec(t, p) {
            Parsed::Done(e, q) => Parsed::Done(SItem::Entry(e), q),
            Parsed::Stuck(i, x) => Parsed::Stuck(i, x),
        }
    }
}

/// The input declarations at `p`, through the `}` that ends them.
pub open spec fn parse_inputs_spec(t: Seq<SToken>, p: int) -> Parsed<Seq<(Seq<char>, SEntry)>>
    decreases t.len() - p,
{
    if at(t, p, Terminal::CloseBrace) {
        Parsed::Done(seq![], p + 1)
    } else if at(t, p, Terminal::InputName) {
        if at(t, p + 1, Terminal::Equals) {
            match parse_entry_spec(t, p + 2) {
                Parsed::Done(e, q) => if p < q <= t.len() {
                    match parse_inputs_spec(t, q) {
                        Parsed::Done(ins, r) => Parsed::Done(seq![(t[p]->InputName_0, e)] + ins, r),
                        Parsed::Stuck(i, x) => Parsed::Stuck(i, x),
                    }
                } else {
                    Parsed::Stuck(q, Expected::InputOrEnd)
                },
                Parsed::Stuck(i, x) => Parsed::Stuck(i, x),
            }
        } else {
            Parsed::Stuck(p + 1, Expected::InputEquals)
        }
    } else {
        Parsed::Stuck(p, Expected::InputOrEnd)
    }
}

/// The top-level object at `p`, which must end the text.
pub open spec fn parse_body_spec(t: Seq<SToken>, p: int, ins: Seq<(Seq<char>, SEntry)>) -> Parsed<SRoot> {
    match parse_members_spec(t, p as int) {
        Parsed::Done(ms, r) => if r == t.len() {
            Parsed::Done(SRoot { inputs: ins, object: ms }, r)
        } else {
            Parsed::Stuck(r, Expected::EndOfInput)
        },
        Parsed::Stuck(i, x) => Parsed::Stuck(i, x),
    }
}

/// The whole text: an optional `let { .. } in` and the top-level object.
pub open spec fn parse_root_spec(t: Seq<SToken>) -> Parsed<SRoot> {
    if at(t, 0, Terminal::Let) {
        if at(t, 1, Terminal::OpenBrace) {
            match parse_inputs_spec(t, 2) {
                Parsed::Done(ins, q) => if at(t, q, Terminal::In) {
                    if at(t, q + 1, Terminal::OpenBrace) {
                        parse_body_spec(t, q + 2, ins)
                    } else {
                        Parsed::Stuck(q + 1, Expected::ObjectBrace)
                    }
                } else {
                    Parsed::Stuck(q, Expected::In)
                },
                Parsed::Stuck(i, x) => Parsed::Stuck(i, x),
            }
        } else {
            Parsed::Stuck(1, Expected::LetBrace)
        }
    } else if at(t, 0, Terminal::OpenBrace) {
        parse_body_spec(t, 1, seq![])
    } else {
        Parsed::Stuck(0, Expected::RootStart)
    }
}


// ---------------------------------------------------------------------------
// What the parser reads is what the grammar prints.

proof fn lemma_join(t: Seq<SToken>, p: int, q: int, r: int, a: Seq<SToken>, b: Seq<SToken>)
    requires
        0 <= p <= q <= r <= t.len(),
        t.subrange(p, q) == a,
        t.subrange(q, r) == b,
    ensures
        t.subrange(p, r) == a + b,
{
    assert(t.subrange(p, r) =~= t.subrange(p, q) + t.subrange(q, r));
}

proof fn lemma_one(t: Seq<SToken>, p: int)
    requires
        0 <= p < t.len(),
    ensures
        t.subrange(p, p + 1) == seq![t[p]],
{
    assert(t.subrange(p, p + 1) =~= seq![t[p]]);
}

/// A key that was read is printed as the tokens it was read from.
pub proof fn lemma_key_sound(t: Seq<SToken>, p: int)
    requires
        0 <= p <= t.len(),
    ensures
        parse_key_spec(t, p as int) matches Parsed::Done(k, q) ==> k.len() >= 1 && p < q <= t.len()
            && t.subrange(p, q) == key_tokens(k),
        parse_key_spec(t, p as int) matches Parsed::Stuck(i, _) ==> p <= i <= t.len(),
    decreases t.len() - p,
{
    if 0 <= p < t.len() && t[p] is Key {
        let seg = t[p]->Key_0;
        lemma_one(t, p);
        if at(t, p + 1, Terminal::Chain) {
            if at(t, p + 2, Terminal::Key) {
                lemma_key_sound(t, p + 2);
                if let Parsed::Done(rest, q) = parse_key_spec(t, p + 2) {
                    let k = seq![seg] + rest;
                    assert(k[0] == seg);
                    assert(k.drop_first() =~= rest);
                    lemma_one(t, p + 1);
                    lemma_join(t, p, p + 1, p + 2, seq![SToken::Key(seg)], seq![SToken::Chain]);
                    lemma_join(t, p, p + 2, q, seq![SToken::Key(seg)] + seq![SToken::Chain], key_tokens(rest));
                    assert(seq![SToken::Key(seg)] + seq![SToken::Chain] =~= seq![SToken::Key(seg), SToken::Chain]);
                }
            }
        } else {
            assert(t[p] == SToken::Key(seg));
        }
    }
}

/// An entry that was read is well formed and printed as the tokens it was read from.
pub proof fn lemma_entry_sound(t: Seq<SToken>, p: int)
    requires
        0 <= p <= t.len(),
    ensures
        parse_entry_spec(t, p) matches Parsed::Done(e, q) ==> entry_wf(e) && p < q <= t.len()
            && t.subrange(p, q) == entry_tokens(e),
        parse_entry_spec(t, p) matches Parsed::Stuck(i, _) ==> p <= i <= t.len(),
    decreases t.len() - p, 0nat,
{
    if 0 <= p < t.len() {
        lemma_one(t, p);
        match t[p] {
            SToken::OpenBrace => {
                lemma_members_sound(t, p + 1);
                if let Parsed::Done(ms, q) = parse_members_spec(t, p + 1) {
                    lemma_join(t, p, p + 1, q, seq![SToken::OpenBrace], members_tokens(ms) + seq![SToken::CloseBrace]);
                    assert(seq![SToken::OpenBrace] + (members_tokens(ms) + seq![SToken::CloseBrace])
                        =~= seq![SToken::OpenBrace] + members_tokens(ms) + seq![SToken::CloseBrace]);
                }
            },
            SToken::OpenBracket => {
                lemma_items_sound(t, p + 1);
                if let Parsed::Done(items, q) = parse_items_spec(t, p + 1) {
                    lemma_join(t, p, p + 1, q, seq![SToken::OpenBracket], items_tokens(items) + seq![SToken::CloseBracket]);
                    assert(seq![SToken::OpenBracket] + (items_tokens(items) + seq![SToken::CloseBracket])
                        =~= seq![SToken::OpenBracket] + items_tokens(items) + seq![SToken::CloseBracket]);
                }
            },
            _ => {},
        }
    }
}

/// The members that were read are well formed and printed, with the closing
/// `}`, as the tokens they were read from.
pub proof fn lemma_members_sound(t: Seq<SToken>, p: int)
    requires
        0 <= p <= t.len(),
    ensures
        parse_members_spec(t, p as int) matches Parsed::Done(ms, q) ==> members_wf(ms) && p < q <= t.len()
            && t.subrange(p, q) == members_tokens(ms) + seq![SToken::CloseBrace],
        parse_members_spec(t, p as int) matches Parsed::Stuck(i, _) ==> p <= i <= t.len(),
    decreases t.len() - p, 2nat,
{
    if at(t, p, Terminal::CloseBrace) {
        lemma_one(t, p);
        assert(members_tokens(seq![]) + seq![SToken::CloseBrace] =~= seq![SToken::CloseBrace]);
        assert(t[p] == SToken::CloseBrace);
    } else if at(t, p, Terminal::Key) || at(t, p, Terminal::Spread) {
        lemma_member_sound(t, p);
        if let Parsed::Done(m, q) = parse_member_spec(t, p) {
            if p < q <= t.len() {
                lemma_members_sound(t, q);
                if let Parsed::Done(ms, r) = parse_members_spec(t, q) {
                    let all = seq![m] + ms;
                    assert(all[0] == m);
                    assert(all.drop_first() =~= ms);
                    lemma_join(t, p, q, r, member_tokens(m), members_tokens(ms) + seq![SToken::CloseBrace]);
                    assert(member_tokens(m) + (members_tokens(ms) + seq![SToken::CloseBrace])
                        =~= members_tokens(all) + seq![SToken::CloseBrace]);
                }
            }
        }
    }
}

/// A member that was read is well formed and printed as the tokens it was read from.
pub proof fn lemma_member_sound(t: Seq<SToken>, p: int)
    requires
        0 <= p <= t.len(),
    ensures
        parse_member_spec(t, p) matches Parsed::Done(m, q) ==> member_wf(m) && p < q <= t.len()
            && t.subrange(p, q) == member_tokens(m),
        parse_member_spec(t, p) matches Parsed::Stuck(i, _) ==> p <= i <= t.len(),
    decreases t.len() - p, 1nat,
{
    if at(t, p, Terminal::Spread) {
        if at(t, p + 1, Terminal::InputName) {
            assert(t.subrange(p, p + 2) =~= seq![SToken::Spread, SToken::InputName(t[p + 1]->InputName_0)]);
        }
    } else {
        lemma_key_sound(t, p);
        if let Parsed::Done(k, q) = parse_key_spec(t, p as int) {
            if p < q && at(t, q, Terminal::Equals) {
                lemma_entry_sound(t, q + 1);
                if let Parsed::Done(e, r) = parse_entry_spec(t, q + 1) {
                    lemma_one(t, q);
                    assert(t[q] == SToken::Equals);
                    lemma_join(t, p, q, q + 1, key_tokens(k), seq![SToken::Equals]);
                    lemma_join(t, p, q + 1, r, key_tokens(k) + seq![SToken::Equals], entry_tokens(e));
                }
            }
        }
    }
}

/// The items that were read are well formed and printed, with the closing
/// `]`, as the tokens they were read from.
pub proof fn lemma_items_sound(t: Seq<SToken>, p: int)
    requires
        0 <= p <= t.len(),
    ensures
        parse_items_spec(t, p as int) matches Parsed::Done(items, q) ==> items_wf(items) && p < q <= t.len()
            && t.subrange(p, q) == items_tokens(items) + seq![SToken::CloseBracket],
        parse_items_spec(t, p as int) matches Parsed::Stuck(i, _) ==> p <= i <= t.len(),
    decreases t.len() - p, 2nat,
{
    if at(t, p, Terminal::CloseBracket) {
        lemma_one(t, p);
        assert(items_tokens(seq![]) + seq![SToken::CloseBracket] =~= seq![SToken::CloseBracket]);
        assert(t[p] == SToken::CloseBracket);
    } else if 0 <= p < t.len() && (t[p] is Spread || starts_entry(t[p])) {
        lemma_item_sound(t, p);
        if let Parsed::Done(it, q) = parse_item_spec(t, p) {
            if p < q <= t.len() {
                lemma_items_sound(t, q);
                if let Parsed::Done(items, r) = parse_items_spec(t, q) {
                    let all = seq![it] + items;
                    assert(all[0] == it);
                    assert(all.drop_first() =~= items);
                    lemma_join(t, p, q, r, item_tokens(it), items_tokens(items) + seq![SToken::CloseBracket]);
                    assert(item_tokens(it) + (items_tokens(items) + seq![SToken::CloseBracket])
                        =~= items_tokens(all) + seq![SToken::CloseBracket]);
                }
            }
        }
    }
}

/// An item that was read is well formed and printed as the tokens it was read from.
pub proof fn lemma_item_sound(t: Seq<SToken>, p: int)
    requires
        0 <= p <= t.len(),
    ensures
        parse_item_spec(t, p) matches Parsed::Done(it, q) ==> item_wf(it) && p < q <= t.len()
            && t.subrange(p, q) == item_tokens(it),
        parse_item_spec(t, p) matches Parsed::Stuck(i, _) ==> p <= i <= t.len(),
    decreases t.len() - p, 1nat,
{
    if at(t, p, Terminal::Spread) {
        if at(t, p + 1, Terminal::InputName) {
            assert(t.subrange(p, p + 2) =~= seq![SToken::Spread, SToken::InputName(t[p + 1]->InputName_0)]);
        }
    } else {
        lemma_entry_sound(t, p);
    }
}

/// The declarations that were read are well formed and printed, with the
/// closing `}`, as the tokens they were read from.
pub proof fn lemma_inputs_sound(t: Seq<SToken>, p: int)
    requires
        0 <= p <= t.len(),
    ensures
        parse_inputs_spec(t, p as int) matches Parsed::Done(ins, q) ==> inputs_wf(ins) && p < q <= t.len()
            && t.subrange(p, q) == inputs_tokens(ins) + seq![SToken::CloseBrace],
        parse_inputs_spec(t, p as int) matches Parsed::Stuck(i, _) ==> p <= i <= t.len(),
    decreases t.len() - p,
{
    if at(t, p, Terminal::CloseBrace) {
        lemma_one(t, p);
        assert(inputs_tokens(seq![]) + seq![SToken::CloseBrace] =~= seq![SToken::CloseBrace]);
        assert(t[p] == SToken::CloseBrace);
    } else if at(t, p, Terminal::InputName) {
        if at(t, p + 1, Terminal::Equals) {
            lemma_entry_sound(t, p + 2);
            if let Parsed::Done(e, q) = parse_entry_spec(t, p + 2) {
                if p < q <= t.len() {
                    lemma_inputs_sound(t, q);
                    if let Parsed::Done(ins, r) = parse_inputs_spec(t, q) {
                        let n = t[p]->InputName_0;
                        let all = seq![(n, e)] + ins;
                        assert(all[0] == (n, e));
                        assert(all.drop_first() =~= ins);
                        assert(t.subrange(p, p + 2) =~= seq![SToken::InputName(n), SToken::Equals]);
                        lemma_join(t, p, p + 2, q, seq![SToken::InputName(n), SToken::Equals], entry_tokens(e));
                        lemma_join(t, p, q, r, seq![SToken::InputName(n), SToken::Equals] + entry_tokens(e),
                            inputs_tokens(ins) + seq![SToken::CloseBrace]);
                        assert(seq![SToken::InputName(n), SToken::Equals] + entry_tokens(e) + (inputs_tokens(ins)
                            + seq![SToken::CloseBrace]) =~= inputs_tokens(all) + seq![SToken::CloseBrace]);
                    }
                }
            }
        }
    }
}


// ---------------------------------------------------------------------------
// What the grammar prints, the parser reads back.

proof fn lemma_split(t: Seq<SToken>, p: int, a: Seq<SToken>, b: Seq<SToken>)
    requires
        0 <= p,
        p + a.len() + b.len() <= t.len(),
        t.subrange(p, p + a.len() + b.len()) == a + b,
    ensures
        t.subrange(p, p + a.len()) == a,
        t.subrange(p + a.len(), p + a.len() + b.len()) == b,
{
    assert(t.subrange(p, p + a.len()) =~= (a + b).subrange(0, a.len() as int));
    assert(t.subrange(p + a.len(), p + a.len() + b.len()) =~= (a + b).subrange(a.len() as int, (a.len() + b.len()) as int));
}

proof fn lemma_head(t: Seq<SToken>, p: int, a: Seq<SToken>)
    requires
        0 <= p,
        a.len() >= 1,
        p + a.len() <= t.len(),
        t.subrange(p, p + a.len()) == a,
    ensures
        t[p] == a[0],
{
    assert(t.subrange(p, p + a.len())[0] == t[p]);
}

proof fn lemma_key_len(k: Seq<Seq<char>>)
    ensures
        k.len() >= 1 ==> key_tokens(k).len() == 2 * k.len() - 1,
    decreases k.len(),
{
    if k.len() > 1 {
        lemma_key_len(k.drop_first());
    }
}

/// A key printed at `p` and not followed by `.` is read back.
pub proof fn lemma_key_complete(t: Seq<SToken>, p: int, k: Seq<Seq<char>>)
    requires
        k.len() >= 1,
        0 <= p,
        p + key_tokens(k).len() <= t.len(),
        t.subrange(p, p + key_tokens(k).len()) == key_tokens(k),
        !at(t, p + key_tokens(k).len(), Terminal::Chain),
    ensures
        parse_key_spec(t, p as int) == Parsed::Done(k, p + key_tokens(k).len()),
    decreases k.len(),
{
    lemma_key_len(k);
    lemma_head(t, p, key_tokens(k));
    if k.len() == 1 {
        assert(seq![k[0]] =~= k);
    } else {
        let rest = k.drop_first();
        let pre = seq![SToken::Key(k[0]), SToken::Chain];
        lemma_key_len(rest);
        lemma_split(t, p, pre, key_tokens(rest));
        assert(t.subrange(p, p + 2)[1] == t[p + 1]);
        lemma_head(t, p + 2, key_tokens(rest));
        lemma_key_complete(t, p + 2, rest);
        assert(seq![k[0]] + rest =~= k);
    }
}

/// An entry printed at `p` is read back.
pub proof fn lemma_entry_complete(t: Seq<SToken>, p: int, e: SEntry)
    requires
        entry_wf(e),
        0 <= p,
        p + entry_tokens(e).len() <= t.len(),
        t.subrange(p, p + entry_tokens(e).len()) == entry_tokens(e),
    ensures
        parse_entry_spec(t, p) == Parsed::Done(e, p + entry_tokens(e).len()),
    decreases e, 0nat,
{
    lemma_head(t, p, entry_tokens(e));
    match e {
        SEntry::Object(ms) => {
            let body = members_tokens(ms) + seq![SToken::CloseBrace];
            assert(entry_tokens(e) =~= seq![SToken::OpenBrace] + body);
            lemma_split(t, p, seq![SToken::OpenBrace], body);
            lemma_members_complete(t, p + 1, ms);
        },
        SEntry::Array(items) => {
            let body = items_tokens(items) + seq![SToken::CloseBracket];
            assert(entry_tokens(e) =~= seq![SToken::OpenBracket] + body);
            lemma_split(t, p, seq![SToken::OpenBracket], body);
            lemma_items_complete(t, p + 1, items);
        },
        _ => {},
    }
}

/// Members printed at `p`, with their closing `}`, are read back.
pub proof fn lemma_members_complete(t: Seq<SToken>, p: int, ms: Seq<SMember>)
    requires
        members_wf(ms),
        0 <= p,
        p + members_tokens(ms).len() + 1 <= t.len(),
        t.subrange(p, p + members_tokens(ms).len() + 1) == members_tokens(ms) + seq![SToken::CloseBrace],
    ensures
        parse_members_spec(t, p as int) == Parsed::Done(ms, p + members_tokens(ms).len() + 1),
    decreases ms, 2nat,
{
    let all = members_tokens(ms) + seq![SToken::CloseBrace];
    if ms.len() == 0 {
        assert(all =~= seq![SToken::CloseBrace]);
        lemma_head(t, p, all);
        assert(ms =~= seq![]);
    } else {
        let m = ms[0];
        let rest = ms.drop_first();
        let mt = member_tokens(m);
        let tail = members_tokens(rest) + seq![SToken::CloseBrace];
        assert(all =~= mt + tail);
        lemma_split(t, p, mt, tail);
        crate::grammar::lemma_member_first(m);
        lemma_head(t, p, mt);
        lemma_member_complete(t, p, m);
        lemma_members_complete(t, p + mt.len(), rest);
        assert(seq![m] + rest =~= ms);
    }
}

/// A member printed at `p` is read back.
pub proof fn lemma_member_complete(t: Seq<SToken>, p: int, m: SMember)
    requires
        member_wf(m),
        0 <= p,
        p + member_tokens(m).len() <= t.len(),
        t.subrange(p, p + member_tokens(m).len()) == member_tokens(m),
    ensures
        parse_member_spec(t, p) == Parsed::Done(m, p + member_tokens(m).len()),
    decreases m, 1nat,
{
    match m {
        SMember::Spread(n) => {
            assert(t.subrange(p, p + 2)[0] == t[p]);
            assert(t.subrange(p, p + 2)[1] == t[p + 1]);
        },
        SMember::Pair(k, e) => {
            let kt = key_tokens(k);
            let et = entry_tokens(e);
            assert(member_tokens(m) =~= kt + (seq![SToken::Equals] + et));
            lemma_split(t, p, kt, seq![SToken::Equals] + et);
            lemma_split(t, p + kt.len(), seq![SToken::Equals], et);
            lemma_head(t, p + kt.len(), seq![SToken::Equals]);
            crate::grammar::lemma_key_first(k);
            lemma_head(t, p, kt);
            lemma_key_complete(t, p, k);
            lemma_entry_complete(t, p + kt.len() + 1, e);
        },
    }
}

/// Items printed at `p`, with their closing `]`, are read back.
pub proof fn lemma_items_complete(t: Seq<SToken>, p: int, items: Seq<SItem>)
    requires
        items_wf(items),
        0 <= p,
        p + items_tokens(items).len() + 1 <= t.len(),
        t.subrange(p, p + items_tokens(items).len() + 1) == items_tokens(items) + seq![SToken::CloseBracket],
    ensures
        parse_items_spec(t, p as int) == Parsed::Done(items, p + items_tokens(items).len() + 1),
    decreases items, 2nat,
{
    let all = items_tokens(items) + seq![SToken::CloseBracket];
    if items.len() == 0 {
        assert(all =~= seq![SToken::CloseBracket]);
        lemma_head(t, p, all);
        assert(items =~= seq![]);
    } else {
        let it = items[0];
        let rest = items.drop_first();
        let itt = item_tokens(it);
        let tail = items_tokens(rest) + seq![SToken::CloseBracket];
        assert(all =~= itt + tail);
        lemma_split(t, p, itt, tail);
        crate::grammar::lemma_item_first(it);
        lemma_head(t, p, itt);
        lemma_item_complete(t, p, it);
        lemma_items_complete(t, p + itt.len(), rest);
        assert(seq![it] + rest =~= items);
    }
}

/// An item printed at `p` is read back.
pub proof fn lemma_item_complete(t: Seq<SToken>, p: int, it: SItem)
    requires
        item_wf(it),
        0 <= p,
        p + item_tokens(it).len() <= t.len(),
        t.subrange(p, p + item_tokens(it).len()) == item_tokens(it),
    ensures
        parse_item_spec(t, p) == Parsed::Done(it, p + item_tokens(it).len()),
    decreases it, 1nat,
{
    match it {
        SItem::Spread(n) => {
            assert(t.subrange(p, p + 2)[0] == t[p]);
            assert(t.subrange(p, p + 2)[1] == t[p + 1]);
        },
        SItem::Entry(e) => {
            crate::grammar::lemma_entry_first(e);
            lemma_head(t, p, entry_tokens(e));
            lemma_entry_complete(t, p, e);
        },
    }
}

/// Declarations printed at `p`, with their closing `}`, are read back.
pub proof fn lemma_inputs_complete(t: Seq<SToken>, p: int, ins: Seq<(Seq<char>, SEntry)>)
    requires
        inputs_wf(ins),
        0 <= p,
        p + inputs_tokens(ins).len() + 1 <= t.len(),
        t.subrange(p, p + inputs_tokens(ins).len() + 1) == inputs_tokens(ins) + seq![SToken::CloseBrace],
    ensures
        parse_inputs_spec(t, p as int) == Parsed::Done(ins, p + inputs_tokens(ins).len() + 1),
    decreases ins.len(),
{
    let all = inputs_tokens(ins) + seq![SToken::CloseBrace];
    if ins.len() == 0 {
        assert(all =~= seq![SToken::CloseBrace]);
        lemma_head(t, p, all);
        assert(ins =~= seq![]);
    } else {
        let (n, e) = ins[0];
        let rest = ins.drop_first();
        let pre = seq![SToken::InputName(n), SToken::Equals];
        let et = entry_tokens(e);
        let tail = inputs_tokens(rest) + seq![SToken::CloseBrace];
        assert(all =~= pre + (et + tail));
        lemma_split(t, p, pre, et + tail);
        lemma_split(t, p + 2, et, tail);
        assert(t.subrange(p, p + 2)[0] == t[p]);
        assert(t.subrange(p, p + 2)[1] == t[p + 1]);
        lemma_entry_complete(t, p + 2, e);
        lemma_inputs_complete(t, p + 2 + et.len(), rest);
        assert(seq![(n, e)] + rest =~= ins);
    }
}


proof fn lemma_with_inputs_printed(t: Seq<SToken>, q: int, ins: Seq<(Seq<char>, SEntry)>, ms: Seq<SMember>)
    requires
        2 <= q,
        q + 2 <= t.len(),
        at(t, 0, Terminal::Let),
        at(t, 1, Terminal::OpenBrace),
        at(t, q, Terminal::In),
        at(t, q + 1, Terminal::OpenBrace),
        t.subrange(2, q) == inputs_tokens(ins) + seq![SToken::CloseBrace],
        t.subrange(q + 2, t.len() as int) == members_tokens(ms) + seq![SToken::CloseBrace],
    ensures
        t == root_tokens_with_inputs(SRoot { inputs: ins, object: ms }),
{
    let a = seq![SToken::Let, SToken::OpenBrace];
    let b = inputs_tokens(ins) + seq![SToken::CloseBrace];
    let c = seq![SToken::In, SToken::OpenBrace];
    let d = members_tokens(ms) + seq![SToken::CloseBrace];
    assert(t.subrange(0, 2) =~= a);
    assert(t.subrange(q, q + 2) =~= c);
    lemma_join(t, 0, 2, q, a, b);
    lemma_join(t, 0, q, q + 2, a + b, c);
    lemma_join(t, 0, q + 2, t.len() as int, a + b + c, d);
    assert(t.subrange(0, t.len() as int) =~= t);
    assert(root_tokens_with_inputs(SRoot { inputs: ins, object: ms }) =~= a + b + c + d);
}

/// A text read as a configuration is its printing, and the configuration is well formed.
pub proof fn lemma_root_sound(t: Seq<SToken>)
    ensures
        parse_root_spec(t) matches Parsed::Done(r, n) ==> n == t.len() && prints(r, t) && root_wf(r),
        parse_root_spec(t) matches Parsed::Stuck(i, _) ==> 0 <= i <= t.len(),
{
    if at(t, 0, Terminal::Let) {
        if at(t, 1, Terminal::OpenBrace) {
            lemma_inputs_sound(t, 2);
            if let Parsed::Done(ins, q) = parse_inputs_spec(t, 2) {
                if at(t, q, Terminal::In) && at(t, q + 1, Terminal::OpenBrace) {
                    lemma_members_sound(t, q + 2);
                    if let Parsed::Done(ms, r) = parse_members_spec(t, q + 2) {
                        if r == t.len() {
                            lemma_with_inputs_printed(t, q, ins, ms);
                        }
                    }
                }
            }
        }
    } else if at(t, 0, Terminal::OpenBrace) {
        lemma_members_sound(t, 1);
        if let Parsed::Done(ms, r) = parse_members_spec(t, 1) {
            if r == t.len() {
                let root = SRoot { inputs: seq![], object: ms };
                assert(t.subrange(0, 1) =~= seq![SToken::OpenBrace]);
                lemma_join(t, 0, 1, r, seq![SToken::OpenBrace], members_tokens(ms) + seq![SToken::CloseBrace]);
                assert(t.subrange(0, t.len() as int) =~= t);
                assert(root_tokens_plain(root) =~= seq![SToken::OpenBrace] + (members_tokens(ms) + seq![
                    SToken::CloseBrace,
                ]));
            }
        }
    }
}

proof fn lemma_with_inputs_complete(t: Seq<SToken>, r: SRoot)
    requires
        t == root_tokens_with_inputs(r),
        root_wf(r),
    ensures
        parse_root_spec(t) == Parsed::Done(r, t.len() as int),
{
    let mt = members_tokens(r.object) + seq![SToken::CloseBrace];
    let it = inputs_tokens(r.inputs) + seq![SToken::CloseBrace];
    let q: int = 2 + it.len() as int;
    let a = seq![SToken::Let, SToken::OpenBrace];
    let c = seq![SToken::In, SToken::OpenBrace];
    assert(t =~= a + (it + (c + mt)));
    assert(t.subrange(0, t.len() as int) =~= t);
    lemma_split(t, 0, a, it + (c + mt));
    lemma_split(t, 2, it, c + mt);
    lemma_split(t, q, c, mt);
    assert(t.subrange(0, 2)[0] == t[0]);
    assert(t.subrange(0, 2)[1] == t[1]);
    assert(t.subrange(q, q + 2)[0] == t[q]);
    assert(t.subrange(q, q + 2)[1] == t[q + 1]);
    lemma_inputs_complete(t, 2, r.inputs);
    lemma_members_complete(t, q + 2, r.object);
}

proof fn lemma_root_complete(t: Seq<SToken>, r: SRoot)
    requires
        prints(r, t),
        root_wf(r),
    ensures
        parse_root_spec(t) == Parsed::Done(r, t.len() as int),
{
    if t == root_tokens_with_inputs(r) {
        lemma_with_inputs_complete(t, r);
    } else {
        let mt = members_tokens(r.object) + seq![SToken::CloseBrace];
        assert(t =~= seq![SToken::OpenBrace] + mt);
        assert(t.subrange(0, t.len() as int) =~= t);
        lemma_split(t, 0, seq![SToken::OpenBrace], mt);
        assert(t.subrange(0, 1)[0] == t[0]);
        lemma_members_complete(t, 1, r.object);
        assert(r.inputs =~= seq![]);
    }
}

// ---------------------------------------------------------------------------
// Integers read from tokens.

proof fn lemma_fit_split(a: Seq<SToken>, b: Seq<SToken>)
    requires
        tokens_fit(a + b),
    ensures
        tokens_fit(a),
        tokens_fit(b),
{
    assert forall|k: int| 0 <= k < a.len() implies #[trigger] token_fits(a[k]) by {
        assert((a + b)[k] == a[k]);
    }
    assert forall|k: int| 0 <= k < b.len() implies #[trigger] token_fits(b[k]) by {
        assert((a + b)[a.len() + k] == b[k]);
    }
}

/// The integers of an entry are those of its tokens.
pub proof fn lemma_entry_ints_fit(e: SEntry)
    requires
        tokens_fit(entry_tokens(e)),
    ensures
        entry_ints_fit(e),
    decreases e, 0nat,
{
    match e {
        SEntry::Integer(i) => {
            assert(token_fits(entry_tokens(e)[0]));
        },
        SEntry::Object(ms) => {
            lemma_fit_split(seq![SToken::OpenBrace] + members_tokens(ms), seq![SToken::CloseBrace]);
            lemma_fit_split(seq![SToken::OpenBrace], members_tokens(ms));
            lemma_members_ints_fit_tokens(ms);
        },
        SEntry::Array(items) => {
            lemma_fit_split(seq![SToken::OpenBracket] + items_tokens(items), seq![SToken::CloseBracket]);
            lemma_fit_split(seq![SToken::OpenBracket], items_tokens(items));
            lemma_items_ints_fit_tokens(items);
        },
        _ => {},
    }
}

pub proof fn lemma_members_ints_fit_tokens(ms: Seq<SMember>)
    requires
        tokens_fit(members_tokens(ms)),
    ensures
        members_ints_fit(ms),
    decreases ms, 0nat,
{
    if ms.len() > 0 {
        lemma_fit_split(member_tokens(ms[0]), members_tokens(ms.drop_first()));
        lemma_member_ints_fit_tokens(ms[0]);
        lemma_members_ints_fit_tokens(ms.drop_first());
    }
}

pub proof fn lemma_member_ints_fit_tokens(m: SMember)
    requires
        tokens_fit(member_tokens(m)),
    ensures
        member_ints_fit(m),
    decreases m, 0nat,
{
    if let SMember::Pair(k, e) = m {
        lemma_fit_split(key_tokens(k) + seq![SToken::Equals], entry_tokens(e));
        lemma_entry_ints_fit(e);
    }
}

pub proof fn lemma_items_ints_fit_tokens(items: Seq<SItem>)
    requires
        tokens_fit(items_tokens(items)),
    ensures
        items_ints_fit(items),
    decreases items, 0nat,
{
    if items.len() > 0 {
        lemma_fit_split(item_tokens(items[0]), items_tokens(items.drop_first()));
        lemma_item_ints_fit_tokens(items[0]);
        lemma_items_ints_fit_tokens(items.drop_first());
    }
}

pub proof fn lemma_item_ints_fit_tokens(it: SItem)
    requires
        tokens_fit(item_tokens(it)),
    ensures
        item_ints_fit(it),
    decreases it, 0nat,
{
    if let SItem::Entry(e) = it {
        lemma_entry_ints_fit(e);
    }
}

pub proof fn lemma_inputs_ints_fit_tokens(ins: Seq<(Seq<char>, SEntry)>)
    requires
        tokens_fit(inputs_tokens(ins)),
    ensures
        inputs_ints_fit(ins),
    decreases ins.len(),
{
    if ins.len() > 0 {
        let pre = seq![SToken::InputName(ins[0].0), SToken::Equals];
        lemma_fit_split(pre + entry_tokens(ins[0].1), inputs_tokens(ins.drop_first()));
        lemma_fit_split(pre, entry_tokens(ins[0].1));
        lemma_entry_ints_fit(ins[0].1);
        lemma_inputs_ints_fit_tokens(ins.drop_first());
        assert forall|i: int| 0 <= i < ins.len() implies #[trigger] entry_ints_fit(ins[i].1) by {
            if i > 0 {
                assert(ins[i] == ins.drop_first()[i - 1]);
            }
        }
    }
}

/// The integers of a configuration are those of the tokens it is printed as.
pub proof fn lemma_root_ints_fit(r: SRoot, t: Seq<SToken>)
    requires
        prints(r, t),
        tokens_fit(t),
    ensures
        inputs_ints_fit(r.inputs),
        members_ints_fit(r.object),
{
    if t == root_tokens_with_inputs(r) {
        let a = seq![SToken::Let, SToken::OpenBrace];
        let b = inputs_tokens(r.inputs);
        let c = seq![SToken::CloseBrace, SToken::In, SToken::OpenBrace];
        let d = members_tokens(r.object);
        let z = seq![SToken::CloseBrace];
        lemma_fit_split(a + b + c + d, z);
        lemma_fit_split(a + b + c, d);
        lemma_fit_split(a + b, c);
        lemma_fit_split(a, b);
        lemma_inputs_ints_fit_tokens(r.inputs);
        lemma_members_ints_fit_tokens(r.object);
    } else {
        lemma_fit_split(seq![SToken::OpenBrace] + members_tokens(r.object), seq![SToken::CloseBrace]);
        lemma_fit_split(seq![SToken::OpenBrace], members_tokens(r.object));
        lemma_members_ints_fit_tokens(r.object);
    }
}

/// A text is read as the configuration `r` exactly when `r` is well formed
/// and prints as that text.
pub proof fn lemma_read_iff_printed(t: Seq<SToken>, r: SRoot)
    ensures
        parse_root_spec(t) == Parsed::Done(r, t.len() as int) <==> (prints(r, t) && root_wf(r)),
{
    lemma_root_sound(t);
    if prints(r, t) && root_wf(r) {
        lemma_root_complete(t, r);
    }
}

/// No text is the printing of two different well-formed configurations.
pub proof fn lemma_unique_reading(t: Seq<SToken>, r1: SRoot, r2: SRoot)
    requires
        prints(r1, t),
        root_wf(r1),
        prints(r2, t),
        root_wf(r2),
    ensures
        r1 == r2,
{
    lemma_root_complete(t, r1);
    lemma_root_complete(t, r2);
}


// ---------------------------------------------------------------------------
// The parser.

/// `r` is the reading `s`: the same piece and position, or the same stop.
pub open spec fn parsed_as<A, B>(r: Result<(A, usize), (usize, Expected)>, s: Parsed<B>, view: spec_fn(A) -> B) -> bool {
    match r {
        Ok((a, q)) => s == Parsed::Done(view(a), q as int),
        Err((i, x)) => s == Parsed::<B>::Stuck(i as int, x),
    }
}

/// `acc` put in front of what a reading of a list gives.
pub open spec fn after<A>(acc: Seq<A>, r: Parsed<Seq<A>>) -> Parsed<Seq<A>> {
    match r {
        Parsed::Done(rest, q) => Parsed::Done(acc + rest, q),
        Parsed::Stuck(i, x) => Parsed::Stuck(i, x),
    }
}

proof fn lemma_after_after<A>(acc: Seq<A>, a: A, r: Parsed<Seq<A>>)
    ensures
        after(acc, after(seq![a], r)) == after(acc.push(a), r),
{
    if let Parsed::Done(rest, q) = r {
        assert(acc + (seq![a] + rest) =~= acc.push(a) + rest);
    }
}

proof fn lemma_after_empty<A>(acc: Seq<A>, q: int)
    ensures
        after(acc, Parsed::Done(seq![], q)) == Parsed::Done(acc, q),
{
    assert(acc + seq![] =~= acc);
}

/// The terminal of the token at `p`, if there is one.
fn terminal_at(toks: &Vec<(usize, Token, usize)>, p: usize) -> (k: Option<Terminal>)
    ensures
        p < toks@.len() ==> k == Some(terminal_of(tokens_view(toks@)[p as int])),
        p >= toks@.len() ==> k is None,
{
    proof {
        lemma_tokens_view(toks@);
    }
    if p < toks.len() {
        let k = match &toks[p].1 {
            Token::Let => Terminal::Let,
            Token::In => Terminal::In,
            Token::Null => Terminal::Null,
            Token::Equals => Terminal::Equals,
            Token::OpenBrace => Terminal::OpenBrace,
            Token::CloseBrace => Terminal::CloseBrace,
            Token::OpenBracket => Terminal::OpenBracket,
            Token::CloseBracket => Terminal::CloseBracket,
            Token::Chain => Terminal::Chain,
            Token::Spread => Terminal::Spread,
            Token::Boolean(_) => Terminal::Boolean,
            Token::Integer(_) => Terminal::Integer,
            Token::Float(_) => Terminal::Float,
            Token::InputName(_) => Terminal::InputName,
            Token::Literal(_) => Terminal::Literal,
            Token::Key(_) => Terminal::Key,
        };
        Some(k)
    } else {
        None
    }
}

/// A copy of the parts of a string literal.
pub fn copy_parts(parts: &Vec<StringPart>) -> (r: Vec<StringPart>)
    ensures
        parts_view(r@) == parts_view(parts@),
{
    let mut out: Vec<StringPart> = Vec::new();
    let mut i: usize = 0;
    proof {
        lemma_parts_view(parts@);
    }
    while i < parts.len()
        invariant
            i <= parts@.len(),
            out@.len() == i,
            parts_view(parts@).len() == parts@.len(),
            forall|k: int| 0 <= k < parts@.len() ==> #[trigger] parts_view(parts@)[k] == part_view(parts@[k]),
            forall|k: int| 0 <= k < i ==> #[trigger] part_view(out@[k]) == part_view(parts@[k]),
        decreases parts@.len() - i,
    {
        let p = match &parts[i] {
            StringPart::Literal(s) => StringPart::Literal(s.clone()),
            StringPart::Input(s) => StringPart::Input(s.clone()),
        };
        out.push(p);
        i = i + 1;
    }
    proof {
        lemma_parts_view(out@);
        assert(parts_view(out@) =~= parts_view(parts@));
    }
    out
}

/// The text of the input name at `p`, known to be one.
fn input_name_at(toks: &Vec<(usize, Token, usize)>, p: usize) -> (n: String)
    requires
        at(tokens_view(toks@), p as int, Terminal::InputName),
    ensures
        n@ == tokens_view(toks@)[p as int]->InputName_0,
{
    proof {
        lemma_tokens_view(toks@);
    }
    match &toks[p].1 {
        Token::InputName(n) => n.clone(),
        _ => String::new(),
    }
}

/// Reads a chained key at `p`, as [`parse_key_spec`] says.
fn parse_key(toks: &Vec<(usize, Token, usize)>, p: usize) -> (r: Result<(Vec<String>, usize), (usize, Expected)>)
    requires
        p <= toks@.len(),
    ensures
        parsed_as(r, parse_key_spec(tokens_view(toks@), p as int), |v: Vec<String>| strings_view(v@)),
{
    let _len = toks.len();
    let ghost t = tokens_view(toks@);
    proof {
        lemma_tokens_view(toks@);
    }
    let mut segs: Vec<String> = Vec::new();
    let mut i = p;
    proof {
        crate::ast::lemma_strings_view(segs@);
        assert(after(strings_view(segs@), parse_key_spec(t, p as int)) == parse_key_spec(t, p as int)) by {
            if let Parsed::Done(rest, q) = parse_key_spec(t, p as int) {
                assert(seq![] + rest =~= rest);
            }
        }
    }
    loop
        invariant
            p <= i <= toks@.len(),
            _len == toks@.len(),
            t == tokens_view(toks@),
            t.len() == toks@.len(),
            forall|k: int| 0 <= k < toks@.len() ==> #[trigger] t[k] == toks@[k].1@,
            parse_key_spec(t, p as int) == after(strings_view(segs@), parse_key_spec(t, i as int)),
        decreases toks@.len() - i,
    {
        let seg = if i < toks.len() {
            match &toks[i].1 {
                Token::Key(k) => k.clone(),
                _ => {
                    return Err((i, Expected::MemberOrEnd));
                },
            }
        } else {
            return Err((i, Expected::MemberOrEnd));
        };
        let ghost before = segs@;
        segs.push(seg);
        proof {
            assert(segs@.drop_last() =~= before);
            lemma_after_after(strings_view(before), seg@, parse_key_spec(t, i + 2));
        }
        match terminal_at(toks, i + 1) {
            Some(Terminal::Chain) => {
                match terminal_at(toks, i + 2) {
                    Some(Terminal::Key) => {
                        i = i + 2;
                    },
                    _ => {
                        return Err((i + 2, Expected::KeySegment));
                    },
                }
            },
            _ => {
                proof {
                    assert(strings_view(before) + seq![seg@] =~= strings_view(segs@));
                }
                return Ok((segs, i + 1));
            },
        }
    }
}

/// Reads a value at `p`, as [`parse_entry_spec`] says.
pub fn parse_entry(toks: &Vec<(usize, Token, usize)>, p: usize) -> (r: Result<(Entry, usize), (usize, Expected)>)
    requires
        p <= toks@.len(),
    ensures
        parsed_as(r, parse_entry_spec(tokens_view(toks@), p as int), |e: Entry| e@),
    decreases toks@.len() - p, 0nat,
{
    proof {
        lemma_tokens_view(toks@);
    }
    if p >= toks.len() {
        return Err((p, Expected::Entry));
    }
    match &toks[p].1 {
        Token::Literal(parts) => Ok((Entry::String(copy_parts(parts)), p + 1)),
        Token::Integer(i) => Ok((Entry::Integer(*i), p + 1)),
        Token::Float(f) => Ok((Entry::Float(f.clone()), p + 1)),
        Token::Boolean(b) => Ok((Entry::Boolean(*b), p + 1)),
        Token::Null => Ok((Entry::Null, p + 1)),
        Token::InputName(n) => Ok((Entry::Input(n.clone()), p + 1)),
        Token::OpenBrace => match parse_members(toks, p + 1) {
            Ok((pairs, q)) => Ok((Entry::Object(Object { pairs }), q)),
            Err(e) => Err(e),
        },
        Token::OpenBracket => match parse_items(toks, p + 1) {
            Ok((items, q)) => Ok((Entry::Array(items), q)),
            Err(e) => Err(e),
        },
        _ => Err((p, Expected::Entry)),
    }
}

/// Reads the pairs and spreads of an object at `p`, as [`parse_members_spec`] says.
pub fn parse_members(toks: &Vec<(usize, Token, usize)>, p: usize) -> (r: Result<(Vec<PairOrSpread>, usize), (usize, Expected)>)
    requires
        p <= toks@.len(),
    ensures
        parsed_as(r, parse_members_spec(tokens_view(toks@), p as int), |v: Vec<PairOrSpread>| members_view(v@)),
    decreases toks@.len() - p, 2nat,
{
    let _len = toks.len();
    let ghost t = tokens_view(toks@);
    proof {
        lemma_tokens_view(toks@);
    }
    let mut out: Vec<PairOrSpread> = Vec::new();
    let mut i = p;
    proof {
        assert(after(members_view(out@), parse_members_spec(t, p as int)) == parse_members_spec(t, p as int)) by {
            if let Parsed::Done(rest, q) = parse_members_spec(t, p as int) {
                assert(seq![] + rest =~= rest);
            }
        }
    }
    loop
        invariant
            p <= i <= toks@.len(),
            _len == toks@.len(),
            t == tokens_view(toks@),
            t.len() == toks@.len(),
            parse_members_spec(t, p as int) == after(members_view(out@), parse_members_spec(t, i as int)),
        decreases toks@.len() - i,
    {
        match terminal_at(toks, i) {
            Some(Terminal::CloseBrace) => {
                proof {
                    lemma_after_empty(members_view(out@), i + 1);
                }
                return Ok((out, i + 1));
            },
            Some(Terminal::Key) | Some(Terminal::Spread) => {
                proof {
                    lemma_member_sound(t, i as int);
                }
                match parse_member(toks, i) {
                    Ok((m, q)) => {
                        let ghost before = out@;
                        proof {
                            lemma_after_after(members_view(before), member_view(m), parse_members_spec(t, q as int));
                        }
                        out.push(m);
                        proof {
                            assert(out@.drop_last() =~= before);
                        }
                        i = q;
                    },
                    Err(e) => {
                        return Err(e);
                    },
                }
            },
            _ => {
                return Err((i, Expected::MemberOrEnd));
            },
        }
    }
}

/// Reads one pair or spread of an object at `p`, as [`parse_member_spec`] says.
pub fn parse_member(toks: &Vec<(usize, Token, usize)>, p: usize) -> (r: Result<(PairOrSpread, usize), (usize, Expected)>)
    requires
        p <= toks@.len(),
    ensures
        parsed_as(r, parse_member_spec(tokens_view(toks@), p as int), |m: PairOrSpread| member_view(m)),
    decreases toks@.len() - p, 1nat,
{
    let _len = toks.len();
    let ghost t = tokens_view(toks@);
    proof {
        lemma_tokens_view(toks@);
    }
    match terminal_at(toks, p) {
        Some(Terminal::Spread) => {
            match terminal_at(toks, p + 1) {
                Some(Terminal::InputName) => {
                    let n = input_name_at(toks, p + 1);
                    Ok((PairOrSpread::Spread(n), p + 2))
                },
                _ => Err((p + 1, Expected::SpreadInput)),
            }
        },
        _ => {
            proof {
                lemma_key_sound(t, p as int);
            }
            match parse_key(toks, p) {
                Ok((segments, q)) => {
                    proof {
                        crate::ast::lemma_strings_view(segments@);
                    }
                    if p < q && q < toks.len() && matches!(terminal_at(toks, q), Some(Terminal::Equals)) {
                        match parse_entry(toks, q + 1) {
                            Ok((e, r)) => Ok((PairOrSpread::Pair(ChainedKey { segments }, e), r)),
                            Err(e) => Err(e),
                        }
                    } else {
                        Err((q, Expected::KeyContinuation))
                    }
                },
                Err(e) => Err(e),
            }
        },
    }
}

/// Reads the elements and spreads of an array at `p`, as [`parse_items_spec`] says.
pub fn parse_items(toks: &Vec<(usize, Token, usize)>, p: usize) -> (r: Result<(Vec<EntryOrSpread>, usize), (usize, Expected)>)
    requires
        p <= toks@.len(),
    ensures
        parsed_as(r, parse_items_spec(tokens_view(toks@), p as int), |v: Vec<EntryOrSpread>| items_view(v@)),
    decreases toks@.len() - p, 2nat,
{
    let _len = toks.len();
    let ghost t = tokens_view(toks@);
    proof {
        lemma_tokens_view(toks@);
    }
    let mut out: Vec<EntryOrSpread> = Vec::new();
    let mut i = p;
    proof {
        assert(after(items_view(out@), parse_items_spec(t, p as int)) == parse_items_spec(t, p as int)) by {
            if let Parsed::Done(rest, q) = parse_items_spec(t, p as int) {
                assert(seq![] + rest =~= rest);
            }
        }
    }
    loop
        invariant
            p <= i <= toks@.len(),
            _len == toks@.len(),
            t == tokens_view(toks@),
            t.len() == toks@.len(),
            parse_items_spec(t, p as int) == after(items_view(out@), parse_items_spec(t, i as int)),
        decreases toks@.len() - i,
    {
        match terminal_at(toks, i) {
            Some(Terminal::CloseBracket) => {
                proof {
                    lemma_after_empty(items_view(out@), i + 1);
                }
                return Ok((out, i + 1));
            },
            Some(Terminal::Spread) | Some(Terminal::Literal) | Some(Terminal::Integer) | Some(Terminal::Float)
            | Some(Terminal::Boolean) | Some(Terminal::Null) | Some(Terminal::InputName)
            | Some(Terminal::OpenBrace) | Some(Terminal::OpenBracket) => {
                proof {
                    lemma_item_sound(t, i as int);
                }
                match parse_item(toks, i) {
                    Ok((it, q)) => {
                        let ghost before = out@;
                        proof {
                            lemma_after_after(items_view(before), item_view(it), parse_items_spec(t, q as int));
                        }
                        out.push(it);
                        proof {
                            assert(out@.drop_last() =~= before);
                        }
                        i = q;
                    },
                    Err(e) => {
                        return Err(e);
                    },
                }
            },
            _ => {
                return Err((i, Expected::ItemOrEnd));
            },
        }
    }
}

/// Reads one element or spread of an array at `p`, as [`parse_item_spec`] says.
pub fn parse_item(toks: &Vec<(usize, Token, usize)>, p: usize) -> (r: Result<(EntryOrSpread, usize), (usize, Expected)>)
    requires
        p <= toks@.len(),
    ensures
        parsed_as(r, parse_item_spec(tokens_view(toks@), p as int), |it: EntryOrSpread| item_view(it)),
    decreases toks@.len() - p, 1nat,
{
    let _len = toks.len();
    proof {
        lemma_tokens_view(toks@);
    }
    match terminal_at(toks, p) {
        Some(Terminal::Spread) => {
            match terminal_at(toks, p + 1) {
                Some(Terminal::InputName) => {
                    let n = input_name_at(toks, p + 1);
                    Ok((EntryOrSpread::Spread(n), p + 2))
                },
                _ => Err((p + 1, Expected::SpreadInput)),
            }
        },
        _ => match parse_entry(toks, p) {
            Ok((e, q)) => Ok((EntryOrSpread::Entry(e), q)),
            Err(e) => Err(e),
        },
    }
}

/// Reads the input declarations at `p`, as [`parse_inputs_spec`] says.
pub fn parse_inputs(toks: &Vec<(usize, Token, usize)>, p: usize) -> (r: Result<(Vec<(String, Entry)>, usize), (usize, Expected)>)
    requires
        p <= toks@.len(),
    ensures
        parsed_as(r, parse_inputs_spec(tokens_view(toks@), p as int), |v: Vec<(String, Entry)>| inputs_view(v@)),
{
    let _len = toks.len();
    let ghost t = tokens_view(toks@);
    proof {
        lemma_tokens_view(toks@);
    }
    let mut out: Vec<(String, Entry)> = Vec::new();
    let mut i = p;
    proof {
        assert(after(inputs_view(out@), parse_inputs_spec(t, p as int)) == parse_inputs_spec(t, p as int)) by {
            if let Parsed::Done(rest, q) = parse_inputs_spec(t, p as int) {
                assert(seq![] + rest =~= rest);
            }
        }
    }
    loop
        invariant
            p <= i <= toks@.len(),
            _len == toks@.len(),
            t == tokens_view(toks@),
            t.len() == toks@.len(),
            parse_inputs_spec(t, p as int) == after(inputs_view(out@), parse_inputs_spec(t, i as int)),
        decreases toks@.len() - i,
    {
        match terminal_at(toks, i) {
            Some(Terminal::CloseBrace) => {
                proof {
                    lemma_after_empty(inputs_view(out@), i + 1);
                }
                return Ok((out, i + 1));
            },
            Some(Terminal::InputName) => {
                match terminal_at(toks, i + 1) {
                    Some(Terminal::Equals) => {},
                    _ => {
                        return Err((i + 1, Expected::InputEquals));
                    },
                }
                let name = input_name_at(toks, i);
                proof {
                    lemma_entry_sound(t, i + 2);
                }
                match parse_entry(toks, i + 2) {
                    Ok((e, q)) => {
                        let ghost before = out@;
                        proof {
                            lemma_after_after(inputs_view(before), (name@, e@), parse_inputs_spec(t, q as int));
                        }
                        out.push((name, e));
                        proof {
                            assert(out@.drop_last() =~= before);
                        }
                        i = q;
                    },
                    Err(e) => {
                        return Err(e);
                    },
                }
            },
            _ => {
                return Err((i, Expected::InputOrEnd));
            },
        }
    }
}

/// Reads the top-level object at `p`, which must end the tokens.
fn parse_body(toks: &Vec<(usize, Token, usize)>, p: usize, inputs: Vec<(String, Entry)>) -> (r: Result<Root, (usize, Expected)>)
    requires
        p <= toks@.len(),
    ensures
        match r {
            Ok(root) => parse_body_spec(tokens_view(toks@), p as int, inputs_view(inputs@))
                == Parsed::Done(root@, toks@.len() as int),
            Err((i, x)) => parse_body_spec(tokens_view(toks@), p as int, inputs_view(inputs@))
                == Parsed::<SRoot>::Stuck(i as int, x),
        },
{
    proof {
        lemma_tokens_view(toks@);
    }
    match parse_members(toks, p) {
        Ok((pairs, q)) => {
            if q == toks.len() {
                Ok(Root { inputs, object: Object { pairs } })
            } else {
                Err((q, Expected::EndOfInput))
            }
        },
        Err(e) => Err(e),
    }
}

/// Reads a whole configuration from its tokens, as [`parse_root_spec`] says.
pub fn parse_tokens(toks: &Vec<(usize, Token, usize)>) -> (r: Result<Root, (usize, Expected)>)
    ensures
        match r {
            Ok(root) => parse_root_spec(tokens_view(toks@)) == Parsed::Done(root@, toks@.len() as int),
            Err((i, x)) => parse_root_spec(tokens_view(toks@)) == Parsed::<SRoot>::Stuck(i as int, x),
        },
{
    let _len = toks.len();
    let ghost t = tokens_view(toks@);
    proof {
        lemma_tokens_view(toks@);
    }
    match terminal_at(toks, 0) {
        Some(Terminal::Let) => {
            match terminal_at(toks, 1) {
                Some(Terminal::OpenBrace) => {},
                _ => {
                    return Err((1, Expected::LetBrace));
                },
            }
            match parse_inputs(toks, 2) {
                Ok((inputs, q)) => {
                    match terminal_at(toks, q) {
                        Some(Terminal::In) => {},
                        _ => {
                            return Err((q, Expected::In));
                        },
                    }
                    match terminal_at(toks, q + 1) {
                        Some(Terminal::OpenBrace) => {},
                        _ => {
                            return Err((q + 1, Expected::ObjectBrace));
                        },
                    }
                    parse_body(toks, q + 2, inputs)
                },
                Err(e) => Err(e),
            }
        },
        Some(Terminal::OpenBrace) => {
            let inputs: Vec<(String, Entry)> = Vec::new();
            proof {
                assert(inputs_view(inputs@) =~= seq![]);
            }
            parse_body(toks, 1, inputs)
        },
        _ => Err((0, Expected::RootStart)),
    }
}

} // verus!
