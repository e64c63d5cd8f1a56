use vstd::prelude::*;
use crate::ast::{SEntry, SItem, SMember, SRoot};
use crate::lexer::SToken;

verus! {

// The grammar of the language, written as the tokens that each piece of
// syntax is made of.  A text is well-formed when some tree prints as its
// tokens.

/// `key ("." key)*`
pub open spec fn key_tokens(segs: Seq<Seq<char>>) -> Seq<SToken>
    decreases segs.len(),
{
    if segs.len() == 0 {
        seq![]
    } else if segs.len() == 1 {
        seq![SToken::Key(segs[0])]
    } else {
        seq![SToken::Key(segs[0]), SToken::Chain] + key_tokens(segs.drop_first())
    }
}

/// The tokens of an entry.
pub open spec fn entry_tokens(e: SEntry) -> Seq<SToken>
    decreases e, 0nat,
{
    match e {
        SEntry::String(parts) => seq![SToken::Literal(parts)],
        SEntry::Integer(i) => seq![SToken::Integer(i)],
        SEntry::Float(f) => seq![SToken::Float(f)],
        SEntry::Boolean(b) => seq![SToken::Boolean(b)],
        SEntry::Null => seq![SToken::Null],
        SEntry::Input(n) => seq![SToken::InputName(n)],
        SEntry::Object(ms) => seq![SToken::OpenBrace] + members_tokens(ms) + seq![SToken::CloseBrace],
        SEntry::Array(items) => seq![SToken::OpenBracket] + items_tokens(items) + seq![SToken::CloseBracket],
    }
}

/// `key = entry` or `.. $input`
pub open spec fn member_tokens(m: SMember) -> Seq<SToken>
    decreases m, 0nat,
{
    match m {
        SMember::Pair(k, e) => key_tokens(k) + seq![SToken::Equals] + entry_tokens(e),
        SMember::Spread(n) => seq![SToken::Spread, SToken::InputName(n)],
    }
}

pub open spec fn members_tokens(ms: Seq<SMember>) -> Seq<SToken>
    decreases ms, 0nat,
{
    if ms.len() == 0 {
        seq![]
    } else {
        member_tokens(ms[0]) + members_tokens(ms.drop_first())
    }
}

/// `entry` or `.. $input`
pub open spec fn item_tokens(it: SItem) -> Seq<SToken>
    decreases it, 0nat,
{
    match it {
        SItem::Entry(e) => entry_tokens(e),
        SItem::Spread(n) => seq![SToken::Spread, SToken::InputName(n)],
    }
}

pub open spec fn items_tokens(items: Seq<SItem>) -> Seq<SToken>
    decreases items, 0nat,
{
    if items.len() == 0 {
        seq![]
    } else {
        item_tokens(items[0]) + items_tokens(items.drop_first())
    }
}

/// `$input = entry`, for each input.
pub open spec fn inputs_tokens(ins: Seq<(Seq<char>, SEntry)>) -> Seq<SToken>
    decreases ins.len(),
{
    if ins.len() == 0 {
        seq![]
    } else {
        seq![SToken::InputName(ins[0].0), SToken::Equals] + entry_tokens(ins[0].1) + inputs_tokens(
            ins.drop_first(),
        )
    }
}

/// `let { inputs } in { members }`
pub open spec fn root_tokens_with_inputs(r: SRoot) -> Seq<SToken> {
    seq![SToken::Let, SToken::OpenBrace] + inputs_tokens(r.inputs) + seq![
        SToken::CloseBrace,
        SToken::In,
        SToken::OpenBrace,
    ] + members_tokens(r.object) + seq![SToken::CloseBrace]
}

/// `{ members }`
pub open spec fn root_tokens_plain(r: SRoot) -> Seq<SToken> {
    seq![SToken::OpenBrace] + members_tokens(r.object) + seq![SToken::CloseBrace]
}

/// `r` is written as the tokens `t`: with a `let` block, or, when it
/// declares no inputs, also without one.
pub open spec fn prints(r: SRoot, t: Seq<SToken>) -> bool {
    t == root_tokens_with_inputs(r) || (r.inputs.len() == 0 && t == root_tokens_plain(r))
}

/// Every chained key of the entry has at least one segment.
pub open spec fn entry_wf(e: SEntry) -> bool
    decreases e, 0nat,
{
    match e {
        SEntry::Object(ms) => members_wf(ms),
        SEntry::Array(items) => items_wf(items),
        _ => true,
    }
}

pub open spec fn member_wf(m: SMember) -> bool
    decreases m, 0nat,
{
    match m {
        SMember::Pair(k, e) => k.len() >= 1 && entry_wf(e),
        SMember::Spread(_) => true,
    }
}

pub open spec fn members_wf(ms: Seq<SMember>) -> bool
    decreases ms, 0nat,
{
    ms.len() == 0 || (member_wf(ms[0]) && members_wf(ms.drop_first()))
}

pub open spec fn item_wf(it: SItem) -> bool
    decreases it, 0nat,
{
    match it {
        SItem::Entry(e) => entry_wf(e),
        SItem::Spread(_) => true,
    }
}

pub open spec fn items_wf(items: Seq<SItem>) -> bool
    decreases items, 0nat,
{
    items.len() == 0 || (item_wf(items[0]) && items_wf(items.drop_first()))
}

pub open spec fn inputs_wf(ins: Seq<(Seq<char>, SEntry)>) -> bool
    decreases ins.len(),
{
    ins.len() == 0 || (entry_wf(ins[0].1) && inputs_wf(ins.drop_first()))
}

pub open spec fn root_wf(r: SRoot) -> bool {
    inputs_wf(r.inputs) && members_wf(r.object)
}

/// Every integer of the entry fits in a signed 64-bit integer.
pub open spec fn entry_ints_fit(e: SEntry) -> bool
    decreases e, 0nat,
{
    match e {
        SEntry::Integer(i) => i64::MIN <= i.value() <= i64::MAX,
        SEntry::Object(ms) => members_ints_fit(ms),
        SEntry::Array(items) => items_ints_fit(items),
        _ => true,
    }
}

pub open spec fn member_ints_fit(m: SMember) -> bool
    decreases m, 0nat,
{
    match m {
        SMember::Pair(_, e) => entry_ints_fit(e),
        SMember::Spread(_) => true,
    }
}

pub open spec fn members_ints_fit(ms: Seq<SMember>) -> bool
    decreases ms, 0nat,
{
    ms.len() == 0 || (member_ints_fit(ms[0]) && members_ints_fit(ms.drop_first()))
}

pub open spec fn item_ints_fit(it: SItem) -> bool
    decreases it, 0nat,
{
    match it {
        SItem::Entry(e) => entry_ints_fit(e),
        SItem::Spread(_) => true,
    }
}

pub open spec fn items_ints_fit(items: Seq<SItem>) -> bool
    decreases items, 0nat,
{
    items.len() == 0 || (item_ints_fit(items[0]) && items_ints_fit(items.drop_first()))
}

/// Every integer of the declared inputs fits in a signed 64-bit integer.
pub open spec fn inputs_ints_fit(ins: Seq<(Seq<char>, SEntry)>) -> bool {
    forall|i: int| 0 <= i < ins.len() ==> #[trigger] entry_ints_fit(ins[i].1)
}

/// [`members_ints_fit`] holds exactly when it holds of each member.
pub proof fn lemma_members_ints_fit(ms: Seq<SMember>)
    ensures
        members_ints_fit(ms) <==> forall|k: int| 0 <= k < ms.len() ==> #[trigger] member_ints_fit(ms[k]),
    decreases ms.len(),
{
    if ms.len() > 0 {
        lemma_members_ints_fit(ms.drop_first());
        assert forall|k: int| 0 <= k < ms.len() - 1 implies #[trigger] ms.drop_first()[k] == ms[k + 1] by {}
        if forall|k: int| 0 <= k < ms.len() ==> #[trigger] member_ints_fit(ms[k]) {
            assert forall|k: int| 0 <= k < ms.drop_first().len() implies #[trigger] member_ints_fit(
                ms.drop_first()[k],
            ) by {
                assert(member_ints_fit(ms[k + 1]));
            }
            assert(member_ints_fit(ms[0]));
            assert(members_ints_fit(ms));
        }
        if members_ints_fit(ms) {
            assert forall|k: int| 0 <= k < ms.len() implies #[trigger] member_ints_fit(ms[k]) by {
                if k > 0 {
                    assert(member_ints_fit(ms.drop_first()[k - 1]));
                }
            }
        }
    }
}

/// [`items_ints_fit`] holds exactly when it holds of each item.
pub proof fn lemma_items_ints_fit(items: Seq<SItem>)
    ensures
        items_ints_fit(items) <==> forall|k: int| 0 <= k < items.len() ==> #[trigger] item_ints_fit(items[k]),
    decreases items.len(),
{
    if items.len() > 0 {
        lemma_items_ints_fit(items.drop_first());
        assert forall|k: int| 0 <= k < items.len() - 1 implies #[trigger] items.drop_first()[k] == items[k + 1] by {}
        if forall|k: int| 0 <= k < items.len() ==> #[trigger] item_ints_fit(items[k]) {
            assert forall|k: int| 0 <= k < items.drop_first().len() implies #[trigger] item_ints_fit(
                items.drop_first()[k],
            ) by {
                assert(item_ints_fit(items[k + 1]));
            }
            assert(item_ints_fit(items[0]));
            assert(items_ints_fit(items));
        }
        if items_ints_fit(items) {
            assert forall|k: int| 0 <= k < items.len() implies #[trigger] item_ints_fit(items[k]) by {
                if k > 0 {
                    assert(item_ints_fit(items.drop_first()[k - 1]));
                }
            }
        }
    }
}

/// A token that can start an entry.
pub open spec fn starts_entry(t: SToken) -> bool {
    match t {
        SToken::Literal(_) | SToken::Integer(_) | SToken::Float(_) | SToken::Boolean(_)
        | SToken::Null | SToken::InputName(_) | SToken::OpenBrace | SToken::OpenBracket => true,
        _ => false,
    }
}

// ---------------------------------------------------------------------------
// First tokens.

pub proof fn lemma_entry_first(e: SEntry)
    ensures
        entry_tokens(e).len() >= 1,
        starts_entry(entry_tokens(e)[0]),
{
}

pub proof fn lemma_key_first(k: Seq<Seq<char>>)
    requires
        k.len() >= 1,
    ensures
        key_tokens(k).len() >= 1,
        key_tokens(k)[0] == SToken::Key(k[0]),
{
}

pub proof fn lemma_member_first(m: SMember)
    requires
        member_wf(m),
    ensures
        member_tokens(m).len() >= 1,
        member_tokens(m)[0] is Key || member_tokens(m)[0] is Spread,
{
    if let SMember::Pair(k, e) = m {
        lemma_key_first(k);
    }
}

pub proof fn lemma_item_first(it: SItem)
    ensures
        item_tokens(it).len() >= 1,
        starts_entry(item_tokens(it)[0]) || item_tokens(it)[0] is Spread,
{
    if let SItem::Entry(e) = it {
        lemma_entry_first(e);
    }
}

} // verus!
