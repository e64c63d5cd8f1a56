use vstd::prelude::*;
use crate::integer::Integer;
use crate::lexer::{parts_view, SPart, StringPart};

verus! {

/// A chained key such as `foo.bar.baz`: the segments of the key path.
#[derive(Debug, Clone)]
pub struct ChainedKey {
    pub segments: Vec<String>,
}

/// An object in the syntax tree: its pairs and spreads in order.
#[derive(Debug)]
pub struct Object {
    pub pairs: Vec<PairOrSpread>,
}

/// Either a key-value pair or a spread of an input into an object.
#[derive(Debug)]
pub enum PairOrSpread {
    /// A key-value pair in an object.
    Pair(ChainedKey, Entry),
    /// A spread of the named input.
    Spread(String),
}

/// An entry of the language.
#[derive(Debug)]
pub enum Entry {
    /// A string literal, in parts.
    String(Vec<StringPart>),
    /// An integer value.
    Integer(Integer),
    /// A float value, as written.
    Float(String),
    /// A boolean value.
    Boolean(bool),
    /// A nested object.
    Object(Object),
    /// An array of entries and spreads.
    Array(Vec<EntryOrSpread>),
    /// The null value.
    Null,
    /// A reference to an input.
    Input(String),
}

/// Either an entry or a spread of an input into an array.
#[derive(Debug)]
pub enum EntryOrSpread {
    /// An entry of the array.
    Entry(Entry),
    /// A spread of the named input.
    Spread(String),
}

/// The whole configuration: the declared inputs, in order, and the top-level object.
/// When a name is declared more than once, the last declaration counts.
#[derive(Debug)]
pub struct Root {
    pub inputs: Vec<(String, Entry)>,
    pub object: Object,
}

/// The mathematical view of an [`Entry`].
pub enum SEntry {
    String(Seq<SPart>),
    Integer(Integer),
    Float(Seq<char>),
    Boolean(bool),
    Object(Seq<SMember>),
    Array(Seq<SItem>),
    Null,
    Input(Seq<char>),
}

/// The mathematical view of a [`PairOrSpread`].
pub enum SMember {
    Pair(Seq<Seq<char>>, SEntry),
    Spread(Seq<char>),
}

/// The mathematical view of an [`EntryOrSpread`].
pub enum SItem {
    Entry(SEntry),
    Spread(Seq<char>),
}

/// The mathematical view of a [`Root`].
pub struct SRoot {
    pub inputs: Seq<(Seq<char>, SEntry)>,
    pub object: Seq<SMember>,
}

pub open spec fn strings_view(s: Seq<String>) -> Seq<Seq<char>>
    decreases s.len(),
{
    if s.len() == 0 {
        seq![]
    } else {
        strings_view(s.drop_last()).push(s.last()@)
    }
}

pub open spec fn entry_view(e: Entry) -> SEntry
    decreases e, 0nat,
{
    match e {
        Entry::String(parts) => SEntry::String(parts_view(parts@)),
        Entry::Integer(i) => SEntry::Integer(i),
        Entry::Float(f) => SEntry::Float(f@),
        Entry::Boolean(b) => SEntry::Boolean(b),
        Entry::Object(o) => SEntry::Object(members_view(o.pairs@)),
        Entry::Array(items) => SEntry::Array(items_view(items@)),
        Entry::Null => SEntry::Null,
        Entry::Input(name) => SEntry::Input(name@),
    }
}

pub open spec fn member_view(m: PairOrSpread) -> SMember
    decreases m, 0nat,
{
    match m {
        PairOrSpread::Pair(k, e) => SMember::Pair(strings_view(k.segments@), entry_view(e)),
        PairOrSpread::Spread(n) => SMember::Spread(n@),
    }
}

pub open spec fn members_view(s: Seq<PairOrSpread>) -> Seq<SMember>
    decreases s, 0nat,
{
    if s.len() == 0 {
        seq![]
    } else {
        members_view(s.drop_last()).push(member_view(s.last()))
    }
}

pub open spec fn item_view(i: EntryOrSpread) -> SItem
    decreases i, 0nat,
{
    match i {
        EntryOrSpread::Entry(e) => SItem::Entry(entry_view(e)),
        EntryOrSpread::Spread(n) => SItem::Spread(n@),
    }
}

pub open spec fn items_view(s: Seq<EntryOrSpread>) -> Seq<SItem>
    decreases s, 0nat,
{
    if s.len() == 0 {
        seq![]
    } else {
        items_view(s.drop_last()).push(item_view(s.last()))
    }
}

pub open spec fn inputs_view(s: Seq<(String, Entry)>) -> Seq<(Seq<char>, SEntry)>
    decreases s, 0nat,
{
    if s.len() == 0 {
        seq![]
    } else {
        inputs_view(s.drop_last()).push((s.last().0@, entry_view(s.last().1)))
    }
}

impl View for Entry {
    type V = SEntry;

    open spec fn view(&self) -> SEntry {
        entry_view(*self)
    }
}

impl View for Root {
    type V = SRoot;

    open spec fn view(&self) -> SRoot {
        SRoot { inputs: inputs_view(self.inputs@), object: members_view(self.object.pairs@) }
    }
}

pub proof fn lemma_strings_view(s: Seq<String>)
    ensures
        strings_view(s).len() == s.len(),
        forall|i: int| 0 <= i < s.len() ==> #[trigger] strings_view(s)[i] == s[i]@,
    decreases s.len(),
{
    if s.len() > 0 {
        lemma_strings_view(s.drop_last());
    }
}

pub proof fn lemma_members_view(s: Seq<PairOrSpread>)
    ensures
        members_view(s).len() == s.len(),
        forall|i: int| 0 <= i < s.len() ==> #[trigger] members_view(s)[i] == member_view(s[i]),
    decreases s.len(),
{
    if s.len() > 0 {
        lemma_members_view(s.drop_last());
    }
}

pub proof fn lemma_items_view(s: Seq<EntryOrSpread>)
    ensures
        items_view(s).len() == s.len(),
        forall|i: int| 0 <= i < s.len() ==> #[trigger] items_view(s)[i] == item_view(s[i]),
    decreases s.len(),
{
    if s.len() > 0 {
        lemma_items_view(s.drop_last());
    }
}

pub proof fn lemma_inputs_view(s: Seq<(String, Entry)>)
    ensures
        inputs_view(s).len() == s.len(),
        forall|i: int| 0 <= i < s.len() ==> #[trigger] inputs_view(s)[i] == (s[i].0@, entry_view(s[i].1)),
    decreases s.len(),
{
    if s.len() > 0 {
        lemma_inputs_view(s.drop_last());
    }
}

} // verus!
