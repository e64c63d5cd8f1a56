use vstd::prelude::*;
use crate::grammar::{entry_ints_fit, inputs_ints_fit, item_ints_fit, items_ints_fit, lemma_items_ints_fit, lemma_members_ints_fit, member_ints_fit, members_ints_fit};
use crate::ast::{Entry, EntryOrSpread, PairOrSpread, Root, SEntry, SRoot, SItem, SMember, entry_view, inputs_view, items_view, members_view, strings_view, lemma_inputs_view, lemma_items_view, lemma_members_view, lemma_strings_view};
use crate::error::{Error, LexicalError, SError, lexical_error_message};
use crate::integer::{Integer, decimal_text};
use crate::lexer::{lemma_lexed_fit, LexResult, byte_offset, lex, lex_spans, lexed, tokenize, unescape_key, unescape_quotes};
use crate::messages::{expected_names, read_tokens, token_text, unrecognized_eof_text, unrecognized_token_text};
use crate::parser::{Expected, Parsed, lemma_root_ints_fit, lemma_root_sound, parse_root_spec};
use crate::lexer::{SPart, StringPart, parts_view, lemma_parts_view};
use crate::multiline::{process_multiline, process_multiline_string};
use crate::text::{chars_of, string_from_range, str_eq};
use crate::value::{Object, SValue, Value, extend_entries, keys_distinct, lemma_entry_values_wf, lemma_extend_value_wf, lemma_insert_value_wf, lemma_values_wf, value_wf, insert_entry, key_index, lemma_entries_view, lemma_key_index, lemma_lookup_after_insert, lemma_values_view, lookup, values_view};

verus! {

/// The environment variables that `$env_NAME` inputs may read: name-value pairs.
#[derive(Debug)]
pub struct Env {
    vars: Vec<(String, String)>,
}

pub open spec fn env_pairs_view(s: Seq<(String, String)>) -> Seq<(Seq<char>, Seq<char>)>
    decreases s.len(),
{
    if s.len() == 0 {
        seq![]
    } else {
        env_pairs_view(s.drop_last()).push((s.last().0@, s.last().1@))
    }
}

proof fn lemma_env_pairs_view(s: Seq<(String, String)>)
    ensures
        env_pairs_view(s).len() == s.len(),
        forall|i: int| 0 <= i < s.len() ==> #[trigger] env_pairs_view(s)[i] == (s[i].0@, s[i].1@),
    decreases s.len(),
{
    if s.len() > 0 {
        lemma_env_pairs_view(s.drop_last());
    }
}

impl View for Env {
    type V = Seq<(Seq<char>, Seq<char>)>;

    closed spec fn view(&self) -> Seq<(Seq<char>, Seq<char>)> {
        env_pairs_view(self.vars@)
    }
}

/// The value of the first variable named `name`.
pub open spec fn env_lookup(env: Seq<(Seq<char>, Seq<char>)>, name: Seq<char>) -> Option<Seq<char>>
    decreases env.len(),
{
    if env.len() == 0 {
        None
    } else if env[0].0 == name {
        Some(env[0].1)
    } else {
        env_lookup(env.drop_first(), name)
    }
}

/// Looking up a name gives the value of the first variable with exactly that
/// name, and nothing when no variable has it.
pub proof fn lemma_env_lookup(env: Seq<(Seq<char>, Seq<char>)>, name: Seq<char>)
    ensures
        env_lookup(env, name) is None <==> forall|i: int| 0 <= i < env.len() ==> #[trigger] env[i].0 != name,
        env_lookup(env, name) is Some ==> exists|i: int|
            0 <= i < env.len() && #[trigger] env[i].0 == name && env_lookup(env, name) == Some(env[i].1) && forall|
                j: int,
            | 0 <= j < i ==> #[trigger] env[j].0 != name,
    decreases env.len(),
{
    if env.len() > 0 {
        let rest = env.drop_first();
        lemma_env_lookup(rest, name);
        assert forall|i: int| 0 <= i < rest.len() implies #[trigger] rest[i] == env[i + 1] by {}
        if env[0].0 == name {
            assert(env[0].0 == name && env_lookup(env, name) == Some(env[0].1));
        } else {
            if env_lookup(rest, name) is Some {
                let i = choose|i: int|
                    0 <= i < rest.len() && #[trigger] rest[i].0 == name && env_lookup(rest, name) == Some(rest[i].1)
                        && forall|j: int| 0 <= j < i ==> #[trigger] rest[j].0 != name;
                assert(env[i + 1].0 == name);
                assert forall|j: int| 0 <= j < i + 1 implies #[trigger] env[j].0 != name by {
                    if j > 0 {
                        assert(rest[j - 1].0 != name);
                    }
                }
            } else {
                assert forall|i: int| 0 <= i < env.len() implies #[trigger] env[i].0 != name by {
                    if i > 0 {
                        assert(rest[i - 1].0 != name);
                    }
                }
            }
        }
        if forall|i: int| 0 <= i < env.len() ==> #[trigger] env[i].0 != name {
            assert(env[0].0 != name);
            assert forall|i: int| 0 <= i < rest.len() implies #[trigger] rest[i].0 != name by {
                assert(env[i + 1].0 != name);
            }
        }
    }
}

impl Env {
    /// No environment variables.
    pub fn new() -> (e: Env)
        ensures
            e@ == Seq::<(Seq<char>, Seq<char>)>::empty(),
    {
        Env { vars: Vec::new() }
    }

    /// The given variables, in order.
    pub fn from_vars(vars: Vec<(String, String)>) -> (e: Env)
        ensures
            e@ == env_pairs_view(vars@),
    {
        Env { vars }
    }

    /// The value of the first variable named `name`, if any.
    pub fn get(&self, name: &str) -> (r: Option<&String>)
        ensures
            match r {
                Some(v) => env_lookup(self@, name@) == Some(v@),
                None => env_lookup(self@, name@) is None,
            },
            r is None <==> forall|i: int| 0 <= i < self@.len() ==> #[trigger] self@[i].0 != name@,
            r matches Some(v) ==> exists|i: int|
                0 <= i < self@.len() && #[trigger] self@[i].0 == name@ && self@[i].1 == v@ && forall|j: int|
                    0 <= j < i ==> #[trigger] self@[j].0 != name@,
    {
        proof {
            lemma_env_lookup(self@, name@);
        }
        let ghost e = self@;
        proof {
            lemma_env_pairs_view(self.vars@);
        }
        let mut i: usize = 0;
        proof {
            assert(e.skip(0) =~= e);
        }
        while i < self.vars.len()
            invariant
                i <= self.vars@.len(),
                e == self@,
                e.len() == self.vars@.len(),
                forall|k: int| 0 <= k < e.len() ==> #[trigger] e[k] == (self.vars@[k].0@, self.vars@[k].1@),
                env_lookup(e, name@) == env_lookup(e.skip(i as int), name@),
            decreases self.vars@.len() - i,
        {
            proof {
                assert(e.skip(i as int).drop_first() =~= e.skip(i + 1));
                assert(e.skip(i as int)[0] == e[i as int]);
            }
            if str_eq(self.vars[i].0.as_str(), name) {
                proof {
                    lemma_env_lookup(e, name@);
                    let j = choose|j: int|
                        0 <= j < e.len() && #[trigger] e[j].0 == name@ && env_lookup(e, name@) == Some(e[j].1)
                            && forall|k: int| 0 <= k < j ==> #[trigger] e[k].0 != name@;
                    assert(e[j].1 == self.vars@[i as int].1@);
                    assert(self@[j].0 == name@);
                }
                return Some(&self.vars[i].1);
            }
            i = i + 1;
        }
        None
    }
}

/// The evaluation did not finish with a value or an error.
#[derive(Debug)]
pub enum Abort {
    /// Resolving the named input needs the input itself: resolution does not end.
    CyclicInput(String),
    /// A multi-line string whose common indentation ends inside a character.
    IndentationSplitsCharacter,
}

/// The mathematical view of an [`Abort`].
pub enum SAbort {
    CyclicInput(Seq<char>),
    IndentationSplitsCharacter,
}

impl View for Abort {
    type V = SAbort;

    open spec fn view(&self) -> SAbort {
        match self {
            Abort::CyclicInput(name) => SAbort::CyclicInput(name@),
            Abort::IndentationSplitsCharacter => SAbort::IndentationSplitsCharacter,
        }
    }
}

/// The result of evaluating part of a configuration, in the mathematical view.
pub enum Outcome<T> {
    Done(T),
    Failed(SError),
    Abort(SAbort),
}

/// The result of an evaluation step.
#[derive(Debug)]
pub enum Failure {
    Error(Error),
    Abort(Abort),
}

/// `r` is the outcome `o`.
pub open spec fn outcome_is<T, V>(r: Result<T, Failure>, o: Outcome<V>, view: spec_fn(T) -> V) -> bool {
    match r {
        Ok(v) => o == Outcome::Done(view(v)),
        Err(Failure::Error(e)) => o == Outcome::<V>::Failed(e@),
        Err(Failure::Abort(a)) => o == Outcome::<V>::Abort(a@),
    }
}

/// The number of entries that are `false`.
pub open spec fn count_false(v: Seq<bool>) -> nat
    decreases v.len(),
{
    if v.len() == 0 {
        0
    } else {
        count_false(v.drop_last()) + if v.last() {
            0nat
        } else {
            1nat
        }
    }
}

/// Marking an unmarked position lowers the number of unmarked positions.
pub proof fn lemma_count_false_mark(v: Seq<bool>, i: int)
    requires
        0 <= i < v.len(),
        !v[i],
    ensures
        count_false(v.update(i, true)) < count_false(v),
    decreases v.len(),
{
    let u = v.update(i, true);
    if i < v.len() - 1 {
        lemma_count_false_mark(v.drop_last(), i);
        assert(u.drop_last() =~= v.drop_last().update(i, true));
    } else {
        assert(u.drop_last() =~= v.drop_last());
    }
}

/// The position of the last declaration of `name`, or -1.
pub open spec fn input_index(inputs: Seq<(Seq<char>, SEntry)>, name: Seq<char>) -> int
    decreases inputs.len(),
{
    if inputs.len() == 0 {
        -1
    } else if inputs.last().0 == name {
        inputs.len() - 1
    } else {
        input_index(inputs.drop_last(), name)
    }
}

pub proof fn lemma_input_index(inputs: Seq<(Seq<char>, SEntry)>, name: Seq<char>)
    ensures
        -1 <= input_index(inputs, name) < inputs.len(),
        input_index(inputs, name) >= 0 ==> inputs[input_index(inputs, name)].0 == name,
        forall|j: int| input_index(inputs, name) < j < inputs.len() ==> #[trigger] inputs[j].0 != name,
    decreases inputs.len(),
{
    if inputs.len() > 0 {
        lemma_input_index(inputs.drop_last(), name);
        assert forall|j: int| input_index(inputs, name) < j < inputs.len() implies #[trigger] inputs[j].0 != name by {
            if j < inputs.len() - 1 {
                assert(inputs.drop_last()[j] == inputs[j]);
            }
        }
    }
}

/// The name of the environment variable that an input `env_NAME` reads.
pub open spec fn env_var_name(name: Seq<char>) -> Option<Seq<char>> {
    if name.len() >= 4 && name.take(4) == seq!['e', 'n', 'v', '_'] {
        Some(name.skip(4))
    } else {
        None
    }
}

/// The error for a key path that runs through a value that is not an object.
pub open spec fn non_object_message(key: Seq<char>) -> Seq<char> {
    "Cannot index into non-object at key: "@ + key
}

/// The error for an empty key path.
pub open spec fn empty_path_message() -> Seq<char> {
    "Empty path"@
}

/// Places `v` at the key path `path` inside the entries: the last key is
/// inserted into the innermost object; each earlier key selects a nested
/// object, which is created empty and appended when the key is absent.
pub open spec fn insert_path(
    entries: Seq<(Seq<char>, SValue)>,
    path: Seq<Seq<char>>,
    v: SValue,
) -> Result<Seq<(Seq<char>, SValue)>, SError>
    decreases path.len(),
{
    if path.len() == 0 {
        Err(SError::DeserializationError(empty_path_message()))
    } else if path.len() == 1 {
        Ok(insert_entry(entries, path[0], v))
    } else {
        let first = path[0];
        let i = key_index(entries, first);
        if i < 0 {
            match insert_path(seq![], path.drop_first(), v) {
                Ok(n) => Ok(entries.push((first, SValue::Object(n)))),
                Err(e) => Err(e),
            }
        } else {
            match entries[i].1 {
                SValue::Object(n0) => match insert_path(n0, path.drop_first(), v) {
                    Ok(n) => Ok(entries.update(i, (first, SValue::Object(n)))),
                    Err(e) => Err(e),
                },
                _ => Err(SError::DeserializationError(non_object_message(first))),
            }
        }
    }
}

/// The value found by following the key path `path` through nested objects.
pub open spec fn lookup_path(entries: Seq<(Seq<char>, SValue)>, path: Seq<Seq<char>>) -> Option<SValue>
    decreases path.len(),
{
    if path.len() == 0 {
        None
    } else if path.len() == 1 {
        lookup(entries, path[0])
    } else {
        match lookup(entries, path[0]) {
            Some(SValue::Object(n)) => lookup_path(n, path.drop_first()),
            _ => None,
        }
    }
}

/// After a value is placed at a key path, following that path gives the value back.
pub proof fn lemma_lookup_after_insert_path(entries: Seq<(Seq<char>, SValue)>, path: Seq<Seq<char>>, v: SValue)
    requires
        insert_path(entries, path, v) is Ok,
    ensures
        lookup_path(insert_path(entries, path, v)->Ok_0, path) == Some(v),
    decreases path.len(),
{
    if path.len() == 1 {
        lemma_lookup_after_insert(entries, path[0], v);
    } else {
        let first = path[0];
        let rest = path.drop_first();
        let i = key_index(entries, first);
        lemma_key_index(entries, first);
        if i < 0 {
            let n = insert_path(seq![], rest, v)->Ok_0;
            lemma_lookup_after_insert_path(seq![], rest, v);
            lemma_lookup_after_insert(entries, first, SValue::Object(n));
        } else {
            let n0 = entries[i].1->Object_0;
            let n = insert_path(n0, rest, v)->Ok_0;
            lemma_lookup_after_insert_path(n0, rest, v);
            lemma_lookup_after_insert(entries, first, SValue::Object(n));
            assert(insert_entry(entries, first, SValue::Object(n)) == entries.update(i, (first, SValue::Object(n))));
        }
    }
}

/// With no entries, a value can be placed at any key path that is not empty.
proof fn lemma_insert_path_fresh(path: Seq<Seq<char>>, v: SValue)
    requires
        path.len() >= 1,
    ensures
        insert_path(seq![], path, v) is Ok,
    decreases path.len(),
{
    if path.len() > 1 {
        lemma_insert_path_fresh(path.drop_first(), v);
    }
}

/// Following the key path `p` reaches an object.
pub open spec fn object_at(entries: Seq<(Seq<char>, SValue)>, p: Seq<Seq<char>>) -> bool {
    match lookup_path(entries, p) {
        Some(SValue::Object(_)) => true,
        _ => false,
    }
}

/// Following the key path `p` reaches a value that is not an object.
pub open spec fn non_object_at(entries: Seq<(Seq<char>, SValue)>, p: Seq<Seq<char>>) -> bool {
    match lookup_path(entries, p) {
        Some(SValue::Object(_)) => false,
        Some(_) => true,
        None => false,
    }
}

/// The path runs into a value that is not an object at its key `j`, before its
/// last key, after leading through objects.
pub open spec fn blocked_at(entries: Seq<(Seq<char>, SValue)>, path: Seq<Seq<char>>, j: int) -> bool {
    &&& 0 <= j < path.len() - 1
    &&& forall|k: int| 0 <= k < j ==> #[trigger] object_at(entries, path.take(k + 1))
    &&& non_object_at(entries, path.take(j + 1))
}

/// Placing a value at a key path fails only for an empty path, with the
/// message "Empty path", or where the path runs into a value that is not an
/// object before its last key, with a message naming that key.
pub proof fn lemma_insert_path_error(entries: Seq<(Seq<char>, SValue)>, path: Seq<Seq<char>>, v: SValue)
    requires
        insert_path(entries, path, v) is Err,
    ensures
        path.len() == 0 ==> insert_path(entries, path, v) == Err::<Seq<(Seq<char>, SValue)>, SError>(
            SError::DeserializationError(empty_path_message()),
        ),
        path.len() > 0 ==> exists|j: int|
            #[trigger] blocked_at(entries, path, j) && insert_path(entries, path, v) == Err::<
                Seq<(Seq<char>, SValue)>,
                SError,
            >(SError::DeserializationError(non_object_message(path[j]))),
    decreases path.len(),
{
    if path.len() > 1 {
        let first = path[0];
        let rest = path.drop_first();
        let i = key_index(entries, first);
        lemma_key_index(entries, first);
        assert(path.take(1) =~= seq![first]);
        if i < 0 {
            lemma_insert_path_fresh(rest, v);
        } else {
            match entries[i].1 {
                SValue::Object(n0) => {
                    lemma_insert_path_error(n0, rest, v);
                    let j0 = choose|j: int|
                        #[trigger] blocked_at(n0, rest, j) && insert_path(n0, rest, v) == Err::<
                            Seq<(Seq<char>, SValue)>,
                            SError,
                        >(SError::DeserializationError(non_object_message(rest[j])));
                    assert forall|k: int| 0 <= k <= j0 + 1 implies lookup_path(entries, path.take(k + 1))
                        == if k == 0 {
                        Some(SValue::Object(n0))
                    } else {
                        lookup_path(n0, rest.take(k))
                    } by {
                        assert(path.take(k + 1)[0] == first);
                        if k > 0 {
                            assert(path.take(k + 1).drop_first() =~= rest.take(k));
                        }
                    }
                    assert forall|k: int| 0 <= k < j0 + 1 implies #[trigger] object_at(entries, path.take(k + 1)) by {
                        if k > 0 {
                            assert(object_at(n0, rest.take((k - 1) + 1)));
                        }
                    }
                    assert(rest[j0] == path[j0 + 1]);
                    assert(blocked_at(entries, path, j0 + 1));
                },
                _ => {
                    assert(lookup_path(entries, path.take(1)) == Some(entries[i].1));
                    assert(blocked_at(entries, path, 0));
                },
            }
        }
    }
}

/// A measure of an entry's size that every part is smaller than.
pub open spec fn entry_size(e: SEntry) -> nat
    decreases e, 0nat,
{
    match e {
        SEntry::String(parts) => parts.len() + 1,
        SEntry::Object(members) => members_size(members) + 1,
        SEntry::Array(items) => items_size(items) + 1,
        _ => 1,
    }
}

pub open spec fn members_size(ms: Seq<SMember>) -> nat
    decreases ms, 0nat,
{
    if ms.len() == 0 {
        0
    } else {
        members_size(ms.drop_last()) + match ms.last() {
            SMember::Pair(_, e) => entry_size(e) + 1,
            SMember::Spread(_) => 1,
        }
    }
}

pub open spec fn items_size(items: Seq<SItem>) -> nat
    decreases items, 0nat,
{
    if items.len() == 0 {
        0
    } else {
        items_size(items.drop_last()) + match items.last() {
            SItem::Entry(e) => entry_size(e) + 1,
            SItem::Spread(_) => 1,
        }
    }
}

/// The value of an entry: strings are assembled from their parts and laid
/// out, objects are built pair by pair and spread by spread, arrays element
/// by element, and inputs are looked up.
pub open spec fn resolve_entry(
    e: SEntry,
    inputs: Seq<(Seq<char>, SEntry)>,
    env: Seq<(Seq<char>, Seq<char>)>,
    vis: Seq<bool>,
) -> Outcome<SValue>
    decreases count_false(vis), entry_size(e), 1nat,
{
    match e {
        SEntry::String(parts) => {
            if parts.len() == 0 {
                Outcome::Done(SValue::String(seq![]))
            } else {
                match resolve_parts(parts, inputs, env, vis) {
                    Outcome::Done(base) => match process_multiline(base) {
                        Some(s) => Outcome::Done(SValue::String(s)),
                        None => Outcome::Abort(SAbort::IndentationSplitsCharacter),
                    },
                    Outcome::Failed(err) => Outcome::Failed(err),
                    Outcome::Abort(a) => Outcome::Abort(a),
                }
            }
        },
        SEntry::Integer(i) => Outcome::Done(SValue::Integer(i)),
        SEntry::Float(f) => Outcome::Done(SValue::Float(f)),
        SEntry::Boolean(b) => Outcome::Done(SValue::Boolean(b)),
        SEntry::Object(members) => match resolve_members(members, inputs, env, vis) {
            Outcome::Done(es) => Outcome::Done(SValue::Object(es)),
            Outcome::Failed(err) => Outcome::Failed(err),
            Outcome::Abort(a) => Outcome::Abort(a),
        },
        SEntry::Array(items) => match resolve_items(items, inputs, env, vis) {
            Outcome::Done(vs) => Outcome::Done(SValue::Array(vs)),
            Outcome::Failed(err) => Outcome::Failed(err),
            Outcome::Abort(a) => Outcome::Abort(a),
        },
        SEntry::Null => Outcome::Done(SValue::Null),
        SEntry::Input(name) => resolve_input(name, inputs, env, vis),
    }
}

/// The value of a declared input, unless it is being resolved already.
pub open spec fn resolve_declared(
    name: Seq<char>,
    inputs: Seq<(Seq<char>, SEntry)>,
    env: Seq<(Seq<char>, Seq<char>)>,
    vis: Seq<bool>,
) -> Outcome<SValue>
    decreases count_false(vis), 0nat, 0nat,
{
    let i = input_index(inputs, name);
    if i < 0 {
        Outcome::Failed(SError::InputResolveError(name))
    } else if i >= vis.len() || vis[i] {
        Outcome::Abort(SAbort::CyclicInput(name))
    } else {
        proof {
            lemma_count_false_mark(vis, i);
        }
        resolve_entry(inputs[i].1, inputs, env, vis.update(i, true))
    }
}

/// The value of an input reference: an `env_NAME` input set in the
/// environment reads the variable, anything else the declared input.
pub open spec fn resolve_input(
    name: Seq<char>,
    inputs: Seq<(Seq<char>, SEntry)>,
    env: Seq<(Seq<char>, Seq<char>)>,
    vis: Seq<bool>,
) -> Outcome<SValue>
    decreases count_false(vis), 0nat, 1nat,
{
    match env_var_name(name) {
        Some(var) => match env_lookup(env, var) {
            Some(value) => Outcome::Done(SValue::String(value)),
            None => resolve_declared(name, inputs, env, vis),
        },
        None => resolve_declared(name, inputs, env, vis),
    }
}

/// The text of a string's parts, interpolated inputs included.
pub open spec fn resolve_parts(
    parts: Seq<SPart>,
    inputs: Seq<(Seq<char>, SEntry)>,
    env: Seq<(Seq<char>, Seq<char>)>,
    vis: Seq<bool>,
) -> Outcome<Seq<char>>
    decreases count_false(vis), parts.len(), 2nat,
{
    if parts.len() == 0 {
        Outcome::Done(seq![])
    } else {
        match resolve_parts(parts.drop_last(), inputs, env, vis) {
            Outcome::Done(acc) => match parts.last() {
                SPart::Literal(l) => Outcome::Done(acc + l),
                SPart::Input(name) => match resolve_input(name, inputs, env, vis) {
                    Outcome::Done(SValue::String(s)) => Outcome::Done(acc + s),
                    Outcome::Done(_) => Outcome::Failed(SError::InvalidInterpolationError),
                    Outcome::Failed(err) => Outcome::Failed(err),
                    Outcome::Abort(a) => Outcome::Abort(a),
                },
            },
            Outcome::Failed(err) => Outcome::Failed(err),
            Outcome::Abort(a) => Outcome::Abort(a),
        }
    }
}

/// The segments of a key path with every `\'` replaced by `'`.
pub open spec fn unescape_path(path: Seq<Seq<char>>) -> Seq<Seq<char>> {
    path.map_values(|seg: Seq<char>| unescape_quotes(seg))
}

/// The entries of an object, built from its pairs and spreads in order.
pub open spec fn resolve_members(
    members: Seq<SMember>,
    inputs: Seq<(Seq<char>, SEntry)>,
    env: Seq<(Seq<char>, Seq<char>)>,
    vis: Seq<bool>,
) -> Outcome<Seq<(Seq<char>, SValue)>>
    decreases count_false(vis), members_size(members), 2nat,
{
    if members.len() == 0 {
        Outcome::Done(seq![])
    } else {
        match resolve_members(members.drop_last(), inputs, env, vis) {
            Outcome::Done(acc) => match members.last() {
                SMember::Pair(path, e) => match resolve_entry(e, inputs, env, vis) {
                    Outcome::Done(v) => match insert_path(acc, unescape_path(path), v) {
                        Ok(n) => Outcome::Done(n),
                        Err(err) => Outcome::Failed(err),
                    },
                    Outcome::Failed(err) => Outcome::Failed(err),
                    Outcome::Abort(a) => Outcome::Abort(a),
                },
                SMember::Spread(name) => match resolve_declared(name, inputs, env, vis) {
                    Outcome::Done(SValue::Object(es)) => Outcome::Done(extend_entries(acc, es)),
                    Outcome::Done(_) => Outcome::Failed(SError::InvalidSpreadError),
                    Outcome::Failed(err) => Outcome::Failed(err),
                    Outcome::Abort(a) => Outcome::Abort(a),
                },
            },
            Outcome::Failed(err) => Outcome::Failed(err),
            Outcome::Abort(a) => Outcome::Abort(a),
        }
    }
}

/// The elements of an array, built from its entries and spreads in order.
pub open spec fn resolve_items(
    items: Seq<SItem>,
    inputs: Seq<(Seq<char>, SEntry)>,
    env: Seq<(Seq<char>, Seq<char>)>,
    vis: Seq<bool>,
) -> Outcome<Seq<SValue>>
    decreases count_false(vis), items_size(items), 2nat,
{
    if items.len() == 0 {
        Outcome::Done(seq![])
    } else {
        match resolve_items(items.drop_last(), inputs, env, vis) {
            Outcome::Done(acc) => match items.last() {
                SItem::Entry(e) => match resolve_entry(e, inputs, env, vis) {
                    Outcome::Done(v) => Outcome::Done(acc.push(v)),
                    Outcome::Failed(err) => Outcome::Failed(err),
                    Outcome::Abort(a) => Outcome::Abort(a),
                },
                SItem::Spread(name) => match resolve_input(name, inputs, env, vis) {
                    Outcome::Done(SValue::Array(vs)) => Outcome::Done(acc + vs),
                    Outcome::Done(_) => Outcome::Failed(SError::InvalidSpreadError),
                    Outcome::Failed(err) => Outcome::Failed(err),
                    Outcome::Abort(a) => Outcome::Abort(a),
                },
            },
            Outcome::Failed(err) => Outcome::Failed(err),
            Outcome::Abort(a) => Outcome::Abort(a),
        }
    }
}

/// A string holding the literal text.
fn message_text(s: &str) -> (r: String)
    ensures
        r@ == s@,
{
    String::from_str(s)
}

/// Places `value` at the key path `path[start..]` inside `obj`, as
/// [`insert_path`] says; on an error `obj` is left as it was.
pub fn insert_at_path(obj: &mut Object, path: &Vec<String>, start: usize, value: Value) -> (r: Result<(), Error>)
    requires
        start <= path@.len(),
    ensures
        match insert_path(old(obj)@, strings_view(path@).skip(start as int), value@) {
            Ok(n) => r is Ok && final(obj)@ == n,
            Err(e) => r matches Err(x) && x@ == e && final(obj)@ == old(obj)@,
        },
    decreases path@.len() - start,
{
    proof {
        lemma_strings_view(path@);
    }
    let ghost p = strings_view(path@).skip(start as int);
    if start >= path.len() {
        return Err(Error::DeserializationError(message_text("Empty path")));
    }
    proof {
        assert(p.drop_first() =~= strings_view(path@).skip(start + 1));
        assert(p[0] == path@[start as int]@);
    }
    if start + 1 == path.len() {
        obj.insert(path[start].clone(), value);
        return Ok(());
    }
    let first = &path[start];
    proof {
        lemma_key_index(old(obj)@, first@);
    }
    match obj.index_of(first.as_str()) {
        None => {
            let mut nested = Object::new();
            let r = insert_at_path(&mut nested, path, start + 1, value);
            match r {
                Err(e) => Err(e),
                Ok(()) => {
                    obj.insert(first.clone(), Value::Object(nested));
                    Ok(())
                },
            }
        },
        Some(i) => {
            let child = obj.take_at(i);
            match child {
                Value::Object(mut nested) => {
                    let r = insert_at_path(&mut nested, path, start + 1, value);
                    obj.put_at(i, Value::Object(nested));
                    proof {
                        if r is Err {
                            assert(final(obj)@ =~= old(obj)@);
                        }
                    }
                    r
                },
                other => {
                    obj.put_at(i, other);
                    proof {
                        assert(final(obj)@ =~= old(obj)@);
                    }
                    let mut msg = message_text("Cannot index into non-object at key: ");
                    msg.append(first.as_str());
                    Err(Error::DeserializationError(msg))
                },
            }
        },
    }
}

/// The position of the last declaration of `name`, if any.
fn lookup_input(inputs: &Vec<(String, Entry)>, name: &str) -> (r: Option<usize>)
    ensures
        match r {
            Some(i) => i == input_index(inputs_view(inputs@), name@) && i < inputs@.len(),
            None => input_index(inputs_view(inputs@), name@) < 0,
        },
{
    let ghost iv = inputs_view(inputs@);
    proof {
        lemma_inputs_view(inputs@);
    }
    let mut n = inputs.len();
    proof {
        assert(iv.take(n as int) =~= iv);
    }
    while n > 0
        invariant
            n <= inputs@.len(),
            iv == inputs_view(inputs@),
            iv.len() == inputs@.len(),
            forall|k: int| 0 <= k < iv.len() ==> #[trigger] iv[k] == (inputs@[k].0@, entry_view(inputs@[k].1)),
            input_index(iv, name@) == input_index(iv.take(n as int), name@),
        decreases n,
    {
        proof {
            assert(iv.take(n as int).drop_last() =~= iv.take(n - 1));
            assert(iv.take(n as int).last() == iv[n - 1]);
        }
        if str_eq(inputs[n - 1].0.as_str(), name) {
            return Some(n - 1);
        }
        n = n - 1;
    }
    None
}

pub proof fn lemma_members_size_elem(ms: Seq<SMember>, k: int)
    requires
        0 <= k < ms.len(),
    ensures
        match ms[k] {
            SMember::Pair(_, e) => entry_size(e) < members_size(ms),
            SMember::Spread(_) => 0 < members_size(ms),
        },
    decreases ms.len(),
{
    if k < ms.len() - 1 {
        lemma_members_size_elem(ms.drop_last(), k);
    }
}

pub proof fn lemma_items_size_elem(items: Seq<SItem>, k: int)
    requires
        0 <= k < items.len(),
    ensures
        match items[k] {
            SItem::Entry(e) => entry_size(e) < items_size(items),
            SItem::Spread(_) => 0 < items_size(items),
        },
    decreases items.len(),
{
    if k < items.len() - 1 {
        lemma_items_size_elem(items.drop_last(), k);
    }
}

/// Once a prefix of the parts fails, the whole does, in the same way.
proof fn lemma_parts_stop(parts: Seq<SPart>, k: int, inputs: Seq<(Seq<char>, SEntry)>, env: Seq<(Seq<char>, Seq<char>)>, vis: Seq<bool>)
    requires
        0 <= k <= parts.len(),
        !(resolve_parts(parts.take(k), inputs, env, vis) is Done),
    ensures
        resolve_parts(parts, inputs, env, vis) == resolve_parts(parts.take(k), inputs, env, vis),
    decreases parts.len() - k,
{
    if k < parts.len() {
        assert(parts.take(k + 1).drop_last() =~= parts.take(k));
        lemma_parts_stop(parts, k + 1, inputs, env, vis);
    } else {
        assert(parts.take(k) =~= parts);
    }
}

proof fn lemma_members_stop(ms: Seq<SMember>, k: int, inputs: Seq<(Seq<char>, SEntry)>, env: Seq<(Seq<char>, Seq<char>)>, vis: Seq<bool>)
    requires
        0 <= k <= ms.len(),
        !(resolve_members(ms.take(k), inputs, env, vis) is Done),
    ensures
        resolve_members(ms, inputs, env, vis) == resolve_members(ms.take(k), inputs, env, vis),
    decreases ms.len() - k,
{
    if k < ms.len() {
        assert(ms.take(k + 1).drop_last() =~= ms.take(k));
        lemma_members_stop(ms, k + 1, inputs, env, vis);
    } else {
        assert(ms.take(k) =~= ms);
    }
}

proof fn lemma_items_stop(items: Seq<SItem>, k: int, inputs: Seq<(Seq<char>, SEntry)>, env: Seq<(Seq<char>, Seq<char>)>, vis: Seq<bool>)
    requires
        0 <= k <= items.len(),
        !(resolve_items(items.take(k), inputs, env, vis) is Done),
    ensures
        resolve_items(items, inputs, env, vis) == resolve_items(items.take(k), inputs, env, vis),
    decreases items.len() - k,
{
    if k < items.len() {
        assert(items.take(k + 1).drop_last() =~= items.take(k));
        lemma_items_stop(items, k + 1, inputs, env, vis);
    } else {
        assert(items.take(k) =~= items);
    }
}

/// The value of the declared input `name`.
fn resolve_declared_exec(
    name: &String,
    inputs: &Vec<(String, Entry)>,
    env: &Env,
    vis: &mut Vec<bool>,
) -> (r: Result<Value, Failure>)
    requires
        old(vis)@.len() == inputs@.len(),
    ensures
        final(vis)@ == old(vis)@,
        outcome_is(r, resolve_declared(name@, inputs_view(inputs@), env@, old(vis)@), |v: Value| v@),
    decreases count_false(old(vis)@), 0nat, 0nat,
{
    proof {
        lemma_inputs_view(inputs@);
    }
    match lookup_input(inputs, name.as_str()) {
        None => Err(Failure::Error(Error::InputResolveError(name.clone()))),
        Some(i) => {
            if vis[i] {
                Err(Failure::Abort(Abort::CyclicInput(name.clone())))
            } else {
                proof {
                    lemma_count_false_mark(old(vis)@, i as int);
                }
                vis.set(i, true);
                let r = resolve_entry_exec(&inputs[i].1, inputs, env, vis);
                vis.set(i, false);
                proof {
                    assert(vis@ =~= old(vis)@);
                }
                r
            }
        },
    }
}

/// The value of the input reference `name`.
fn resolve_input_exec(
    name: &String,
    inputs: &Vec<(String, Entry)>,
    env: &Env,
    vis: &mut Vec<bool>,
) -> (r: Result<Value, Failure>)
    requires
        old(vis)@.len() == inputs@.len(),
    ensures
        final(vis)@ == old(vis)@,
        outcome_is(r, resolve_input(name@, inputs_view(inputs@), env@, old(vis)@), |v: Value| v@),
    decreases count_false(old(vis)@), 0nat, 1nat,
{
    let cs = chars_of(name.as_str());
    if cs.len() >= 4 && cs[0] == 'e' && cs[1] == 'n' && cs[2] == 'v' && cs[3] == '_' {
        let var = string_from_range(&cs, 4, cs.len());
        proof {
            assert(cs@.take(4) =~= seq!['e', 'n', 'v', '_']);
            assert(cs@.subrange(4, cs@.len() as int) =~= name@.skip(4));
        }
        match env.get(var.as_str()) {
            Some(v) => {
                return Ok(Value::String(v.clone()));
            },
            None => {},
        }
    } else {
        proof {
            if name@.len() >= 4 && name@.take(4) == seq!['e', 'n', 'v', '_'] {
                assert(name@.take(4)[0] == 'e');
                assert(name@.take(4)[1] == 'n');
                assert(name@.take(4)[2] == 'v');
                assert(name@.take(4)[3] == '_');
            }
        }
    }
    resolve_declared_exec(name, inputs, env, vis)
}

/// The text of a string's parts.
fn resolve_parts_exec(
    parts: &Vec<StringPart>,
    inputs: &Vec<(String, Entry)>,
    env: &Env,
    vis: &mut Vec<bool>,
) -> (r: Result<String, Failure>)
    requires
        old(vis)@.len() == inputs@.len(),
    ensures
        final(vis)@ == old(vis)@,
        outcome_is(r, resolve_parts(parts_view(parts@), inputs_view(inputs@), env@, old(vis)@), |s: String| s@),
    decreases count_false(old(vis)@), parts@.len(), 2nat,
{
    let ghost pv = parts_view(parts@);
    let ghost iv = inputs_view(inputs@);
    proof {
        lemma_parts_view(parts@);
    }
    let mut base = String::new();
    let mut k: usize = 0;
    while k < parts.len()
        invariant
            k <= parts@.len(),
            pv == parts_view(parts@),
            iv == inputs_view(inputs@),
            pv.len() == parts@.len(),
            forall|j: int| 0 <= j < pv.len() ==> #[trigger] pv[j] == crate::lexer::part_view(parts@[j]),
            vis@ == old(vis)@,
            vis@.len() == inputs@.len(),
            resolve_parts(pv.take(k as int), iv, env@, vis@) == Outcome::Done(base@),
        decreases parts@.len() - k,
    {
        proof {
            assert(pv.take(k + 1).drop_last() =~= pv.take(k as int));
            assert(pv.take(k + 1).last() == pv[k as int]);
        }
        match &parts[k] {
            StringPart::Literal(l) => {
                base.append(l.as_str());
            },
            StringPart::Input(name) => {
                match resolve_input_exec(name, inputs, env, vis) {
                    Ok(Value::String(s)) => {
                        base.append(s.as_str());
                    },
                    Ok(_) => {
                        proof {
                            lemma_parts_stop(pv, k + 1, iv, env@, vis@);
                            assert(pv.take(pv.len() as int) =~= pv);
                        }
                        return Err(Failure::Error(Error::InvalidInterpolationError));
                    },
                    Err(f) => {
                        proof {
                            lemma_parts_stop(pv, k + 1, iv, env@, vis@);
                        }
                        return Err(f);
                    },
                }
            },
        }
        k = k + 1;
    }
    proof {
        assert(pv.take(parts@.len() as int) =~= pv);
    }
    Ok(base)
}

/// The segments of a key path with every `\'` replaced by `'`.
fn unescape_segments(segments: &Vec<String>) -> (r: Vec<String>)
    ensures
        strings_view(r@) == unescape_path(strings_view(segments@)),
{
    proof {
        lemma_strings_view(segments@);
    }
    let mut out: Vec<String> = Vec::new();
    let mut i: usize = 0;
    while i < segments.len()
        invariant
            i <= segments@.len(),
            strings_view(segments@).len() == segments@.len(),
            forall|k: int| 0 <= k < segments@.len() ==> #[trigger] strings_view(segments@)[k] == segments@[k]@,
            strings_view(out@) == unescape_path(strings_view(segments@)).take(i as int),
        decreases segments@.len() - i,
    {
        let ghost before = out@;
        out.push(unescape_key(segments[i].as_str()));
        proof {
            assert(out@.drop_last() =~= before);
            assert(unescape_path(strings_view(segments@)).take(i + 1) =~= unescape_path(strings_view(segments@)).take(
                i as int,
            ).push(unescape_quotes(segments@[i as int]@)));
        }
        i = i + 1;
    }
    proof {
        assert(unescape_path(strings_view(segments@)).take(segments@.len() as int) =~= unescape_path(
            strings_view(segments@),
        ));
    }
    out
}

/// The entries of an object with the given pairs and spreads.
fn resolve_members_exec(
    members: &Vec<PairOrSpread>,
    inputs: &Vec<(String, Entry)>,
    env: &Env,
    vis: &mut Vec<bool>,
) -> (r: Result<Object, Failure>)
    requires
        old(vis)@.len() == inputs@.len(),
    ensures
        final(vis)@ == old(vis)@,
        outcome_is(r, resolve_members(members_view(members@), inputs_view(inputs@), env@, old(vis)@), |o: Object| o@),
    decreases count_false(old(vis)@), members_size(members_view(members@)), 2nat,
{
    let ghost mv = members_view(members@);
    let ghost iv = inputs_view(inputs@);
    proof {
        lemma_members_view(members@);
    }
    let mut obj = Object::new();
    let mut k: usize = 0;
    while k < members.len()
        invariant
            k <= members@.len(),
            mv == members_view(members@),
            iv == inputs_view(inputs@),
            mv.len() == members@.len(),
            forall|j: int| 0 <= j < mv.len() ==> #[trigger] mv[j] == crate::ast::member_view(members@[j]),
            vis@ == old(vis)@,
            vis@.len() == inputs@.len(),
            resolve_members(mv.take(k as int), iv, env@, vis@) == Outcome::Done(obj@),
        decreases members@.len() - k,
    {
        proof {
            assert(mv.take(k + 1).drop_last() =~= mv.take(k as int));
            assert(mv.take(k + 1).last() == mv[k as int]);
            lemma_members_size_elem(mv, k as int);
        }
        match &members[k] {
            PairOrSpread::Pair(key, e) => {
                match resolve_entry_exec(e, inputs, env, vis) {
                    Ok(v) => {
                        let segments = unescape_segments(&key.segments);
                        proof {
                            assert(strings_view(segments@).skip(0) =~= strings_view(segments@));
                        }
                        match insert_at_path(&mut obj, &segments, 0, v) {
                            Ok(()) => {},
                            Err(err) => {
                                proof {
                                    lemma_members_stop(mv, k + 1, iv, env@, vis@);
                                }
                                return Err(Failure::Error(err));
                            },
                        }
                    },
                    Err(f) => {
                        proof {
                            lemma_members_stop(mv, k + 1, iv, env@, vis@);
                        }
                        return Err(f);
                    },
                }
            },
            PairOrSpread::Spread(name) => {
                match resolve_declared_exec(name, inputs, env, vis) {
                    Ok(Value::Object(o)) => {
                        obj.extend(o);
                    },
                    Ok(_) => {
                        proof {
                            lemma_members_stop(mv, k + 1, iv, env@, vis@);
                        }
                        return Err(Failure::Error(Error::InvalidSpreadError));
                    },
                    Err(f) => {
                        proof {
                            lemma_members_stop(mv, k + 1, iv, env@, vis@);
                        }
                        return Err(f);
                    },
                }
            },
        }
        k = k + 1;
    }
    proof {
        assert(mv.take(members@.len() as int) =~= mv);
    }
    Ok(obj)
}

/// The elements of an array with the given entries and spreads.
fn resolve_items_exec(
    items: &Vec<EntryOrSpread>,
    inputs: &Vec<(String, Entry)>,
    env: &Env,
    vis: &mut Vec<bool>,
) -> (r: Result<Vec<Value>, Failure>)
    requires
        old(vis)@.len() == inputs@.len(),
    ensures
        final(vis)@ == old(vis)@,
        outcome_is(r, resolve_items(items_view(items@), inputs_view(inputs@), env@, old(vis)@), |a: Vec<Value>| values_view(a@)),
    decreases count_false(old(vis)@), items_size(items_view(items@)), 2nat,
{
    let ghost tv = items_view(items@);
    let ghost iv = inputs_view(inputs@);
    proof {
        lemma_items_view(items@);
    }
    let mut out: Vec<Value> = Vec::new();
    let mut k: usize = 0;
    while k < items.len()
        invariant
            k <= items@.len(),
            tv == items_view(items@),
            iv == inputs_view(inputs@),
            tv.len() == items@.len(),
            forall|j: int| 0 <= j < tv.len() ==> #[trigger] tv[j] == crate::ast::item_view(items@[j]),
            vis@ == old(vis)@,
            vis@.len() == inputs@.len(),
            resolve_items(tv.take(k as int), iv, env@, vis@) == Outcome::Done(values_view(out@)),
        decreases items@.len() - k,
    {
        proof {
            assert(tv.take(k + 1).drop_last() =~= tv.take(k as int));
            assert(tv.take(k + 1).last() == tv[k as int]);
            lemma_items_size_elem(tv, k as int);
        }
        match &items[k] {
            EntryOrSpread::Entry(e) => {
                match resolve_entry_exec(e, inputs, env, vis) {
                    Ok(v) => {
                        let ghost before = out@;
                        out.push(v);
                        proof {
                            assert(out@.drop_last() =~= before);
                        }
                    },
                    Err(f) => {
                        proof {
                            lemma_items_stop(tv, k + 1, iv, env@, vis@);
                        }
                        return Err(f);
                    },
                }
            },
            EntryOrSpread::Spread(name) => {
                match resolve_input_exec(name, inputs, env, vis) {
                    Ok(Value::Array(mut a)) => {
                        let ghost before = out@;
                        let ghost added = a@;
                        out.append(&mut a);
                        proof {
                            lemma_values_view(before);
                            lemma_values_view(added);
                            lemma_values_view(out@);
                            assert(values_view(out@) =~= values_view(before) + values_view(added));
                        }
                    },
                    Ok(_) => {
                        proof {
                            lemma_items_stop(tv, k + 1, iv, env@, vis@);
                        }
                        return Err(Failure::Error(Error::InvalidSpreadError));
                    },
                    Err(f) => {
                        proof {
                            lemma_items_stop(tv, k + 1, iv, env@, vis@);
                        }
                        return Err(f);
                    },
                }
            },
        }
        k = k + 1;
    }
    proof {
        assert(tv.take(items@.len() as int) =~= tv);
    }
    Ok(out)
}

/// The value of an entry, as [`resolve_entry`] says.
fn resolve_entry_exec(
    e: &Entry,
    inputs: &Vec<(String, Entry)>,
    env: &Env,
    vis: &mut Vec<bool>,
) -> (r: Result<Value, Failure>)
    requires
        old(vis)@.len() == inputs@.len(),
    ensures
        final(vis)@ == old(vis)@,
        outcome_is(r, resolve_entry(e@, inputs_view(inputs@), env@, old(vis)@), |v: Value| v@),
    decreases count_false(old(vis)@), entry_size(e@), 1nat,
{
    match e {
        Entry::String(parts) => {
            if parts.len() == 0 {
                proof {
                    lemma_parts_view(parts@);
                }
                return Ok(Value::String(String::new()));
            }
            proof {
                lemma_parts_view(parts@);
            }
            match resolve_parts_exec(parts, inputs, env, vis) {
                Ok(base) => match process_multiline_string(base.as_str()) {
                    Some(s) => Ok(Value::String(s)),
                    None => Err(Failure::Abort(Abort::IndentationSplitsCharacter)),
                },
                Err(f) => Err(f),
            }
        },
        Entry::Integer(i) => Ok(Value::Integer(*i)),
        Entry::Float(f) => Ok(Value::Float(f.clone())),
        Entry::Boolean(b) => Ok(Value::Boolean(*b)),
        Entry::Object(o) => match resolve_members_exec(&o.pairs, inputs, env, vis) {
            Ok(obj) => Ok(Value::Object(obj)),
            Err(f) => Err(f),
        },
        Entry::Array(items) => match resolve_items_exec(items, inputs, env, vis) {
            Ok(vs) => {
                proof {
                    lemma_values_view(vs@);
                }
                Ok(Value::Array(vs))
            },
            Err(f) => Err(f),
        },
        Entry::Null => Ok(Value::Null),
        Entry::Input(name) => resolve_input_exec(name, inputs, env, vis),
    }
}

/// The value of a configuration: its top-level object, built with the
/// declared inputs and the environment.
pub open spec fn resolve_root(root: SRoot, env: Seq<(Seq<char>, Seq<char>)>) -> Outcome<SValue> {
    match resolve_members(root.object, root.inputs, env, Seq::new(root.inputs.len(), |i: int| false)) {
        Outcome::Done(es) => Outcome::Done(SValue::Object(es)),
        Outcome::Failed(err) => Outcome::Failed(err),
        Outcome::Abort(a) => Outcome::Abort(a),
    }
}

/// The value of a configuration, as [`resolve_root`] says.
pub fn resolve_root_exec(root: &Root, env: &Env) -> (r: Result<Value, Failure>)
    ensures
        outcome_is(r, resolve_root(root@, env@), |v: Value| v@),
{
    let mut vis: Vec<bool> = Vec::new();
    let n = root.inputs.len();
    let mut k: usize = 0;
    while k < n
        invariant
            k <= n,
            n == root.inputs@.len(),
            vis@ == Seq::new(k as nat, |i: int| false),
        decreases n - k,
    {
        vis.push(false);
        proof {
            assert(vis@ =~= Seq::new((k + 1) as nat, |i: int| false));
        }
        k = k + 1;
    }
    proof {
        lemma_inputs_view(root.inputs@);
    }
    match resolve_members_exec(&root.object.pairs, &root.inputs, env, &mut vis) {
        Ok(obj) => Ok(Value::Object(obj)),
        Err(f) => Err(f),
    }
}



// ---------------------------------------------------------------------------
// How references and spreads resolve.

/// An input reference `$name` reads the environment variable `NAME` when the
/// name is `env_NAME` and the variable is set; otherwise it is the value of
/// the last declaration of `name`, an error when there is none, and an abort
/// when that declaration is already being resolved.
pub proof fn lemma_input_resolution(
    name: Seq<char>,
    inputs: Seq<(Seq<char>, SEntry)>,
    env: Seq<(Seq<char>, Seq<char>)>,
    vis: Seq<bool>,
)
    requires
        vis.len() == inputs.len(),
    ensures
        env_var_name(name) is Some && env_lookup(env, env_var_name(name)->Some_0) is Some ==> resolve_input(
            name,
            inputs,
            env,
            vis,
        ) == Outcome::<SValue>::Done(SValue::String(env_lookup(env, env_var_name(name)->Some_0)->Some_0)),
        !(env_var_name(name) is Some && env_lookup(env, env_var_name(name)->Some_0) is Some) ==> {
            let i = input_index(inputs, name);
            &&& i < 0 ==> resolve_input(name, inputs, env, vis) == Outcome::<SValue>::Failed(
                SError::InputResolveError(name),
            )
            &&& i >= 0 ==> inputs[i].0 == name && (forall|j: int| i < j < inputs.len() ==> #[trigger] inputs[j].0
                != name)
            &&& i >= 0 && vis[i] ==> resolve_input(name, inputs, env, vis) == Outcome::<SValue>::Abort(
                SAbort::CyclicInput(name),
            )
            &&& i >= 0 && !vis[i] ==> resolve_input(name, inputs, env, vis) == resolve_entry(
                inputs[i].1,
                inputs,
                env,
                vis.update(i, true),
            )
        },
{
    lemma_input_index(inputs, name);
    if let Some(k) = env_var_name(name) {
        if let Some(v) = env_lookup(env, k) {
            assert(resolve_input(name, inputs, env, vis) == Outcome::<SValue>::Done(SValue::String(v)));
        }
    }
}

/// Spreading `..$name` into an object whose earlier members gave `acc`: the
/// entries of the declared input's object are inserted in order; an
/// undeclared name is an error, as is a declared value that is not an object.
/// The environment is not read for a spread.
pub proof fn lemma_object_spread(
    members: Seq<SMember>,
    name: Seq<char>,
    acc: Seq<(Seq<char>, SValue)>,
    inputs: Seq<(Seq<char>, SEntry)>,
    env: Seq<(Seq<char>, Seq<char>)>,
    vis: Seq<bool>,
)
    requires
        members.len() > 0,
        members.last() == SMember::Spread(name),
        resolve_members(members.drop_last(), inputs, env, vis) == Outcome::Done(acc),
    ensures
        input_index(inputs, name) < 0 ==> resolve_members(members, inputs, env, vis) == Outcome::<
            Seq<(Seq<char>, SValue)>,
        >::Failed(SError::InputResolveError(name)),
        resolve_declared(name, inputs, env, vis) matches Outcome::Done(v) ==> resolve_members(
            members,
            inputs,
            env,
            vis,
        ) == match v {
            SValue::Object(es) => Outcome::Done(extend_entries(acc, es)),
            _ => Outcome::<Seq<(Seq<char>, SValue)>>::Failed(SError::InvalidSpreadError),
        },
        resolve_declared(name, inputs, env, vis) matches Outcome::Failed(e) ==> resolve_members(
            members,
            inputs,
            env,
            vis,
        ) == Outcome::<Seq<(Seq<char>, SValue)>>::Failed(e),
{
}

/// Spreading `..$name` into an array whose earlier items gave `acc`: the
/// elements of the input's array are appended in order; a value that is not
/// an array is an error, and an error resolving the input is the result.
pub proof fn lemma_array_spread(
    items: Seq<SItem>,
    name: Seq<char>,
    acc: Seq<SValue>,
    inputs: Seq<(Seq<char>, SEntry)>,
    env: Seq<(Seq<char>, Seq<char>)>,
    vis: Seq<bool>,
)
    requires
        items.len() > 0,
        items.last() == SItem::Spread(name),
        resolve_items(items.drop_last(), inputs, env, vis) == Outcome::Done(acc),
    ensures
        resolve_input(name, inputs, env, vis) matches Outcome::Done(v) ==> resolve_items(items, inputs, env, vis)
            == match v {
            SValue::Array(vs) => Outcome::Done(acc + vs),
            _ => Outcome::<Seq<SValue>>::Failed(SError::InvalidSpreadError),
        },
        resolve_input(name, inputs, env, vis) matches Outcome::Failed(e) ==> resolve_items(items, inputs, env, vis)
            == Outcome::<Seq<SValue>>::Failed(e),
{
}

// ---------------------------------------------------------------------------
// Inputs that do not refer to themselves.

/// The declaration that `name` refers to, if there is one, has a rank below `b`.
pub open spec fn name_below(inputs: Seq<(Seq<char>, SEntry)>, rank: Seq<nat>, name: Seq<char>, b: int) -> bool {
    let i = input_index(inputs, name);
    i < 0 || (i < rank.len() && rank[i] < b)
}

/// Every input a string interpolates is declared with a rank below `b`, if at all.
pub open spec fn parts_below(parts: Seq<SPart>, inputs: Seq<(Seq<char>, SEntry)>, rank: Seq<nat>, b: int) -> bool
    decreases parts.len(),
{
    if parts.len() == 0 {
        true
    } else {
        parts_below(parts.drop_last(), inputs, rank, b) && match parts.last() {
            SPart::Input(n) => name_below(inputs, rank, n, b),
            SPart::Literal(_) => true,
        }
    }
}

/// Every input the entry refers to (by reference, interpolation or spread) is
/// declared with a rank below `b`, if at all.
pub open spec fn entry_below(e: SEntry, inputs: Seq<(Seq<char>, SEntry)>, rank: Seq<nat>, b: int) -> bool
    decreases e, 0nat,
{
    match e {
        SEntry::String(parts) => parts_below(parts, inputs, rank, b),
        SEntry::Object(ms) => members_below(ms, inputs, rank, b),
        SEntry::Array(items) => items_below(items, inputs, rank, b),
        SEntry::Input(n) => name_below(inputs, rank, n, b),
        _ => true,
    }
}

pub open spec fn members_below(ms: Seq<SMember>, inputs: Seq<(Seq<char>, SEntry)>, rank: Seq<nat>, b: int) -> bool
    decreases ms, 0nat,
{
    if ms.len() == 0 {
        true
    } else {
        members_below(ms.drop_last(), inputs, rank, b) && match ms.last() {
            SMember::Pair(_, e) => entry_below(e, inputs, rank, b),
            SMember::Spread(n) => name_below(inputs, rank, n, b),
        }
    }
}

pub open spec fn items_below(items: Seq<SItem>, inputs: Seq<(Seq<char>, SEntry)>, rank: Seq<nat>, b: int) -> bool
    decreases items, 0nat,
{
    if items.len() == 0 {
        true
    } else {
        items_below(items.drop_last(), inputs, rank, b) && match items.last() {
            SItem::Entry(e) => entry_below(e, inputs, rank, b),
            SItem::Spread(n) => name_below(inputs, rank, n, b),
        }
    }
}

/// The inputs do not refer to themselves: each declaration that a reference
/// can reach (the last one of its name) refers only to declarations of lower
/// rank.
pub open spec fn ranked(inputs: Seq<(Seq<char>, SEntry)>, rank: Seq<nat>) -> bool {
    &&& rank.len() == inputs.len()
    &&& forall|i: int|
        0 <= i < inputs.len() && input_index(inputs, inputs[i].0) == i ==> #[trigger] entry_below(
            inputs[i].1,
            inputs,
            rank,
            rank[i] as int,
        )
}

/// The outcome is no abort on an input that refers to itself.
pub open spec fn no_cycle<T>(o: Outcome<T>) -> bool {
    !(o matches Outcome::Abort(SAbort::CyclicInput(_)))
}

/// The inputs being resolved all have a rank of at least `b`.
pub open spec fn visited_from(vis: Seq<bool>, rank: Seq<nat>, b: int) -> bool {
    forall|k: int| 0 <= k < vis.len() && #[trigger] vis[k] ==> rank[k] >= b
}

pub proof fn lemma_entry_acyclic(
    e: SEntry,
    inputs: Seq<(Seq<char>, SEntry)>,
    env: Seq<(Seq<char>, Seq<char>)>,
    vis: Seq<bool>,
    rank: Seq<nat>,
    b: int,
)
    requires
        ranked(inputs, rank),
        vis.len() == inputs.len(),
        visited_from(vis, rank, b),
        entry_below(e, inputs, rank, b),
    ensures
        no_cycle(resolve_entry(e, inputs, env, vis)),
    decreases count_false(vis), entry_size(e), 1nat,
{
    match e {
        SEntry::String(parts) => {
            if parts.len() > 0 {
                lemma_parts_acyclic(parts, inputs, env, vis, rank, b);
            }
        },
        SEntry::Object(members) => {
            lemma_members_acyclic(members, inputs, env, vis, rank, b);
        },
        SEntry::Array(items) => {
            lemma_items_acyclic(items, inputs, env, vis, rank, b);
        },
        SEntry::Input(name) => {
            lemma_input_acyclic(name, inputs, env, vis, rank, b);
        },
        _ => {},
    }
}

pub proof fn lemma_declared_acyclic(
    name: Seq<char>,
    inputs: Seq<(Seq<char>, SEntry)>,
    env: Seq<(Seq<char>, Seq<char>)>,
    vis: Seq<bool>,
    rank: Seq<nat>,
    b: int,
)
    requires
        ranked(inputs, rank),
        vis.len() == inputs.len(),
        visited_from(vis, rank, b),
        name_below(inputs, rank, name, b),
    ensures
        no_cycle(resolve_declared(name, inputs, env, vis)),
    decreases count_false(vis), 0nat, 0nat,
{
    let i = input_index(inputs, name);
    lemma_input_index(inputs, name);
    if i >= 0 {
        if vis[i] {
            assert(rank[i] >= b);
        }
        lemma_count_false_mark(vis, i);
        assert(input_index(inputs, inputs[i].0) == i);
        assert(entry_below(inputs[i].1, inputs, rank, rank[i] as int));
        let vis2 = vis.update(i, true);
        assert forall|k: int| 0 <= k < vis2.len() && #[trigger] vis2[k] implies rank[k] >= rank[i] as int by {
            if k != i {
                assert(vis[k]);
            }
        }
        lemma_entry_acyclic(inputs[i].1, inputs, env, vis2, rank, rank[i] as int);
    }
}

pub proof fn lemma_input_acyclic(
    name: Seq<char>,
    inputs: Seq<(Seq<char>, SEntry)>,
    env: Seq<(Seq<char>, Seq<char>)>,
    vis: Seq<bool>,
    rank: Seq<nat>,
    b: int,
)
    requires
        ranked(inputs, rank),
        vis.len() == inputs.len(),
        visited_from(vis, rank, b),
        name_below(inputs, rank, name, b),
    ensures
        no_cycle(resolve_input(name, inputs, env, vis)),
    decreases count_false(vis), 0nat, 1nat,
{
    lemma_declared_acyclic(name, inputs, env, vis, rank, b);
}

pub proof fn lemma_parts_acyclic(
    parts: Seq<SPart>,
    inputs: Seq<(Seq<char>, SEntry)>,
    env: Seq<(Seq<char>, Seq<char>)>,
    vis: Seq<bool>,
    rank: Seq<nat>,
    b: int,
)
    requires
        ranked(inputs, rank),
        vis.len() == inputs.len(),
        visited_from(vis, rank, b),
        parts_below(parts, inputs, rank, b),
    ensures
        no_cycle(resolve_parts(parts, inputs, env, vis)),
    decreases count_false(vis), parts.len(), 2nat,
{
    if parts.len() > 0 {
        lemma_parts_acyclic(parts.drop_last(), inputs, env, vis, rank, b);
        if let SPart::Input(name) = parts.last() {
            lemma_input_acyclic(name, inputs, env, vis, rank, b);
        }
    }
}

pub proof fn lemma_members_acyclic(
    members: Seq<SMember>,
    inputs: Seq<(Seq<char>, SEntry)>,
    env: Seq<(Seq<char>, Seq<char>)>,
    vis: Seq<bool>,
    rank: Seq<nat>,
    b: int,
)
    requires
        ranked(inputs, rank),
        vis.len() == inputs.len(),
        visited_from(vis, rank, b),
        members_below(members, inputs, rank, b),
    ensures
        no_cycle(resolve_members(members, inputs, env, vis)),
    decreases count_false(vis), members_size(members), 2nat,
{
    if members.len() > 0 {
        lemma_members_acyclic(members.drop_last(), inputs, env, vis, rank, b);
        match members.last() {
            SMember::Pair(_, e) => {
                lemma_entry_acyclic(e, inputs, env, vis, rank, b);
            },
            SMember::Spread(name) => {
                lemma_declared_acyclic(name, inputs, env, vis, rank, b);
            },
        }
    }
}

pub proof fn lemma_items_acyclic(
    items: Seq<SItem>,
    inputs: Seq<(Seq<char>, SEntry)>,
    env: Seq<(Seq<char>, Seq<char>)>,
    vis: Seq<bool>,
    rank: Seq<nat>,
    b: int,
)
    requires
        ranked(inputs, rank),
        vis.len() == inputs.len(),
        visited_from(vis, rank, b),
        items_below(items, inputs, rank, b),
    ensures
        no_cycle(resolve_items(items, inputs, env, vis)),
    decreases count_false(vis), items_size(items), 2nat,
{
    if items.len() > 0 {
        lemma_items_acyclic(items.drop_last(), inputs, env, vis, rank, b);
        match items.last() {
            SItem::Entry(e) => {
                lemma_entry_acyclic(e, inputs, env, vis, rank, b);
            },
            SItem::Spread(name) => {
                lemma_input_acyclic(name, inputs, env, vis, rank, b);
            },
        }
    }
}

/// The sum of the ranks.
pub open spec fn rank_sum(rank: Seq<nat>) -> nat
    decreases rank.len(),
{
    if rank.len() == 0 {
        0
    } else {
        rank_sum(rank.drop_last()) + rank.last()
    }
}

proof fn lemma_rank_sum(rank: Seq<nat>)
    ensures
        forall|k: int| 0 <= k < rank.len() ==> #[trigger] rank[k] <= rank_sum(rank),
    decreases rank.len(),
{
    if rank.len() > 0 {
        lemma_rank_sum(rank.drop_last());
        assert forall|k: int| 0 <= k < rank.len() implies #[trigger] rank[k] <= rank_sum(rank) by {
            if k < rank.len() - 1 {
                assert(rank.drop_last()[k] == rank[k]);
            }
        }
    }
}

proof fn lemma_name_below_all(inputs: Seq<(Seq<char>, SEntry)>, rank: Seq<nat>, name: Seq<char>, b: int)
    requires
        rank.len() == inputs.len(),
        forall|k: int| 0 <= k < rank.len() ==> #[trigger] rank[k] < b,
    ensures
        name_below(inputs, rank, name, b),
{
    lemma_input_index(inputs, name);
}

proof fn lemma_parts_below_all(parts: Seq<SPart>, inputs: Seq<(Seq<char>, SEntry)>, rank: Seq<nat>, b: int)
    requires
        rank.len() == inputs.len(),
        forall|k: int| 0 <= k < rank.len() ==> #[trigger] rank[k] < b,
    ensures
        parts_below(parts, inputs, rank, b),
    decreases parts.len(),
{
    if parts.len() > 0 {
        lemma_parts_below_all(parts.drop_last(), inputs, rank, b);
        if let SPart::Input(n) = parts.last() {
            lemma_name_below_all(inputs, rank, n, b);
        }
    }
}

proof fn lemma_entry_below_all(e: SEntry, inputs: Seq<(Seq<char>, SEntry)>, rank: Seq<nat>, b: int)
    requires
        rank.len() == inputs.len(),
        forall|k: int| 0 <= k < rank.len() ==> #[trigger] rank[k] < b,
    ensures
        entry_below(e, inputs, rank, b),
    decreases e, 0nat,
{
    match e {
        SEntry::String(parts) => lemma_parts_below_all(parts, inputs, rank, b),
        SEntry::Object(ms) => lemma_members_below_all(ms, inputs, rank, b),
        SEntry::Array(items) => lemma_items_below_all(items, inputs, rank, b),
        SEntry::Input(n) => lemma_name_below_all(inputs, rank, n, b),
        _ => {},
    }
}

proof fn lemma_members_below_all(ms: Seq<SMember>, inputs: Seq<(Seq<char>, SEntry)>, rank: Seq<nat>, b: int)
    requires
        rank.len() == inputs.len(),
        forall|k: int| 0 <= k < rank.len() ==> #[trigger] rank[k] < b,
    ensures
        members_below(ms, inputs, rank, b),
    decreases ms, 0nat,
{
    if ms.len() > 0 {
        lemma_members_below_all(ms.drop_last(), inputs, rank, b);
        match ms.last() {
            SMember::Pair(_, e) => lemma_entry_below_all(e, inputs, rank, b),
            SMember::Spread(n) => lemma_name_below_all(inputs, rank, n, b),
        }
    }
}

proof fn lemma_items_below_all(items: Seq<SItem>, inputs: Seq<(Seq<char>, SEntry)>, rank: Seq<nat>, b: int)
    requires
        rank.len() == inputs.len(),
        forall|k: int| 0 <= k < rank.len() ==> #[trigger] rank[k] < b,
    ensures
        items_below(items, inputs, rank, b),
    decreases items, 0nat,
{
    if items.len() > 0 {
        lemma_items_below_all(items.drop_last(), inputs, rank, b);
        match items.last() {
            SItem::Entry(e) => lemma_entry_below_all(e, inputs, rank, b),
            SItem::Spread(n) => lemma_name_below_all(inputs, rank, n, b),
        }
    }
}

/// When the inputs do not refer to themselves (some ranking of the
/// declarations has every reachable declaration refer only to lower ranks),
/// evaluation never aborts on a cyclic input: it gives a value, an error, or
/// an abort for a multi-line string whose indentation ends inside a character.
pub proof fn lemma_ranked_inputs_do_not_cycle(root: SRoot, env: Seq<(Seq<char>, Seq<char>)>, rank: Seq<nat>)
    requires
        ranked(root.inputs, rank),
    ensures
        no_cycle(resolve_root(root, env)),
        resolve_root(root, env) matches Outcome::Abort(a) ==> a == SAbort::IndentationSplitsCharacter,
{
    let b: int = rank_sum(rank) as int + 1;
    lemma_rank_sum(rank);
    lemma_members_below_all(root.object, root.inputs, rank, b);
    let vis = Seq::new(root.inputs.len(), |i: int| false);
    lemma_members_acyclic(root.object, root.inputs, env, vis, rank, b);
}

// ---------------------------------------------------------------------------
// How deep evaluation goes.

/// How deeply an entry nests: 1 for a scalar or an input reference, one more
/// than its deepest element for an object or array.
pub open spec fn entry_nesting(e: SEntry) -> nat
    decreases e, 0nat,
{
    match e {
        SEntry::Object(ms) => members_nesting(ms) + 1,
        SEntry::Array(items) => items_nesting(items) + 1,
        _ => 1,
    }
}

pub open spec fn members_nesting(ms: Seq<SMember>) -> nat
    decreases ms, 0nat,
{
    if ms.len() == 0 {
        0
    } else {
        let n = match ms.last() {
            SMember::Pair(_, e) => entry_nesting(e),
            SMember::Spread(_) => 0,
        };
        let m = members_nesting(ms.drop_last());
        if n > m {
            n
        } else {
            m
        }
    }
}

pub open spec fn items_nesting(items: Seq<SItem>) -> nat
    decreases items, 0nat,
{
    if items.len() == 0 {
        0
    } else {
        let n = match items.last() {
            SItem::Entry(e) => entry_nesting(e),
            SItem::Spread(_) => 0,
        };
        let m = items_nesting(items.drop_last());
        if n > m {
            n
        } else {
            m
        }
    }
}

/// The nesting of the declarations not yet being resolved, each counted one
/// more for the step into it.
pub open spec fn open_weight(inputs: Seq<(Seq<char>, SEntry)>, vis: Seq<bool>) -> nat
    decreases inputs.len(),
{
    if inputs.len() == 0 || vis.len() != inputs.len() {
        0
    } else {
        open_weight(inputs.drop_last(), vis.drop_last()) + if vis.last() {
            0nat
        } else {
            entry_nesting(inputs.last().1) + 1
        }
    }
}

proof fn lemma_open_weight_mark(inputs: Seq<(Seq<char>, SEntry)>, vis: Seq<bool>, i: int)
    requires
        vis.len() == inputs.len(),
        0 <= i < vis.len(),
        !vis[i],
    ensures
        open_weight(inputs, vis) == open_weight(inputs, vis.update(i, true)) + entry_nesting(inputs[i].1) + 1,
    decreases inputs.len(),
{
    let u = vis.update(i, true);
    if i < vis.len() - 1 {
        lemma_open_weight_mark(inputs.drop_last(), vis.drop_last(), i);
        assert(u.drop_last() =~= vis.drop_last().update(i, true));
    } else {
        assert(u.drop_last() =~= vis.drop_last());
    }
}

/// How deeply evaluating an entry recurses: one level for the entry itself,
/// and for an object, array, string or input reference the deepest of the
/// evaluations it starts (of its elements, of the inputs it interpolates or
/// spreads, of the declaration it refers to).
pub open spec fn entry_depth(e: SEntry, inputs: Seq<(Seq<char>, SEntry)>, vis: Seq<bool>) -> nat
    decreases count_false(vis), entry_size(e), 1nat,
{
    match e {
        SEntry::String(parts) => parts_depth(parts, inputs, vis) + 1,
        SEntry::Object(ms) => members_depth(ms, inputs, vis) + 1,
        SEntry::Array(items) => items_depth(items, inputs, vis) + 1,
        SEntry::Input(name) => declared_depth(name, inputs, vis) + 1,
        _ => 1,
    }
}

/// How deeply evaluating the declaration of `name` recurses: nothing for an
/// undeclared name or one already being resolved.
pub open spec fn declared_depth(name: Seq<char>, inputs: Seq<(Seq<char>, SEntry)>, vis: Seq<bool>) -> nat
    decreases count_false(vis), 0nat, 0nat,
{
    let i = input_index(inputs, name);
    if i < 0 || i >= vis.len() || vis[i] {
        0
    } else {
        proof {
            lemma_count_false_mark(vis, i);
        }
        entry_depth(inputs[i].1, inputs, vis.update(i, true))
    }
}

pub open spec fn parts_depth(parts: Seq<SPart>, inputs: Seq<(Seq<char>, SEntry)>, vis: Seq<bool>) -> nat
    decreases count_false(vis), parts.len(), 2nat,
{
    if parts.len() == 0 {
        0
    } else {
        let n = match parts.last() {
            SPart::Input(name) => declared_depth(name, inputs, vis),
            SPart::Literal(_) => 0,
        };
        let m = parts_depth(parts.drop_last(), inputs, vis);
        if n > m {
            n
        } else {
            m
        }
    }
}

pub open spec fn members_depth(ms: Seq<SMember>, inputs: Seq<(Seq<char>, SEntry)>, vis: Seq<bool>) -> nat
    decreases count_false(vis), members_size(ms), 2nat,
{
    if ms.len() == 0 {
        0
    } else {
        let n = match ms.last() {
            SMember::Pair(_, e) => entry_depth(e, inputs, vis),
            SMember::Spread(name) => declared_depth(name, inputs, vis),
        };
        let m = members_depth(ms.drop_last(), inputs, vis);
        if n > m {
            n
        } else {
            m
        }
    }
}

pub open spec fn items_depth(items: Seq<SItem>, inputs: Seq<(Seq<char>, SEntry)>, vis: Seq<bool>) -> nat
    decreases count_false(vis), items_size(items), 2nat,
{
    if items.len() == 0 {
        0
    } else {
        let n = match items.last() {
            SItem::Entry(e) => entry_depth(e, inputs, vis),
            SItem::Spread(name) => declared_depth(name, inputs, vis),
        };
        let m = items_depth(items.drop_last(), inputs, vis);
        if n > m {
            n
        } else {
            m
        }
    }
}

/// Evaluating an entry recurses no deeper than the entry nests plus the
/// nesting of the declarations not yet being resolved, each counted once:
/// a declaration is entered at most once on any path.
pub proof fn lemma_entry_depth(e: SEntry, inputs: Seq<(Seq<char>, SEntry)>, vis: Seq<bool>)
    requires
        vis.len() == inputs.len(),
    ensures
        entry_depth(e, inputs, vis) <= entry_nesting(e) + open_weight(inputs, vis),
    decreases count_false(vis), entry_size(e), 1nat,
{
    match e {
        SEntry::String(parts) => lemma_parts_depth(parts, inputs, vis),
        SEntry::Object(ms) => lemma_members_depth(ms, inputs, vis),
        SEntry::Array(items) => lemma_items_depth(items, inputs, vis),
        SEntry::Input(name) => lemma_declared_depth(name, inputs, vis),
        _ => {},
    }
}

pub proof fn lemma_declared_depth(name: Seq<char>, inputs: Seq<(Seq<char>, SEntry)>, vis: Seq<bool>)
    requires
        vis.len() == inputs.len(),
    ensures
        declared_depth(name, inputs, vis) <= open_weight(inputs, vis),
    decreases count_false(vis), 0nat, 0nat,
{
    let i = input_index(inputs, name);
    lemma_input_index(inputs, name);
    if i >= 0 && !vis[i] {
        lemma_count_false_mark(vis, i);
        lemma_open_weight_mark(inputs, vis, i);
        lemma_entry_depth(inputs[i].1, inputs, vis.update(i, true));
    }
}

pub proof fn lemma_parts_depth(parts: Seq<SPart>, inputs: Seq<(Seq<char>, SEntry)>, vis: Seq<bool>)
    requires
        vis.len() == inputs.len(),
    ensures
        parts_depth(parts, inputs, vis) <= open_weight(inputs, vis),
    decreases count_false(vis), parts.len(), 2nat,
{
    if parts.len() > 0 {
        lemma_parts_depth(parts.drop_last(), inputs, vis);
        if let SPart::Input(name) = parts.last() {
            lemma_declared_depth(name, inputs, vis);
        }
    }
}

pub proof fn lemma_members_depth(ms: Seq<SMember>, inputs: Seq<(Seq<char>, SEntry)>, vis: Seq<bool>)
    requires
        vis.len() == inputs.len(),
    ensures
        members_depth(ms, inputs, vis) <= members_nesting(ms) + open_weight(inputs, vis),
    decreases count_false(vis), members_size(ms), 2nat,
{
    if ms.len() > 0 {
        lemma_members_depth(ms.drop_last(), inputs, vis);
        match ms.last() {
            SMember::Pair(_, e) => lemma_entry_depth(e, inputs, vis),
            SMember::Spread(name) => lemma_declared_depth(name, inputs, vis),
        }
    }
}

pub proof fn lemma_items_depth(items: Seq<SItem>, inputs: Seq<(Seq<char>, SEntry)>, vis: Seq<bool>)
    requires
        vis.len() == inputs.len(),
    ensures
        items_depth(items, inputs, vis) <= items_nesting(items) + open_weight(inputs, vis),
    decreases count_false(vis), items_size(items), 2nat,
{
    if items.len() > 0 {
        lemma_items_depth(items.drop_last(), inputs, vis);
        match items.last() {
            SItem::Entry(e) => lemma_entry_depth(e, inputs, vis),
            SItem::Spread(name) => lemma_declared_depth(name, inputs, vis),
        }
    }
}

/// Evaluating a configuration recurses no deeper than its object nests plus
/// the nesting of all its declarations, each counted once and one more for
/// the step into it; with inputs that do not refer to themselves, it ends
/// with a value or an error, or aborts only for a multi-line string whose
/// indentation ends inside a character.
pub proof fn lemma_root_depth(root: SRoot, env: Seq<(Seq<char>, Seq<char>)>, rank: Seq<nat>)
    ensures
        members_depth(root.object, root.inputs, Seq::new(root.inputs.len(), |i: int| false)) + 1
            <= entry_nesting(SEntry::Object(root.object)) + open_weight(
            root.inputs,
            Seq::new(root.inputs.len(), |i: int| false),
        ),
        ranked(root.inputs, rank) ==> no_cycle(resolve_root(root, env)),
{
    lemma_members_depth(root.object, root.inputs, Seq::new(root.inputs.len(), |i: int| false));
    if ranked(root.inputs, rank) {
        lemma_ranked_inputs_do_not_cycle(root, env, rank);
    }
}

// ---------------------------------------------------------------------------
// Arrays.

/// An array whose items are all plain entries evaluates to one value per
/// item, in order: element `k` is the value of item `k`.
pub proof fn lemma_items_values(
    items: Seq<SItem>,
    inputs: Seq<(Seq<char>, SEntry)>,
    env: Seq<(Seq<char>, Seq<char>)>,
    vis: Seq<bool>,
)
    requires
        forall|k: int| 0 <= k < items.len() ==> #[trigger] items[k] is Entry,
    ensures
        resolve_items(items, inputs, env, vis) matches Outcome::Done(vs) ==> {
            &&& vs.len() == items.len()
            &&& forall|k: int|
                0 <= k < items.len() ==> resolve_entry(#[trigger] items[k]->Entry_0, inputs, env, vis)
                    == Outcome::Done(vs[k])
        },
    decreases items.len(),
{
    if items.len() > 0 {
        let prefix = items.drop_last();
        assert forall|k: int| 0 <= k < prefix.len() implies #[trigger] prefix[k] is Entry by {
            assert(prefix[k] == items[k]);
        }
        lemma_items_values(prefix, inputs, env, vis);
        if let Outcome::Done(vs) = resolve_items(items, inputs, env, vis) {
            assert(items[items.len() - 1] is Entry);
            let acc = resolve_items(prefix, inputs, env, vis)->Done_0;
            assert forall|k: int| 0 <= k < items.len() implies resolve_entry(
                #[trigger] items[k]->Entry_0,
                inputs,
                env,
                vis,
            ) == Outcome::Done(vs[k]) by {
                if k < items.len() - 1 {
                    assert(prefix[k] == items[k]);
                }
            }
        }
    }
}

// ---------------------------------------------------------------------------
// Evaluated values are well formed.

/// Placing a well-formed value at a key path in well-formed entries keeps
/// them well formed.
pub proof fn lemma_insert_path_wf(entries: Seq<(Seq<char>, SValue)>, path: Seq<Seq<char>>, v: SValue)
    requires
        value_wf(SValue::Object(entries)),
        value_wf(v),
        insert_path(entries, path, v) is Ok,
    ensures
        value_wf(SValue::Object(insert_path(entries, path, v)->Ok_0)),
    decreases path.len(),
{
    if path.len() == 1 {
        lemma_insert_value_wf(entries, path[0], v);
    } else {
        let first = path[0];
        let rest = path.drop_first();
        let i = key_index(entries, first);
        lemma_key_index(entries, first);
        if i < 0 {
            let n = insert_path(seq![], rest, v)->Ok_0;
            lemma_insert_path_wf(seq![], rest, v);
            lemma_insert_value_wf(entries, first, SValue::Object(n));
        } else {
            let n0 = entries[i].1->Object_0;
            lemma_entry_values_wf(entries);
            assert(value_wf(entries[i].1));
            let n = insert_path(n0, rest, v)->Ok_0;
            lemma_insert_path_wf(n0, rest, v);
            lemma_insert_value_wf(entries, first, SValue::Object(n));
            assert(insert_entry(entries, first, SValue::Object(n)) == entries.update(i, (first, SValue::Object(n))));
        }
    }
}

/// What an entry evaluates to is well formed, when the integers written in the
/// entry and in the inputs fit in a signed 64-bit integer.
pub proof fn lemma_entry_wf(
    e: SEntry,
    inputs: Seq<(Seq<char>, SEntry)>,
    env: Seq<(Seq<char>, Seq<char>)>,
    vis: Seq<bool>,
)
    requires
        entry_ints_fit(e),
        inputs_ints_fit(inputs),
    ensures
        resolve_entry(e, inputs, env, vis) matches Outcome::Done(v) ==> value_wf(v),
    decreases count_false(vis), entry_size(e), 1nat,
{
    match e {
        SEntry::Object(members) => {
            lemma_members_wf(members, inputs, env, vis);
        },
        SEntry::Array(items) => {
            lemma_items_wf(items, inputs, env, vis);
        },
        SEntry::Input(name) => {
            lemma_input_wf(name, inputs, env, vis);
        },
        _ => {},
    }
}

/// What a declared input evaluates to is well formed.
pub proof fn lemma_declared_wf(
    name: Seq<char>,
    inputs: Seq<(Seq<char>, SEntry)>,
    env: Seq<(Seq<char>, Seq<char>)>,
    vis: Seq<bool>,
)
    requires
        inputs_ints_fit(inputs),
    ensures
        resolve_declared(name, inputs, env, vis) matches Outcome::Done(v) ==> value_wf(v),
    decreases count_false(vis), 0nat, 0nat,
{
    let i = input_index(inputs, name);
    if i >= 0 && i < vis.len() && !vis[i] {
        lemma_count_false_mark(vis, i);
        lemma_input_index(inputs, name);
        assert(entry_ints_fit(inputs[i].1));
        lemma_entry_wf(inputs[i].1, inputs, env, vis.update(i, true));
    }
}

/// What an input reference evaluates to is well formed.
pub proof fn lemma_input_wf(
    name: Seq<char>,
    inputs: Seq<(Seq<char>, SEntry)>,
    env: Seq<(Seq<char>, Seq<char>)>,
    vis: Seq<bool>,
)
    requires
        inputs_ints_fit(inputs),
    ensures
        resolve_input(name, inputs, env, vis) matches Outcome::Done(v) ==> value_wf(v),
    decreases count_false(vis), 0nat, 1nat,
{
    lemma_declared_wf(name, inputs, env, vis);
}

/// The object that an object's members evaluate to is well formed.
pub proof fn lemma_members_wf(
    members: Seq<SMember>,
    inputs: Seq<(Seq<char>, SEntry)>,
    env: Seq<(Seq<char>, Seq<char>)>,
    vis: Seq<bool>,
)
    requires
        members_ints_fit(members),
        inputs_ints_fit(inputs),
    ensures
        resolve_members(members, inputs, env, vis) matches Outcome::Done(es) ==> value_wf(
            SValue::Object(es),
        ),
    decreases count_false(vis), members_size(members), 2nat,
{
    if members.len() == 0 {
        assert(keys_distinct(Seq::<(Seq<char>, SValue)>::empty()));
    } else {
        lemma_members_ints_fit(members);
        lemma_members_ints_fit(members.drop_last());
        assert forall|k: int| 0 <= k < members.len() - 1 implies #[trigger] member_ints_fit(members.drop_last()[k]) by {
            assert(members.drop_last()[k] == members[k]);
        }
        assert(member_ints_fit(members[members.len() - 1]));
        lemma_members_wf(members.drop_last(), inputs, env, vis);
        if let Outcome::Done(acc) = resolve_members(members.drop_last(), inputs, env, vis) {
            match members.last() {
                SMember::Pair(path, e) => {
                    lemma_entry_wf(e, inputs, env, vis);
                    if let Outcome::Done(v) = resolve_entry(e, inputs, env, vis) {
                        if insert_path(acc, unescape_path(path), v) is Ok {
                            lemma_insert_path_wf(acc, unescape_path(path), v);
                        }
                    }
                },
                SMember::Spread(name) => {
                    lemma_declared_wf(name, inputs, env, vis);
                    if let Outcome::Done(SValue::Object(es)) = resolve_declared(name, inputs, env, vis) {
                        lemma_extend_value_wf(acc, es);
                    }
                },
            }
        }
    }
}

/// The array that an array's items evaluate to is well formed.
pub proof fn lemma_items_wf(
    items: Seq<SItem>,
    inputs: Seq<(Seq<char>, SEntry)>,
    env: Seq<(Seq<char>, Seq<char>)>,
    vis: Seq<bool>,
)
    requires
        items_ints_fit(items),
        inputs_ints_fit(inputs),
    ensures
        resolve_items(items, inputs, env, vis) matches Outcome::Done(vs) ==> value_wf(SValue::Array(vs)),
    decreases count_false(vis), items_size(items), 2nat,
{
    if items.len() > 0 {
        lemma_items_ints_fit(items);
        lemma_items_ints_fit(items.drop_last());
        assert forall|k: int| 0 <= k < items.len() - 1 implies #[trigger] item_ints_fit(items.drop_last()[k]) by {
            assert(items.drop_last()[k] == items[k]);
        }
        assert(item_ints_fit(items[items.len() - 1]));
        lemma_items_wf(items.drop_last(), inputs, env, vis);
        if let Outcome::Done(acc) = resolve_items(items.drop_last(), inputs, env, vis) {
            lemma_values_wf(acc);
            match items.last() {
                SItem::Entry(e) => {
                    lemma_entry_wf(e, inputs, env, vis);
                    if let Outcome::Done(v) = resolve_entry(e, inputs, env, vis) {
                        let all = acc.push(v);
                        assert forall|i: int| 0 <= i < all.len() implies #[trigger] value_wf(all[i]) by {
                            if i < acc.len() {
                                assert(all[i] == acc[i]);
                            }
                        }
                        lemma_values_wf(all);
                    }
                },
                SItem::Spread(name) => {
                    lemma_input_wf(name, inputs, env, vis);
                    if let Outcome::Done(SValue::Array(vs)) = resolve_input(name, inputs, env, vis) {
                        lemma_values_wf(vs);
                        let all = acc + vs;
                        assert forall|i: int| 0 <= i < all.len() implies #[trigger] value_wf(all[i]) by {
                            if i < acc.len() {
                                assert(all[i] == acc[i]);
                            } else {
                                assert(all[i] == vs[i - acc.len()]);
                            }
                        }
                        lemma_values_wf(all);
                    }
                },
            }
        }
    }
}

/// An evaluated configuration is well formed when the integers written in it fit.
pub proof fn lemma_root_wf(root: SRoot, env: Seq<(Seq<char>, Seq<char>)>)
    requires
        members_ints_fit(root.object),
        inputs_ints_fit(root.inputs),
    ensures
        resolve_root(root, env) matches Outcome::Done(v) ==> value_wf(v),
{
    lemma_members_wf(root.object, root.inputs, env, Seq::new(root.inputs.len(), |i: int| false));
}

// ---------------------------------------------------------------------------
// Reading a whole text.

/// The configuration that a text holds, when its tokens are one.
pub open spec fn syntax_root(src: Seq<char>) -> Option<SRoot> {
    match lex(src) {
        LexResult::Tokens(t) => match parse_root_spec(t) {
            Parsed::Done(r, _) => Some(r),
            Parsed::Stuck(_, _) => None,
        },
        LexResult::Failed(_, _) => None,
    }
}

/// Why a text is not a configuration.
pub enum SyntaxFault {
    /// A lexical error came before any token that could not continue the text.
    Lexical(LexicalError),
    /// The token at this position among the text's tokens cannot continue the
    /// text; what was expected instead.
    Token(int, Expected),
    /// The text ended where more was expected.
    End(Expected),
}

/// What is wrong with the syntax of a text, if anything: the first problem met
/// when its tokens are read one at a time.
pub open spec fn syntax_fault(src: Seq<char>) -> Option<SyntaxFault> {
    let t = lexed(lex(src));
    let err = match lex(src) {
        LexResult::Tokens(_) => None::<LexicalError>,
        LexResult::Failed(_, e) => Some(e),
    };
    match parse_root_spec(t) {
        Parsed::Stuck(i, x) => if 0 <= i < t.len() {
            Some(SyntaxFault::Token(i, x))
        } else {
            match err {
                Some(e) => Some(SyntaxFault::Lexical(e)),
                None => Some(SyntaxFault::End(x)),
            }
        },
        Parsed::Done(_, _) => match err {
            Some(e) => Some(SyntaxFault::Lexical(e)),
            None => None,
        },
    }
}

/// The message for the fault `f` of the text `src`: token spans are given
/// in bytes, and the end of the text is the end of its last token.
pub open spec fn fault_text(src: Seq<char>, f: SyntaxFault) -> Seq<char> {
    let t = lexed(lex(src));
    let sp = lex_spans(src);
    match f {
        SyntaxFault::Lexical(e) => lexical_error_message(e),
        SyntaxFault::Token(i, x) => unrecognized_token_text(
            byte_offset(src, sp[i].0),
            token_text(t[i]),
            byte_offset(src, sp[i].1),
            expected_names(x),
        ),
        SyntaxFault::End(x) => unrecognized_eof_text(
            if sp.len() == 0 {
                0
            } else {
                byte_offset(src, sp.last().1)
            },
            expected_names(x),
        ),
    }
}

/// The value of a text is well formed: every object in it holds each key at
/// most once, and every integer in it fits in a signed 64-bit integer.
pub proof fn lemma_text_value_wf(src: Seq<char>, env: Seq<(Seq<char>, Seq<char>)>)
    ensures
        syntax_root(src) matches Some(root) ==> (resolve_root(root, env) matches Outcome::Done(v) ==> value_wf(v)),
{
    if let LexResult::Tokens(t) = lex(src) {
        if let Parsed::Done(root, n) = parse_root_spec(t) {
            lemma_lexed_fit(src, 0);
            lemma_root_sound(t);
            lemma_root_ints_fit(root, t);
            lemma_root_wf(root, env);
        }
    }
}

/// The outcome of reading and evaluating a text with the environment `env`.
pub open spec fn text_outcome(src: Seq<char>, env: Seq<(Seq<char>, Seq<char>)>) -> Option<Outcome<SValue>> {
    match syntax_root(src) {
        Some(root) => Some(resolve_root(root, env)),
        None => None,
    }
}

/// Whether evaluating the text would not finish: its inputs refer to
/// themselves, or a multi-line string's indentation ends inside a character.
pub open spec fn aborts(src: Seq<char>, env: Seq<(Seq<char>, Seq<char>)>) -> bool {
    text_outcome(src, env) matches Some(Outcome::Abort(_))
}

/// Reads a text and evaluates it with `env`: the value, an error, or, where
/// evaluation would not finish, the reason.
pub fn evaluate(input: &str, env: &Env) -> (r: Result<Value, Failure>)
    ensures
        match syntax_root(input@) {
            Some(root) => outcome_is(r, resolve_root(root, env@), |v: Value| v@),
            None => r matches Err(Failure::Error(e)) && syntax_fault(input@) matches Some(f)
                && e@ == SError::ParseError(fault_text(input@, f)),
        },        r matches Ok(v) ==> value_wf(v@),
{
    proof {
        lemma_text_value_wf(input@, env@);
    }
    let (toks, lex_error) = tokenize(input);
    proof {
        crate::lexer::lemma_tokens_view(toks@);
    }
    let r = read_tokens(&toks, lex_error);
    proof {
        let t = crate::lexer::tokens_view(toks@);
        let sp = lex_spans(input@);
        if let Parsed::Stuck(i, x) = parse_root_spec(t) {
            if 0 <= i < t.len() {
                assert(toks@[i].0 == byte_offset(input@, sp[i].0));
            } else if lex_error is None && toks@.len() > 0 {
                assert(toks@.last() == toks@[toks@.len() - 1]);
                assert(toks@[toks@.len() - 1].2 == byte_offset(input@, sp[toks@.len() - 1].1));
            }
        }
    }
    match r {
        Ok(root) => resolve_root_exec(&root, env),
        Err(e) => Err(Failure::Error(e)),
    }
}

/// Reads a text and evaluates it with `env`, for texts whose evaluation finishes.
pub fn parse(input: &str, env: &Env) -> (r: Result<Value, Error>)
    requires
        !aborts(input@, env@),
    ensures
        match syntax_root(input@) {
            Some(root) => match resolve_root(root, env@) {
                Outcome::Done(v) => r matches Ok(value) && value@ == v,
                Outcome::Failed(e) => r matches Err(err) && err@ == e,
                Outcome::Abort(_) => false,
            },
            None => r matches Err(e) && syntax_fault(input@) matches Some(f) && e@ == SError::ParseError(
                fault_text(input@, f),
            ),
        },
        r matches Ok(v) ==> value_wf(v@),
{
    match evaluate(input, env) {
        Ok(v) => Ok(v),
        Err(Failure::Error(e)) => Err(e),
        Err(Failure::Abort(_)) => {
            proof {
                assert(false);
            }
            Err(Error::ParseError(String::new()))
        },
    }
}

/// Reads configuration values for deserialization.
pub struct Deserializer {
    value: Value,
}

impl Deserializer {
    /// The value the deserializer reads.
    pub closed spec fn value_view(&self) -> SValue {
        self.value@
    }

    /// Reads a text and evaluates it with `env`, as [`parse`] does.
    pub fn parse(input: &str, env: &Env) -> (r: Result<Value, Error>)
        requires
            !aborts(input@, env@),
        ensures
            match syntax_root(input@) {
                Some(root) => match resolve_root(root, env@) {
                    Outcome::Done(v) => r matches Ok(value) && value@ == v,
                    Outcome::Failed(e) => r matches Err(err) && err@ == e,
                    Outcome::Abort(_) => false,
                },
                None => r matches Err(e) && syntax_fault(input@) matches Some(f) && e@ == SError::ParseError(
                    fault_text(input@, f),
                ),
            },
            r matches Ok(v) ==> value_wf(v@),
    {
        parse(input, env)
    }

    /// A deserializer for the value of a text evaluated with `env`.
    pub fn from_str(input: &str, env: &Env) -> (r: Result<Deserializer, Error>)
        requires
            !aborts(input@, env@),
        ensures
            match syntax_root(input@) {
                Some(root) => match resolve_root(root, env@) {
                    Outcome::Done(v) => r matches Ok(d) && d.value_view() == v,
                    Outcome::Failed(e) => r matches Err(err) && err@ == e,
                    Outcome::Abort(_) => false,
                },
                None => r matches Err(e) && syntax_fault(input@) matches Some(f) && e@ == SError::ParseError(
                    fault_text(input@, f),
                ),
            },
            r matches Ok(d) ==> value_wf(d.value_view()),
    {
        match parse(input, env) {
            Ok(value) => Ok(Deserializer { value }),
            Err(e) => Err(e),
        }
    }

    /// A deserializer for a value.
    pub fn with_value(value: Value) -> (d: Deserializer)
        ensures
            d.value_view() == value@,
    {
        Deserializer { value }
    }

    /// The value the deserializer reads.
    pub fn value(&self) -> (v: &Value)
        ensures
            v@ == self.value_view(),
    {
        &self.value
    }

    /// The value the deserializer reads, taken out of it.
    pub fn into_value(self) -> (v: Value)
        ensures
            v@ == self.value_view(),
    {
        self.value
    }
}


/// An object read as an enum: its only key names the variant, and that key's
/// value is the variant's content.
pub struct EnumAccess {
    object: Object,
}

/// The error for an object that does not have exactly one key, read as an enum.
pub open spec fn enum_shape_message(n: nat) -> Seq<char> {
    "Expected enum object with exactly one key, found "@ + decimal_text(n as int)
}

impl EnumAccess {
    /// The entries of the object.
    pub closed spec fn entries(&self) -> Seq<(Seq<char>, SValue)> {
        self.object@
    }

    /// Reads `object` as an enum.
    pub fn new(object: Object) -> (r: EnumAccess)
        ensures
            r.entries() == object@,
    {
        EnumAccess { object }
    }

    /// The variant name and content, when the object has exactly one key.
    pub fn variant(self) -> (r: Result<(String, Value), Error>)
        ensures
            match r {
                Ok((name, content)) => self.entries().len() == 1 && self.entries()[0] == (name@, content@),
                Err(e) => self.entries().len() != 1 && e@ == SError::DeserializationError(
                    enum_shape_message(self.entries().len()),
                ),
            },
    {
        let ghost es = self.object@;
        let mut entries = self.object.into_entries();
        proof {
            lemma_entries_view(entries@);
        }
        let n = entries.len();
        if n != 1 {
            let mut msg = message_text("Expected enum object with exactly one key, found ");
            let count = Integer::from_u64(n as u64).to_decimal_string();
            msg.append(count.as_str());
            return Err(Error::DeserializationError(msg));
        }
        match entries.pop() {
            Some(pair) => Ok(pair),
            None => Err(Error::DeserializationError(String::new())),
        }
    }
}

} // verus!
