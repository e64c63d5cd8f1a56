use vstd::prelude::*;
use crate::chars::{is_whitespace, utf8_len, whitespace, len_utf8};
use crate::text::{string_push, chars_of};

verus! {

/// The position of the first `'\n'`, or -1.
pub open spec fn first_newline(s: Seq<char>) -> int
    decreases s.len(),
{
    if s.len() == 0 {
        -1
    } else if s[0] == '\n' {
        0
    } else {
        let r = first_newline(s.drop_first());
        if r < 0 {
            -1
        } else {
            r + 1
        }
    }
}

/// A line without the `'\r'` of a `"\r\n"` line ending.
pub open spec fn strip_cr(l: Seq<char>) -> Seq<char> {
    if l.len() > 0 && l.last() == '\r' {
        l.drop_last()
    } else {
        l
    }
}

/// The lines of a text as `str::lines` gives them: split at `'\n'`, a `'\r'`
/// before the `'\n'` dropped, and no empty line after a final line ending.
pub open spec fn split_lines(s: Seq<char>) -> Seq<Seq<char>>
    decreases s.len(),
{
    if s.len() == 0 {
        seq![]
    } else {
        let k = first_newline(s);
        proof {
            lemma_first_newline(s);
        }
        if k < 0 {
            seq![s]
        } else {
            seq![strip_cr(s.take(k))] + split_lines(s.skip(k + 1))
        }
    }
}

/// A line holding nothing but white space.
pub open spec fn is_blank(l: Seq<char>) -> bool {
    forall|i: int| 0 <= i < l.len() ==> is_whitespace(#[trigger] l[i])
}

/// The lines without the blank lines at their end.
pub open spec fn drop_trailing_blank(ls: Seq<Seq<char>>) -> Seq<Seq<char>>
    decreases ls.len(),
{
    if ls.len() > 0 && is_blank(ls.last()) {
        drop_trailing_blank(ls.drop_last())
    } else {
        ls
    }
}

/// The number of bytes of white space a line starts with.
pub open spec fn indent_bytes(l: Seq<char>) -> nat
    decreases l.len(),
{
    if l.len() > 0 && is_whitespace(l[0]) {
        utf8_len(l[0]) + indent_bytes(l.drop_first())
    } else {
        0
    }
}

/// The smallest indentation, in bytes, of the lines that are not blank.
pub open spec fn min_indent(ls: Seq<Seq<char>>) -> Option<nat>
    decreases ls.len(),
{
    if ls.len() == 0 {
        None
    } else {
        let r = min_indent(ls.drop_last());
        let l = ls.last();
        if is_blank(l) {
            r
        } else {
            match r {
                None => Some(indent_bytes(l)),
                Some(m) => Some(if indent_bytes(l) < m { indent_bytes(l) } else { m }),
            }
        }
    }
}

/// The indentation removed from a multi-line string is the smallest
/// indentation among its non-blank lines: no non-blank line is indented less,
/// one is indented exactly that much, and blank lines play no part; with no
/// non-blank line there is none.
pub proof fn lemma_min_indent(ls: Seq<Seq<char>>)
    ensures
        min_indent(ls) is None <==> forall|i: int| 0 <= i < ls.len() ==> is_blank(#[trigger] ls[i]),
        min_indent(ls) matches Some(m) ==> (forall|i: int|
            0 <= i < ls.len() && !is_blank(#[trigger] ls[i]) ==> m <= indent_bytes(ls[i])),
        min_indent(ls) matches Some(m) ==> exists|i: int|
            0 <= i < ls.len() && !is_blank(#[trigger] ls[i]) && indent_bytes(ls[i]) == m,
    decreases ls.len(),
{
    if ls.len() > 0 {
        let prefix = ls.drop_last();
        let l = ls.last();
        lemma_min_indent(prefix);
        assert forall|i: int| 0 <= i < prefix.len() implies #[trigger] prefix[i] == ls[i] by {}
        assert(ls[ls.len() - 1] == l);
        if min_indent(ls) is None {
            assert forall|i: int| 0 <= i < ls.len() implies is_blank(#[trigger] ls[i]) by {
                if i < prefix.len() {
                    assert(is_blank(prefix[i]));
                }
            }
        }
        if forall|i: int| 0 <= i < ls.len() ==> is_blank(#[trigger] ls[i]) {
            assert(is_blank(ls[ls.len() - 1]));
            assert forall|i: int| 0 <= i < prefix.len() implies is_blank(#[trigger] prefix[i]) by {
                assert(is_blank(ls[i]));
            }
        }
        if let Some(m) = min_indent(ls) {
            assert forall|i: int| 0 <= i < ls.len() && !is_blank(#[trigger] ls[i]) implies m <= indent_bytes(ls[i]) by {
                if i < prefix.len() {
                    assert(!is_blank(prefix[i]));
                }
            }
            if !is_blank(l) && (min_indent(prefix) is None || indent_bytes(l) < min_indent(prefix)->Some_0) {
                assert(indent_bytes(ls[ls.len() - 1]) == m);
            } else {
                let i = choose|i: int| 0 <= i < prefix.len() && !is_blank(#[trigger] prefix[i]) && indent_bytes(prefix[i])
                    == min_indent(prefix)->Some_0;
                assert(!is_blank(ls[i]) && indent_bytes(ls[i]) == m);
            }
        }
    }
}

/// A line without its first `m` bytes; `None` when byte `m` is inside a character.
pub open spec fn drop_bytes(l: Seq<char>, m: nat) -> Option<Seq<char>>
    decreases l.len(),
{
    if m == 0 {
        Some(l)
    } else if l.len() == 0 {
        None
    } else if utf8_len(l[0]) <= m {
        drop_bytes(l.drop_first(), (m - utf8_len(l[0])) as nat)
    } else {
        None
    }
}

/// Blank lines emptied, the others without their first `m` bytes.
pub open spec fn dedent_lines(ls: Seq<Seq<char>>, m: nat) -> Option<Seq<Seq<char>>>
    decreases ls.len(),
{
    if ls.len() == 0 {
        Some(seq![])
    } else {
        match dedent_lines(ls.drop_last(), m) {
            None => None,
            Some(prev) => {
                let l = ls.last();
                if is_blank(l) {
                    Some(prev.push(seq![]))
                } else {
                    match drop_bytes(l, m) {
                        None => None,
                        Some(d) => Some(prev.push(d)),
                    }
                }
            },
        }
    }
}

/// The lines joined with `'\n'`.
pub open spec fn join_lines(ls: Seq<Seq<char>>) -> Seq<char>
    decreases ls.len(),
{
    if ls.len() == 0 {
        seq![]
    } else if ls.len() == 1 {
        ls[0]
    } else {
        join_lines(ls.drop_last()) + seq!['\n'] + ls.last()
    }
}

/// How a string literal is laid out when it is written over several lines.
/// A text that starts with a line break and has at least three lines loses
/// its first line and its trailing blank lines; the common indentation of
/// the other lines is removed, blank lines become empty, and the lines are
/// joined with line breaks and end with one.  Any other text is kept as is.
/// `None` stands for the case where the common indentation, counted in
/// bytes, ends inside a character of some line: there the text cannot be cut
/// and nothing is returned.
pub open spec fn process_multiline(s: Seq<char>) -> Option<Seq<char>> {
    if s.len() == 0 || s[0] != '\n' {
        Some(s)
    } else {
        let lines = split_lines(s);
        if lines.len() < 3 {
            Some(s)
        } else {
            let content = drop_trailing_blank(lines.drop_first());
            if content.len() == 0 {
                Some(seq![])
            } else {
                let m = match min_indent(content) {
                    Some(m) => m,
                    None => 0,
                };
                match dedent_lines(content, m) {
                    None => None,
                    Some(ls) => {
                        let r = join_lines(ls);
                        Some(
                            if r.len() > 0 {
                                r.push('\n')
                            } else {
                                r
                            },
                        )
                    },
                }
            }
        }
    }
}

/// The lines ended with a line break, or nothing for no text.
pub open spec fn end_with_newline(r: Seq<char>) -> Seq<char> {
    if r.len() > 0 {
        r.push('\n')
    } else {
        r
    }
}

/// `m` is the least indentation of the non-blank lines: none is indented
/// less, and one is indented exactly that much.
pub open spec fn least_indent(ls: Seq<Seq<char>>, m: nat) -> bool {
    &&& forall|i: int| 0 <= i < ls.len() && !is_blank(#[trigger] ls[i]) ==> m <= indent_bytes(ls[i])
    &&& exists|i: int| 0 <= i < ls.len() && !is_blank(#[trigger] ls[i]) && indent_bytes(ls[i]) == m
}

/// A text laid out over several lines, with some non-blank line, loses
/// exactly the indentation of its least indented non-blank line: every line
/// is cut by that many bytes, blank lines playing no part in it.
pub proof fn lemma_multiline_dedent(s: Seq<char>)
    requires
        s.len() > 0,
        s[0] == '\n',
        split_lines(s).len() >= 3,
        exists|i: int|
            0 <= i < drop_trailing_blank(split_lines(s).drop_first()).len() && !is_blank(
                #[trigger] drop_trailing_blank(split_lines(s).drop_first())[i],
            ),
    ensures
        exists|m: nat|
            #[trigger] least_indent(drop_trailing_blank(split_lines(s).drop_first()), m) && process_multiline(s)
                == match dedent_lines(drop_trailing_blank(split_lines(s).drop_first()), m) {
                None => None,
                Some(ls) => Some(end_with_newline(join_lines(ls))),
            },
{
    let content = drop_trailing_blank(split_lines(s).drop_first());
    lemma_min_indent(content);
    let m = min_indent(content)->Some_0;
    assert(content.len() > 0);
    assert(least_indent(content, m));
}

pub open spec fn lines_view(v: Seq<Vec<char>>) -> Seq<Seq<char>>
    decreases v.len(),
{
    if v.len() == 0 {
        seq![]
    } else {
        lines_view(v.drop_last()).push(v.last()@)
    }
}

proof fn lemma_lines_view(v: Seq<Vec<char>>)
    ensures
        lines_view(v).len() == v.len(),
        forall|i: int| 0 <= i < v.len() ==> #[trigger] lines_view(v)[i] == v[i]@,
    decreases v.len(),
{
    if v.len() > 0 {
        lemma_lines_view(v.drop_last());
    }
}

pub proof fn lemma_first_newline(s: Seq<char>)
    ensures
        -1 <= first_newline(s) < s.len(),
        first_newline(s) >= 0 ==> s[first_newline(s)] == '\n',
        forall|j: int| 0 <= j < s.len() && (first_newline(s) < 0 || j < first_newline(s)) ==> #[trigger] s[j] != '\n',
    decreases s.len(),
{
    if s.len() > 0 {
        lemma_first_newline(s.drop_first());
        assert forall|j: int| 0 < j < s.len() implies #[trigger] s[j] == s.drop_first()[j - 1] by {}
    }
}

proof fn lemma_first_newline_at(s: Seq<char>, k: int)
    requires
        -1 <= k < s.len(),
        k >= 0 ==> s[k] == '\n',
        forall|j: int| 0 <= j < s.len() && (k < 0 || j < k) ==> #[trigger] s[j] != '\n',
    ensures
        first_newline(s) == k,
{
    lemma_first_newline(s);
    let f = first_newline(s);
    if f >= 0 && k >= 0 && f != k {
        if f < k {
            assert(s[f] != '\n');
        } else {
            assert(s[k] != '\n');
        }
    }
    if f >= 0 && k < 0 {
        assert(s[f] != '\n');
    }
    if f < 0 && k >= 0 {
        assert(s[k] != '\n');
    }
}

/// Splits `s` (from position 0) into lines.
fn split_lines_exec(s: &Vec<char>) -> (r: Vec<Vec<char>>)
    ensures
        lines_view(r@) == split_lines(s@),
{
    let mut lines: Vec<Vec<char>> = Vec::new();
    let mut pos: usize = 0;
    let n = s.len();
    proof {
        assert(s@.skip(0) =~= s@);
        assert(lines_view(lines@) + split_lines(s@.skip(0)) =~= split_lines(s@));
    }
    while pos < n
        invariant
            n == s@.len(),
            pos <= n,
            lines_view(lines@) + split_lines(s@.skip(pos as int)) == split_lines(s@),
        decreases n - pos,
    {
        let ghost rest = s@.skip(pos as int);
        let mut j = pos;
        while j < n && s[j] != '\n'
            invariant
                pos <= j <= n,
                n == s@.len(),
                rest == s@.skip(pos as int),
                forall|k: int| pos <= k < j ==> #[trigger] s@[k] != '\n',
            decreases n - j,
        {
            j = j + 1;
        }
        let mut line: Vec<char> = Vec::new();
        let mut k = pos;
        while k < j
            invariant
                pos <= k <= j <= n,
                n == s@.len(),
                line@ == s@.subrange(pos as int, k as int),
            decreases j - k,
        {
            line.push(s[k]);
            k = k + 1;
        }
        proof {
            assert forall|q: int| 0 <= q < rest.len() && (j == n || q < j - pos) implies #[trigger] rest[q] != '\n' by {
                assert(rest[q] == s@[pos + q]);
            }
            if j < n {
                assert(rest[j - pos] == s@[j as int]);
                lemma_first_newline_at(rest, j - pos);
            } else {
                lemma_first_newline_at(rest, -1);
            }
        }
        if j < n {
            if line.len() > 0 && line[line.len() - 1] == '\r' {
                line.pop();
            }
            let ghost old_lines = lines@;
            lines.push(line);
            proof {
                assert(rest.take(j - pos) =~= s@.subrange(pos as int, j as int));
                assert(rest.skip(j - pos + 1) =~= s@.skip(j + 1));
                assert(lines@.drop_last() == old_lines);
                assert(lines_view(lines@) == lines_view(old_lines).push(strip_cr(s@.subrange(pos as int, j as int))));
                assert(split_lines(rest) == seq![strip_cr(rest.take(j - pos))] + split_lines(rest.skip(j - pos + 1)));
                assert(lines_view(lines@) + split_lines(s@.skip(j + 1)) =~= lines_view(old_lines) + split_lines(rest));
            }
            pos = j + 1;
        } else {
            let ghost old_lines = lines@;
            lines.push(line);
            proof {
                assert(rest =~= s@.subrange(pos as int, n as int));
                assert(rest.len() > 0);
                assert(lines@.drop_last() == old_lines);
                assert(split_lines(rest) == seq![rest]);
                assert(s@.skip(n as int) =~= Seq::<char>::empty());
                assert(lines_view(lines@) + split_lines(s@.skip(n as int)) =~= lines_view(old_lines) + split_lines(rest));
            }
            pos = n;
        }
    }
    proof {
        assert(s@.skip(n as int) =~= Seq::<char>::empty());
        assert(lines_view(lines@) + split_lines(s@.skip(n as int)) =~= lines_view(lines@));
    }
    lines
}

/// Whether a line is blank.
fn blank(l: &Vec<char>) -> (b: bool)
    ensures
        b == is_blank(l@),
{
    let mut i: usize = 0;
    while i < l.len()
        invariant
            i <= l@.len(),
            forall|k: int| 0 <= k < i ==> is_whitespace(#[trigger] l@[k]),
        decreases l@.len() - i,
    {
        if !whitespace(l[i]) {
            return false;
        }
        i = i + 1;
    }
    true
}

proof fn lemma_indent_bytes_bounded(l: Seq<char>)
    ensures
        indent_bytes(l) <= 4 * l.len(),
    decreases l.len(),
{
    if l.len() > 0 && is_whitespace(l[0]) {
        lemma_indent_bytes_bounded(l.drop_first());
    }
}

/// The indentation of a line, in bytes.
fn indent_of(l: &Vec<char>) -> (n: u128)
    ensures
        n == indent_bytes(l@),
{
    let mut i: usize = l.len();
    let mut total: u128 = 0;
    // Count from the end of the leading white space backwards.
    let mut e: usize = 0;
    while e < l.len() && whitespace(l[e])
        invariant
            e <= l@.len(),
            forall|k: int| 0 <= k < e ==> is_whitespace(#[trigger] l@[k]),
        decreases l@.len() - e,
    {
        e = e + 1;
    }
    let n = l.len();
    i = e;
    while i > 0
        invariant
            i <= e <= l@.len(),
            forall|k: int| 0 <= k < e ==> is_whitespace(#[trigger] l@[k]),
            e < l@.len() ==> !is_whitespace(l@[e as int]),
            total == indent_bytes(l@.skip(i as int)),
            total <= 4 * (l@.len() - i),
            n == l@.len(),
        decreases i,
    {
        i = i - 1;
        proof {
            let t = l@.skip(i as int);
            assert(t.drop_first() =~= l@.skip(i + 1));
            assert(t[0] == l@[i as int]);
        }
        let w = len_utf8(l[i]);
        assert(w <= 4);
        assert(total <= 4 * l@.len());
        total = total + w as u128;
    }
    proof {
        assert(l@.skip(0) =~= l@);
    }
    assert(i == 0);
    total
}

proof fn lemma_drop_last_trailing(ls: Seq<Seq<char>>)
    ensures
        drop_trailing_blank(ls).len() <= ls.len(),
        forall|i: int| 0 <= i < drop_trailing_blank(ls).len() ==> #[trigger] drop_trailing_blank(ls)[i] == ls[i],
        drop_trailing_blank(ls).len() > 0 ==> !is_blank(drop_trailing_blank(ls).last()),
    decreases ls.len(),
{
    if ls.len() > 0 && is_blank(ls.last()) {
        lemma_drop_last_trailing(ls.drop_last());
    }
}

/// The smallest indentation of the non-blank lines `lines[1..end]`.
fn min_indent_of(lines: &Vec<Vec<char>>, end: usize, Ghost(content): Ghost<Seq<Seq<char>>>) -> (m: Option<u128>)
    requires
        1 <= end <= lines@.len(),
        lines_view(lines@).len() == lines@.len(),
        forall|k: int| 0 <= k < lines@.len() ==> #[trigger] lines_view(lines@)[k] == lines@[k]@,
        content == lines_view(lines@).subrange(1, end as int),
    ensures
        match m {
            Some(m) => min_indent(content) == Some(m as nat),
            None => min_indent(content) is None,
        },
{
    let mut min: Option<u128> = None;
    let mut i: usize = 1;
    while i < end
        invariant
            1 <= i <= end <= lines@.len(),
            lines_view(lines@).len() == lines@.len(),
            content == lines_view(lines@).subrange(1, end as int),
            forall|k: int| 0 <= k < lines@.len() ==> #[trigger] lines_view(lines@)[k] == lines@[k]@,
            match min {
                Some(m) => min_indent(content.take(i - 1)) == Some(m as nat),
                None => min_indent(content.take(i - 1)) is None,
            },
        decreases end - i,
    {
        proof {
            assert(content.len() == end - 1);
            assert(content[i - 1] == lines_view(lines@)[i as int]);
            assert(content.take(i as int).drop_last() =~= content.take(i - 1));
            assert(content.take(i as int).last() == lines@[i as int]@);
        }
        if !blank(&lines[i]) {
            let d = indent_of(&lines[i]);
            min = match min {
                None => Some(d),
                Some(m) => Some(if d < m { d } else { m }),
            };
        }
        i = i + 1;
    }
    proof {
        assert(content.take(end - 1) =~= content);
    }
    min
}

/// The non-blank line `l` without its first `m` bytes appended to `out`;
/// `None` when byte `m` is inside a character.
fn push_dedented(out: &mut String, l: &Vec<char>, m: u128) -> (r: Option<Ghost<Seq<char>>>)
    ensures
        match r {
            Some(d) => drop_bytes(l@, m as nat) == Some(d@) && final(out)@ == old(out)@ + d@,
            None => drop_bytes(l@, m as nat) is None,
        },
{
    let mut k: usize = 0;
    let mut dropped: u128 = 0;
    proof {
        assert(l@.skip(0) =~= l@);
    }
    while k < l.len() && dropped < m && (len_utf8(l[k]) as u128) <= m - dropped
        invariant
            k <= l@.len(),
            dropped <= m,
            drop_bytes(l@, m as nat) == drop_bytes(l@.skip(k as int), (m - dropped) as nat),
        decreases l@.len() - k,
    {
        proof {
            let t = l@.skip(k as int);
            assert(t.drop_first() =~= l@.skip(k + 1));
            assert(t[0] == l@[k as int]);
        }
        dropped = dropped + len_utf8(l[k]) as u128;
        k = k + 1;
    }
    if dropped < m {
        proof {
            let t = l@.skip(k as int);
            if k < l@.len() {
                assert(t[0] == l@[k as int]);
            }
        }
        return None;
    }
    let ghost start = out@;
    let mut q = k;
    while q < l.len()
        invariant
            k <= q <= l@.len(),
            out@ == start + l@.subrange(k as int, q as int),
        decreases l@.len() - q,
    {
        string_push(out, l[q]);
        proof {
            assert(l@.subrange(k as int, q + 1) =~= l@.subrange(k as int, q as int).push(l@[q as int]));
        }
        q = q + 1;
    }
    proof {
        assert(l@.subrange(k as int, l@.len() as int) =~= l@.skip(k as int));
    }
    Some(Ghost(l@.skip(k as int)))
}

/// The lines `lines[1..end]` with `m` bytes of indentation removed, joined.
fn dedent_join(lines: &Vec<Vec<char>>, end: usize, m: u128, Ghost(content): Ghost<Seq<Seq<char>>>) -> (r: Option<String>)
    requires
        1 <= end <= lines@.len(),
        lines_view(lines@).len() == lines@.len(),
        forall|k: int| 0 <= k < lines@.len() ==> #[trigger] lines_view(lines@)[k] == lines@[k]@,
        content == lines_view(lines@).subrange(1, end as int),
    ensures
        match r {
            Some(s) => dedent_lines(content, m as nat) matches Some(ls) && s@ == join_lines(ls),
            None => dedent_lines(content, m as nat) is None,
        },
{
    let mut out = String::new();
    let ghost mut done: Seq<Seq<char>> = seq![];
    let mut i: usize = 1;
    while i < end
        invariant
            1 <= i <= end <= lines@.len(),
            lines_view(lines@).len() == lines@.len(),
            content == lines_view(lines@).subrange(1, end as int),
            forall|k: int| 0 <= k < lines@.len() ==> #[trigger] lines_view(lines@)[k] == lines@[k]@,
            dedent_lines(content.take(i - 1), m as nat) == Some(done),
            out@ == join_lines(done),
            done.len() == i - 1,
        decreases end - i,
    {
        proof {
            assert(content.len() == end - 1);
            assert(content[i - 1] == lines_view(lines@)[i as int]);
            assert(content.take(i as int).drop_last() =~= content.take(i - 1));
            assert(content.take(i as int).last() == lines@[i as int]@);
        }
        let ghost prev = done;
        let ghost before = out@;
        if i > 1 {
            string_push(&mut out, '\n');
        }
        let ghost sep = out@;
        if blank(&lines[i]) {
            proof {
                done = prev.push(seq![]);
                lemma_join_push(prev, seq![]);
                assert(out@ =~= join_lines(done));
            }
        } else {
            match push_dedented(&mut out, &lines[i], m) {
                None => {
                    proof {
                        lemma_dedent_none(content, i as int, end - 1, m as nat);
                        assert(content.take(end - 1) =~= content);
                    }
                    return None;
                },
                Some(d) => {
                    proof {
                        done = prev.push(d@);
                        lemma_join_push(prev, d@);
                        assert(out@ =~= join_lines(done));
                    }
                },
            }
        }
        i = i + 1;
    }
    proof {
        assert(content.take(end - 1) =~= content);
    }
    Some(out)
}

/// The text with its multi-line layout removed, as [`process_multiline`] says;
/// `None` where that is `None`.
pub fn process_multiline_string(input: &str) -> (r: Option<String>)
    ensures
        match r {
            Some(s) => process_multiline(input@) == Some(s@),
            None => process_multiline(input@) is None,
        },
{
    let s = chars_of(input);
    if s.len() == 0 || s[0] != '\n' {
        return Some(String::from_str(input));
    }
    let lines = split_lines_exec(&s);
    proof {
        lemma_lines_view(lines@);
    }
    if lines.len() < 3 {
        return Some(String::from_str(input));
    }
    // The lines after the first, without the blank ones at the end.
    let mut end = lines.len();
    while end > 1 && blank(&lines[end - 1])
        invariant
            1 <= end <= lines@.len(),
            lines_view(lines@).len() == lines@.len(),
            forall|i: int| 0 <= i < lines@.len() ==> #[trigger] lines_view(lines@)[i] == lines@[i]@,
            drop_trailing_blank(lines_view(lines@).drop_first()) == drop_trailing_blank(
                lines_view(lines@).subrange(1, end as int),
            ),
        decreases end,
    {
        proof {
            let c = lines_view(lines@).subrange(1, end as int);
            assert(c.last() == lines@[end - 1]@);
            assert(c.drop_last() =~= lines_view(lines@).subrange(1, end - 1));
        }
        end = end - 1;
    }
    let ghost content = lines_view(lines@).subrange(1, end as int);
    proof {
        assert(lines_view(lines@).drop_first() =~= lines_view(lines@).subrange(1, lines@.len() as int));
        if end > 1 {
            assert(content.last() == lines@[end - 1]@);
        }
        assert(drop_trailing_blank(content) == content);
    }
    if end == 1 {
        proof {
            assert(content.len() == 0);
        }
        return Some(String::new());
    }
    let m: u128 = match min_indent_of(&lines, end, Ghost(content)) {
        Some(m) => m,
        None => 0,
    };
    match dedent_join(&lines, end, m, Ghost(content)) {
        None => None,
        Some(mut out) => {
            if !out.as_str().is_empty() {
                string_push(&mut out, '\n');
            }
            Some(out)
        },
    }
}

proof fn lemma_join_push(prev: Seq<Seq<char>>, x: Seq<char>)
    ensures
        join_lines(prev.push(x)) == if prev.len() == 0 {
            x
        } else {
            join_lines(prev) + seq!['\n'] + x
        },
{
    assert(prev.push(x).drop_last() =~= prev);
}

proof fn lemma_dedent_none(ls: Seq<Seq<char>>, i: int, n: int, m: nat)
    requires
        1 <= i <= n <= ls.len(),
        dedent_lines(ls.take(i), m) is None,
    ensures
        dedent_lines(ls.take(n), m) is None,
    decreases n - i,
{
    if i < n {
        lemma_dedent_none(ls, i, n - 1, m);
        assert(ls.take(n).drop_last() =~= ls.take(n - 1));
    }
}

} // verus!
