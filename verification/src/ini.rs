//! Spec-level model of the INI-style text format: how a configuration is
//! laid out as lines of text, and how lines of text are folded back into a
//! configuration.  The executable codec in `gitconfig` is specified against
//! these functions, and the round-trip law is proved about them.

use vstd::prelude::*;
use crate::gitconfig::{
    EntryV, SectionV, find_key, find_section, wf_config, lemma_find_key_at,
    lemma_find_section_at, lemma_find_key_props, lemma_find_section_props,
};

verus! {

/// Horizontal whitespace that `trim` strips from line ends.
pub open spec fn is_ws(c: char) -> bool {
    c == ' ' || c == '\t' || c == '\r' || c == '\n'
}

/// `s` without leading whitespace.
pub open spec fn trim_front(s: Seq<char>) -> Seq<char>
    decreases s.len(),
{
    if s.len() > 0 && is_ws(s[0]) {
        trim_front(s.drop_first())
    } else {
        s
    }
}

/// `s` without trailing whitespace.
pub open spec fn trim_back(s: Seq<char>) -> Seq<char>
    decreases s.len(),
{
    if s.len() > 0 && is_ws(s.last()) {
        trim_back(s.drop_last())
    } else {
        s
    }
}

/// `s` without leading or trailing whitespace.
pub open spec fn trim(s: Seq<char>) -> Seq<char> {
    trim_back(trim_front(s))
}

/// Index of the first newline in `t`, or `t.len()` if there is none.
pub open spec fn line_end(t: Seq<char>) -> int
    decreases t.len(),
{
    if t.len() == 0 {
        0
    } else if t[0] == '\n' {
        0
    } else {
        1 + line_end(t.drop_first())
    }
}

/// The lines of `t`: maximal newline-free stretches.  A final newline closes
/// the last line rather than opening an empty one.
pub open spec fn split_lines(t: Seq<char>) -> Seq<Seq<char>>
    decreases t.len(),
{
    if t.len() == 0 {
        Seq::empty()
    } else {
        let e = line_end(t);
        if 0 <= e < t.len() {
            seq![t.subrange(0, e)] + split_lines(t.subrange(e + 1, t.len() as int))
        } else {
            seq![t]
        }
    }
}

/// The lines of `ls` joined back into text, each followed by a newline.
pub open spec fn join_lines(ls: Seq<Seq<char>>) -> Seq<char>
    decreases ls.len(),
{
    if ls.len() == 0 {
        Seq::empty()
    } else {
        ls[0] + seq!['\n'] + join_lines(ls.drop_first())
    }
}

/// Index of the first `=` in `t`, or `t.len()` if there is none.
pub open spec fn eq_pos(t: Seq<char>) -> int
    decreases t.len(),
{
    if t.len() == 0 {
        0
    } else if t[0] == '=' {
        0
    } else {
        1 + eq_pos(t.drop_first())
    }
}

/// Split an already-trimmed line at its first `=`; both sides trimmed.
/// `None` when the line holds no `=`.
pub open spec fn parse_kv(t: Seq<char>) -> Option<(Seq<char>, Seq<char>)> {
    let e = eq_pos(t);
    if e == t.len() {
        None
    } else {
        Some((trim(t.subrange(0, e)), trim(t.subrange(e + 1, t.len() as int))))
    }
}

/// The ` = ` separator emitted between a key and its value.
pub open spec fn kv_sep() -> Seq<char> {
    seq![' ', '=', ' ']
}

/// The text line for one entry.
pub open spec fn kv_line(e: EntryV) -> Seq<char> {
    e.key + kv_sep() + e.value
}

/// The header line for a section name.
pub open spec fn header_line(n: Seq<char>) -> Seq<char> {
    seq!['['] + n + seq![']']
}

/// The lines one section serializes to: header, entries, one blank line.
pub open spec fn section_lines(s: SectionV) -> Seq<Seq<char>> {
    seq![header_line(s.name)] + s.entries.map_values(|e: EntryV| kv_line(e)) + seq![
        Seq::<char>::empty(),
    ]
}

/// The lines a whole configuration serializes to.
pub open spec fn config_lines(ss: Seq<SectionV>) -> Seq<Seq<char>>
    decreases ss.len(),
{
    if ss.len() == 0 {
        Seq::empty()
    } else {
        section_lines(ss[0]) + config_lines(ss.drop_first())
    }
}

/// The serialized text of a whole configuration.
pub open spec fn serialized(ss: Seq<SectionV>) -> Seq<char> {
    join_lines(config_lines(ss))
}

/// State of the line-by-line parse: the sections built so far and which of
/// them (by index) the current section header opened, if any.
#[verifier::ext_equal]
pub struct ParseState {
    pub sections: Seq<SectionV>,
    pub cur: Option<int>,
}

/// The state every parse starts from: no sections, no open section.
pub open spec fn init_state() -> ParseState {
    ParseState { sections: Seq::empty(), cur: None }
}

/// Insert `(k, v)` into `es`: overwrite the first entry with key `k`, or
/// append when the key is new.
pub open spec fn upsert(es: Seq<EntryV>, k: Seq<char>, v: Seq<char>) -> Seq<EntryV> {
    match find_key(es, k) {
        Some(i) => es.update(i, EntryV { key: k, value: v }),
        None => es.push(EntryV { key: k, value: v }),
    }
}

/// A line the parser skips: blank, or a comment (first non-whitespace
/// character `#`).
pub open spec fn skippable(line: Seq<char>) -> bool {
    let t = trim(line);
    t.len() == 0 || t[0] == '#'
}

/// A line of the shape `[name]` after trimming.
pub open spec fn is_header(t: Seq<char>) -> bool {
    t.len() > 0 && t[0] == '[' && t.last() == ']'
}

/// One step of the parse: how a single line changes the state.
pub open spec fn process_line(st: ParseState, line: Seq<char>) -> ParseState {
    let t = trim(line);
    if t.len() == 0 || t[0] == '#' {
        st
    } else if is_header(t) {
        let name = t.subrange(1, t.len() - 1);
        match find_section(st.sections, name) {
            Some(i) => ParseState { sections: st.sections, cur: Some(i) },
            None => ParseState {
                sections: st.sections.push(SectionV { name, entries: Seq::empty() }),
                cur: Some(st.sections.len() as int),
            },
        }
    } else {
        match parse_kv(t) {
            Some(kv) => match st.cur {
                Some(i) => ParseState {
                    sections: st.sections.update(
                        i,
                        SectionV {
                            name: st.sections[i].name,
                            entries: upsert(st.sections[i].entries, kv.0, kv.1),
                        },
                    ),
                    cur: st.cur,
                },
                None => st,
            },
            None => st,
        }
    }
}

/// The state after the first `n` lines of `ls`.
pub open spec fn parse_upto(ls: Seq<Seq<char>>, n: int) -> ParseState
    decreases n,
{
    if n <= 0 {
        init_state()
    } else {
        process_line(parse_upto(ls, n - 1), ls[n - 1])
    }
}

/// The configuration that a whole text parses to.
pub open spec fn parse_config(t: Seq<char>) -> Seq<SectionV> {
    parse_upto(split_lines(t), split_lines(t).len() as int).sections
}

/// The state after running the parse forward over all of `ls`, from `st`.
pub open spec fn parse_from(st: ParseState, ls: Seq<Seq<char>>) -> ParseState
    decreases ls.len(),
{
    if ls.len() == 0 {
        st
    } else {
        parse_from(process_line(st, ls[0]), ls.drop_first())
    }
}

/// `s` holds no newline.
pub open spec fn newline_free(s: Seq<char>) -> bool {
    forall|i: int| 0 <= i < s.len() ==> s[i] != '\n'
}

/// `s` holds no `=`.
pub open spec fn eq_free(s: Seq<char>) -> bool {
    forall|i: int| 0 <= i < s.len() ==> s[i] != '='
}

/// `s` neither starts nor ends with whitespace, so trimming keeps it.
pub open spec fn clean(s: Seq<char>) -> bool {
    s.len() > 0 ==> !is_ws(s[0]) && !is_ws(s[s.len() - 1])
}

/// An entry whose serialized line parses back to exactly this entry: key and
/// value free of newlines and `=` and not padded with whitespace, the key not
/// opening a comment, and the pair not shaped like a section header.
pub open spec fn safe_entry(e: EntryV) -> bool {
    &&& newline_free(e.key) && eq_free(e.key) && clean(e.key)
    &&& newline_free(e.value) && eq_free(e.value) && clean(e.value)
    &&& e.key.len() > 0 ==> e.key[0] != '#'
    &&& !(e.key.len() > 0 && e.key[0] == '[' && e.value.len() > 0 && e.value[e.value.len() - 1]
        == ']')
}

/// A section whose serialized lines parse back to exactly this section.
pub open spec fn safe_section(s: SectionV) -> bool {
    &&& newline_free(s.name)
    &&& forall|i: int| 0 <= i < s.entries.len() ==> safe_entry(#[trigger] s.entries[i])
}

/// A configuration whose serialized text parses back to exactly itself.
pub open spec fn roundtrip_safe(ss: Seq<SectionV>) -> bool {
    forall|i: int| 0 <= i < ss.len() ==> safe_section(#[trigger] ss[i])
}

/// `line_end` is the position of the first newline: nothing before it is a
/// newline, and it sits on a newline unless the text holds none.
pub proof fn lemma_line_end_at(t: Seq<char>, j: int)
    requires
        0 <= j <= t.len(),
        forall|i: int| 0 <= i < j ==> t[i] != '\n',
        j < t.len() ==> t[j] == '\n',
    ensures
        line_end(t) == j,
    decreases j,
{
    if t.len() == 0 {
    } else if j == 0 {
    } else {
        assert(t[0] != '\n');
        assert forall|i: int| 0 <= i < j - 1 implies t.drop_first()[i] != '\n' by {
            assert(t.drop_first()[i] == t[i + 1]);
        }
        if j - 1 < t.drop_first().len() {
            assert(t.drop_first()[j - 1] == t[j]);
        }
        lemma_line_end_at(t.drop_first(), j - 1);
    }
}

/// `eq_pos` is the position of the first `=`, in the same way.
pub proof fn lemma_eq_pos_at(t: Seq<char>, j: int)
    requires
        0 <= j <= t.len(),
        forall|i: int| 0 <= i < j ==> t[i] != '=',
        j < t.len() ==> t[j] == '=',
    ensures
        eq_pos(t) == j,
    decreases j,
{
    if t.len() == 0 {
    } else if j == 0 {
    } else {
        assert(t[0] != '=');
        assert forall|i: int| 0 <= i < j - 1 implies t.drop_first()[i] != '=' by {
            assert(t.drop_first()[i] == t[i + 1]);
        }
        if j - 1 < t.drop_first().len() {
            assert(t.drop_first()[j - 1] == t[j]);
        }
        lemma_eq_pos_at(t.drop_first(), j - 1);
    }
}

/// `trim_front` drops exactly the leading whitespace run.
pub proof fn lemma_trim_front_at(s: Seq<char>, lo: int)
    requires
        0 <= lo <= s.len(),
        forall|j: int| 0 <= j < lo ==> is_ws(s[j]),
        lo < s.len() ==> !is_ws(s[lo]),
    ensures
        trim_front(s) == s.subrange(lo, s.len() as int),
    decreases lo,
{
    if lo == 0 {
        assert(s.subrange(0, s.len() as int) =~= s);
    } else {
        assert(is_ws(s[0]));
        let d = s.drop_first();
        assert forall|j: int| 0 <= j < lo - 1 implies is_ws(d[j]) by {
            assert(d[j] == s[j + 1]);
        }
        if lo - 1 < d.len() {
            assert(d[lo - 1] == s[lo]);
        }
        lemma_trim_front_at(d, lo - 1);
        assert(d.subrange(lo - 1, d.len() as int) =~= s.subrange(lo, s.len() as int));
    }
}

/// `trim_back` drops exactly the trailing whitespace run.
pub proof fn lemma_trim_back_at(s: Seq<char>, hi: int)
    requires
        0 <= hi <= s.len(),
        forall|j: int| hi <= j < s.len() ==> is_ws(s[j]),
        hi > 0 ==> !is_ws(s[hi - 1]),
    ensures
        trim_back(s) == s.subrange(0, hi),
    decreases s.len(),
{
    if hi == s.len() {
        assert(s.subrange(0, s.len() as int) =~= s);
    } else {
        assert(is_ws(s.last()));
        let d = s.drop_last();
        lemma_trim_back_at(d, hi);
        assert(d.subrange(0, hi) =~= s.subrange(0, hi));
    }
}

/// `trim` keeps exactly the stretch `[lo, hi)` when everything outside it is
/// whitespace and its own ends are not.
pub proof fn lemma_trim_at(s: Seq<char>, lo: int, hi: int)
    requires
        0 <= lo <= hi <= s.len(),
        forall|j: int| 0 <= j < lo ==> is_ws(s[j]),
        forall|j: int| hi <= j < s.len() ==> is_ws(s[j]),
        lo < hi ==> !is_ws(s[lo]) && !is_ws(s[hi - 1]),
        lo == hi ==> lo == s.len(),
    ensures
        trim(s) == s.subrange(lo, hi),
    decreases 0int,
{
    lemma_trim_front_at(s, lo);
    let m = s.subrange(lo, s.len() as int);
    assert forall|j: int| hi - lo <= j < m.len() implies is_ws(m[j]) by {
        assert(m[j] == s[j + lo]);
    }
    if hi > lo {
        assert(m[hi - lo - 1] == s[hi - 1]);
    }
    lemma_trim_back_at(m, hi - lo);
    assert(m.subrange(0, hi - lo) =~= s.subrange(lo, hi));
}

/// A string with no leading or trailing whitespace trims to itself.
pub proof fn lemma_trim_clean(s: Seq<char>)
    requires
        s.len() > 0 ==> !is_ws(s[0]) && !is_ws(s[s.len() - 1]),
    ensures
        trim(s) == s,
{
    lemma_trim_at(s, 0, s.len() as int);
    assert(s.subrange(0, s.len() as int) =~= s);
}

/// Splitting undoes joining, as long as no line holds a newline.
pub proof fn lemma_split_join(ls: Seq<Seq<char>>)
    requires
        forall|i: int, j: int|
            0 <= i < ls.len() && 0 <= j < ls[i].len() ==> #[trigger] ls[i][j] != '\n',
    ensures
        split_lines(join_lines(ls)) =~= ls,
    decreases ls.len(),
{
    if ls.len() == 0 {
    } else {
        let t = join_lines(ls);
        let l0 = ls[0];
        let rest = join_lines(ls.drop_first());
        assert(t == l0 + seq!['\n'] + rest);
        assert forall|i: int| 0 <= i < l0.len() implies t[i] != '\n' by {
            assert(t[i] == l0[i]);
        }
        assert(t[l0.len() as int] == '\n');
        lemma_line_end_at(t, l0.len() as int);
        assert(t.subrange(0, l0.len() as int) =~= l0);
        assert(t.subrange(l0.len() as int + 1, t.len() as int) =~= rest);
        lemma_split_join(ls.drop_first());
        assert(split_lines(t) =~= seq![l0] + split_lines(rest));
    }
}

/// `join_lines` distributes over concatenation.
pub proof fn lemma_join_lines_concat(a: Seq<Seq<char>>, b: Seq<Seq<char>>)
    ensures
        join_lines(a + b) =~= join_lines(a) + join_lines(b),
    decreases a.len(),
{
    if a.len() == 0 {
        assert(a + b =~= b);
    } else {
        assert((a + b).drop_first() =~= a.drop_first() + b);
        lemma_join_lines_concat(a.drop_first(), b);
    }
}

/// Joining one more line appends it and a newline.
pub proof fn lemma_join_push(ls: Seq<Seq<char>>, l: Seq<char>)
    ensures
        join_lines(ls.push(l)) =~= join_lines(ls) + l + seq!['\n'],
{
    assert(ls.push(l) =~= ls + seq![l]);
    lemma_join_lines_concat(ls, seq![l]);
    lemma_join_single(l);
}

/// The text of a single line.
pub proof fn lemma_join_single(l: Seq<char>)
    ensures
        join_lines(seq![l]) =~= l + seq!['\n'],
{
    assert(seq![l].drop_first() =~= Seq::<Seq<char>>::empty());
    assert(join_lines(Seq::<Seq<char>>::empty()) =~= Seq::<char>::empty());
    assert(join_lines(seq![l]) == seq![l][0] + seq!['\n'] + join_lines(seq![l].drop_first()));
}

/// The text of one serialized section: header line, entry lines, blank line.
pub proof fn lemma_section_join(s: SectionV)
    ensures
        join_lines(section_lines(s)) =~= seq!['['] + s.name + seq![']', '\n'] + join_lines(
            s.entries.map_values(|e: EntryV| kv_line(e)),
        ) + seq!['\n'],
{
    let kvs = s.entries.map_values(|e: EntryV| kv_line(e));
    assert(section_lines(s) =~= seq![header_line(s.name)] + (kvs + seq![Seq::<char>::empty()]));
    lemma_join_lines_concat(seq![header_line(s.name)], kvs + seq![Seq::<char>::empty()]);
    lemma_join_single(header_line(s.name));
    lemma_join_lines_concat(kvs, seq![Seq::<char>::empty()]);
    lemma_join_single(Seq::<char>::empty());
}

/// Serializing one more section appends that section's text.
pub proof fn lemma_serialized_push(ss: Seq<SectionV>, s: SectionV)
    ensures
        serialized(ss.push(s)) =~= serialized(ss) + join_lines(section_lines(s)),
{
    assert(ss.push(s) =~= ss + seq![s]);
    lemma_config_lines_concat(ss, seq![s]);
    assert(seq![s].drop_first() =~= Seq::<SectionV>::empty());
    assert(config_lines(Seq::<SectionV>::empty()) =~= Seq::<Seq<char>>::empty());
    assert(config_lines(seq![s]) == section_lines(seq![s][0]) + config_lines(
        seq![s].drop_first(),
    ));
    assert(config_lines(seq![s]) =~= section_lines(s));
    lemma_join_lines_concat(config_lines(ss), section_lines(s));
}

/// `config_lines` distributes over concatenation.
pub proof fn lemma_config_lines_concat(a: Seq<SectionV>, b: Seq<SectionV>)
    ensures
        config_lines(a + b) =~= config_lines(a) + config_lines(b),
    decreases a.len(),
{
    if a.len() == 0 {
        assert(a + b =~= b);
    } else {
        assert((a + b).drop_first() =~= a.drop_first() + b);
        lemma_config_lines_concat(a.drop_first(), b);
    }
}

/// Running the forward parse over concatenated line lists composes.
pub proof fn lemma_parse_from_concat(st: ParseState, a: Seq<Seq<char>>, b: Seq<Seq<char>>)
    ensures
        parse_from(st, a + b) == parse_from(parse_from(st, a), b),
    decreases a.len(),
{
    if a.len() == 0 {
        assert(a + b =~= b);
    } else {
        assert((a + b).drop_first() =~= a.drop_first() + b);
        assert((a + b)[0] == a[0]);
        lemma_parse_from_concat(process_line(st, a[0]), a.drop_first(), b);
    }
}

/// The backward-recursive `parse_upto` agrees with the forward parse.
pub proof fn lemma_parse_upto_is_parse_from(ls: Seq<Seq<char>>, n: int)
    requires
        0 <= n <= ls.len(),
    ensures
        parse_upto(ls, n) == parse_from(init_state(), ls.take(n)),
    decreases n,
{
    if n == 0 {
        assert(ls.take(0) =~= Seq::<Seq<char>>::empty());
    } else {
        lemma_parse_upto_is_parse_from(ls, n - 1);
        assert(ls.take(n) =~= ls.take(n - 1) + seq![ls[n - 1]]);
        lemma_parse_from_concat(init_state(), ls.take(n - 1), seq![ls[n - 1]]);
        lemma_parse_from_single(parse_from(init_state(), ls.take(n - 1)), ls[n - 1]);
    }
}

/// Running the forward parse over a single line is one step.
pub proof fn lemma_parse_from_single(st: ParseState, l: Seq<char>)
    ensures
        parse_from(st, seq![l]) == process_line(st, l),
{
    assert(seq![l].drop_first() =~= Seq::<Seq<char>>::empty());
    assert(parse_from(process_line(st, l), Seq::<Seq<char>>::empty()) == process_line(st, l));
    assert(parse_from(st, seq![l]) == parse_from(process_line(st, seq![l][0]), seq![l]
        .drop_first()));
}

/// A text all of whose lines are blank or comments parses to nothing.
/// This is the comment/blank-skip law.
pub proof fn lemma_comments_parse_to_nothing(t: Seq<char>)
    requires
        forall|i: int| 0 <= i < split_lines(t).len() ==> skippable(#[trigger] split_lines(t)[i]),
    ensures
        parse_config(t) =~~= Seq::<SectionV>::empty(),
{
    let ls = split_lines(t);
    lemma_parse_upto_skippable(ls, ls.len() as int);
}

/// Any prefix of skippable lines leaves the parse at its initial state.
pub proof fn lemma_parse_upto_skippable(ls: Seq<Seq<char>>, n: int)
    requires
        0 <= n <= ls.len(),
        forall|i: int| 0 <= i < ls.len() ==> skippable(#[trigger] ls[i]),
    ensures
        parse_upto(ls, n) == init_state(),
    decreases n,
{
    if n > 0 {
        lemma_parse_upto_skippable(ls, n - 1);
    }
}

/// A serialized `key = value` line parses back to exactly that pair, and is
/// neither blank, a comment, nor a section header.
pub proof fn lemma_kv_parse(e: EntryV)
    requires
        safe_entry(e),
    ensures
        trim(kv_line(e)).len() > 0,
        trim(kv_line(e))[0] != '#',
        !is_header(trim(kv_line(e))),
        parse_kv(trim(kv_line(e))) == Some((e.key, e.value)),
{
    let k = e.key;
    let v = e.value;
    let line = kv_line(e);
    assert(line =~= k + kv_sep() + v);
    assert(line.len() == k.len() + 3 + v.len());
    if k.len() > 0 && v.len() > 0 {
        assert(line[0] == k[0]);
        assert(line[line.len() - 1] == v[v.len() - 1]);
        lemma_trim_clean(line);
        let t = line;
        assert forall|i: int| 0 <= i < k.len() + 1 implies t[i] != '=' by {
            if i < k.len() {
                assert(t[i] == k[i]);
            } else {
                assert(t[i] == ' ');
            }
        }
        assert(t[k.len() as int + 1] == '=');
        lemma_eq_pos_at(t, k.len() as int + 1);
        let left = t.subrange(0, k.len() as int + 1);
        assert(left =~= k + seq![' ']);
        lemma_trim_at(left, 0, k.len() as int);
        assert(left.subrange(0, k.len() as int) =~= k);
        let right = t.subrange(k.len() as int + 2, t.len() as int);
        assert(right =~= seq![' '] + v);
        lemma_trim_at(right, 1, right.len() as int);
        assert(right.subrange(1, right.len() as int) =~= v);
        assert(t[0] == k[0]);
        if t[0] == '[' {
            assert(t[t.len() - 1] == v[v.len() - 1]);
            assert(v[v.len() - 1] != ']');
        }
    } else if k.len() == 0 && v.len() > 0 {
        assert(line =~= seq![' ', '=', ' '] + v);
        assert(line[line.len() - 1] == v[v.len() - 1]);
        lemma_trim_at(line, 1, line.len() as int);
        let t = line.subrange(1, line.len() as int);
        assert(t =~= seq!['=', ' '] + v);
        assert(t[0] == '=');
        lemma_eq_pos_at(t, 0);
        assert(t.subrange(0, 0) =~= Seq::<char>::empty());
        assert(trim(Seq::<char>::empty()) =~= Seq::<char>::empty());
        let right = t.subrange(1, t.len() as int);
        assert(right =~= seq![' '] + v);
        lemma_trim_at(right, 1, right.len() as int);
        assert(right.subrange(1, right.len() as int) =~= v);
    } else if k.len() > 0 && v.len() == 0 {
        assert(line =~= k + seq![' ', '=', ' ']);
        assert(line[0] == k[0]);
        assert(line[line.len() - 2] == '=');
        lemma_trim_at(line, 0, line.len() as int - 1);
        let t = line.subrange(0, line.len() as int - 1);
        assert(t =~= k + seq![' ', '=']);
        assert forall|i: int| 0 <= i < k.len() + 1 implies t[i] != '=' by {
            if i < k.len() {
                assert(t[i] == k[i]);
            } else {
                assert(t[i] == ' ');
            }
        }
        assert(t[k.len() as int + 1] == '=');
        lemma_eq_pos_at(t, k.len() as int + 1);
        let left = t.subrange(0, k.len() as int + 1);
        assert(left =~= k + seq![' ']);
        lemma_trim_at(left, 0, k.len() as int);
        assert(left.subrange(0, k.len() as int) =~= k);
        let right = t.subrange(k.len() as int + 2, t.len() as int);
        assert(right =~= Seq::<char>::empty());
        assert(trim(Seq::<char>::empty()) =~= Seq::<char>::empty());
        assert(t[t.len() - 1] == '=');
    } else {
        assert(line =~= seq![' ', '=', ' ']);
        lemma_trim_at(line, 1, 2);
        let t = line.subrange(1, 2);
        assert(t =~= seq!['=']);
        assert(t[0] == '=');
        lemma_eq_pos_at(t, 0);
        assert(t.subrange(0, 0) =~= Seq::<char>::empty());
        assert(t.subrange(1, 1) =~= Seq::<char>::empty());
        assert(trim(Seq::<char>::empty()) =~= Seq::<char>::empty());
    }
}

/// A serialized header line parses back to a header for the same name.
pub proof fn lemma_header_parse(n: Seq<char>)
    ensures
        trim(header_line(n)) == header_line(n),
        is_header(header_line(n)),
        header_line(n)[0] != '#',
        trim(header_line(n)).subrange(1, trim(header_line(n)).len() - 1) =~= n,
{
    let h = header_line(n);
    assert(h[0] == '[');
    assert(h[h.len() - 1] == ']');
    lemma_trim_clean(h);
    assert(h.subrange(1, h.len() - 1) =~= n);
}

/// Parsing the serialized entry lines of a section appends exactly those
/// entries to the open section.
pub proof fn lemma_parse_kv_lines(st: ParseState, sec: int, es: Seq<EntryV>)
    requires
        st.cur == Some(sec),
        0 <= sec < st.sections.len(),
        forall|i: int| 0 <= i < es.len() ==> safe_entry(#[trigger] es[i]),
        forall|p: int, q: int| 0 <= p < q < es.len() ==> es[p].key != es[q].key,
        forall|i: int, j: int|
            0 <= i < es.len() && 0 <= j < st.sections[sec].entries.len()
                ==> st.sections[sec].entries[j].key != es[i].key,
    ensures
        parse_from(st, es.map_values(|e: EntryV| kv_line(e))) == (ParseState {
            sections: st.sections.update(
                sec,
                SectionV {
                    name: st.sections[sec].name,
                    entries: st.sections[sec].entries + es,
                },
            ),
            cur: Some(sec),
        }),
    decreases es.len(),
{
    let f = |e: EntryV| kv_line(e);
    if es.len() == 0 {
        assert(es.map_values(f) =~= Seq::<Seq<char>>::empty());
        assert(st.sections[sec].entries + es =~= st.sections[sec].entries);
        assert(SectionV {
            name: st.sections[sec].name,
            entries: st.sections[sec].entries + es,
        } =~~= st.sections[sec]);
        assert(st.sections.update(sec, st.sections[sec]) =~= st.sections);
        assert(parse_from(st, es.map_values(f)) =~~= (ParseState {
            sections: st.sections.update(
                sec,
                SectionV {
                    name: st.sections[sec].name,
                    entries: st.sections[sec].entries + es,
                },
            ),
            cur: Some(sec),
        }));
    } else {
        let e0 = es[0];
        let rest = es.drop_first();
        assert(es.map_values(f) =~= seq![kv_line(e0)] + rest.map_values(f));
        lemma_parse_from_concat(st, seq![kv_line(e0)], rest.map_values(f));
        lemma_parse_from_single(st, kv_line(e0));
        lemma_kv_parse(e0);
        let old_entries = st.sections[sec].entries;
        lemma_find_key_at(old_entries, e0.key, old_entries.len() as int);
        assert(EntryV { key: e0.key, value: e0.value } =~~= e0);
        assert(upsert(old_entries, e0.key, e0.value) =~~= old_entries.push(e0));
        let st1 = ParseState {
            sections: st.sections.update(
                sec,
                SectionV { name: st.sections[sec].name, entries: old_entries.push(e0) },
            ),
            cur: Some(sec),
        };
        assert(process_line(st, kv_line(e0)) =~~= st1);
        assert forall|p: int, q: int| 0 <= p < q < rest.len() implies rest[p].key
            != rest[q].key by {
            assert(rest[p] == es[p + 1]);
            assert(rest[q] == es[q + 1]);
        }
        assert forall|i: int, j: int|
            0 <= i < rest.len() && 0 <= j < st1.sections[sec].entries.len()
                implies st1.sections[sec].entries[j].key != rest[i].key by {
            assert(rest[i] == es[i + 1]);
            if j < old_entries.len() {
                assert(st1.sections[sec].entries[j] == old_entries[j]);
            } else {
                assert(st1.sections[sec].entries[j] == e0);
            }
        }
        assert forall|i: int| 0 <= i < rest.len() implies safe_entry(#[trigger] rest[i]) by {
            assert(rest[i] == es[i + 1]);
        }
        lemma_parse_kv_lines(st1, sec, rest);
        assert(old_entries.push(e0) + rest =~= old_entries + es);
        assert(st1.sections.update(
            sec,
            SectionV { name: st1.sections[sec].name, entries: old_entries.push(e0) + rest },
        ) =~~= st.sections.update(
            sec,
            SectionV { name: st.sections[sec].name, entries: old_entries + es },
        ));
    }
}

/// Parsing the serialized lines of one section, whose name is new, appends
/// that section and leaves it open.
pub proof fn lemma_parse_section(st: ParseState, s: SectionV)
    requires
        forall|j: int| 0 <= j < st.sections.len() ==> (#[trigger] st.sections[j]).name != s.name,
        safe_section(s),
        forall|p: int, q: int| 0 <= p < q < s.entries.len() ==> s.entries[p].key
            != s.entries[q].key,
    ensures
        parse_from(st, section_lines(s)) == (ParseState {
            sections: st.sections.push(s),
            cur: Some(st.sections.len() as int),
        }),
{
    let f = |e: EntryV| kv_line(e);
    let sec = st.sections.len() as int;
    let kvs = s.entries.map_values(f);
    assert(section_lines(s) =~= seq![header_line(s.name)] + (kvs + seq![Seq::<char>::empty()]));
    lemma_parse_from_concat(st, seq![header_line(s.name)], kvs + seq![Seq::<char>::empty()]);
    lemma_parse_from_single(st, header_line(s.name));
    lemma_header_parse(s.name);
    lemma_find_section_at(st.sections, s.name, sec);
    let opened = SectionV { name: s.name, entries: Seq::<EntryV>::empty() };
    let st1 = ParseState { sections: st.sections.push(opened), cur: Some(sec) };
    assert(process_line(st, header_line(s.name)) =~~= st1);
    lemma_parse_from_concat(st1, kvs, seq![Seq::<char>::empty()]);
    lemma_parse_kv_lines(st1, sec, s.entries);
    let st2 = parse_from(st1, kvs);
    assert(Seq::<EntryV>::empty() + s.entries =~= s.entries);
    assert(st2.sections =~~= st.sections.push(s)) by {
        assert(SectionV { name: opened.name, entries: opened.entries + s.entries } =~~= s);
        assert(st1.sections.update(sec, SectionV {
            name: opened.name,
            entries: opened.entries + s.entries,
        }) =~~= st.sections.push(s));
    }
    lemma_parse_from_single(st2, Seq::<char>::empty());
    assert(trim(Seq::<char>::empty()).len() == 0);
    assert(process_line(st2, Seq::<char>::empty()) == st2);
}

/// Parsing the serialized lines of fresh, distinctly named sections appends
/// exactly those sections.
pub proof fn lemma_parse_sections(st: ParseState, ss: Seq<SectionV>)
    requires
        forall|i: int, j: int|
            0 <= i < ss.len() && 0 <= j < st.sections.len()
                ==> (#[trigger] st.sections[j]).name != (#[trigger] ss[i]).name,
        forall|i: int, j: int| 0 <= i < j < ss.len() ==> ss[i].name != ss[j].name,
        forall|i: int| 0 <= i < ss.len() ==> safe_section(#[trigger] ss[i]),
        forall|i: int, p: int, q: int|
            0 <= i < ss.len() && 0 <= p < q < ss[i].entries.len()
                ==> ss[i].entries[p].key != ss[i].entries[q].key,
    ensures
        parse_from(st, config_lines(ss)).sections =~~= st.sections + ss,
    decreases ss.len(),
{
    if ss.len() == 0 {
        assert(config_lines(ss) =~= Seq::<Seq<char>>::empty());
        assert(st.sections + ss =~= st.sections);
    } else {
        let s0 = ss[0];
        let rest = ss.drop_first();
        assert(config_lines(ss) == section_lines(s0) + config_lines(rest));
        lemma_parse_from_concat(st, section_lines(s0), config_lines(rest));
        lemma_parse_section(st, s0);
        let st1 = ParseState {
            sections: st.sections.push(s0),
            cur: Some(st.sections.len() as int),
        };
        assert forall|i: int, j: int|
            0 <= i < rest.len() && 0 <= j < st1.sections.len()
                implies (#[trigger] st1.sections[j]).name != (#[trigger] rest[i]).name by {
            assert(rest[i] == ss[i + 1]);
            if j < st.sections.len() {
                assert(st1.sections[j] == st.sections[j]);
            } else {
                assert(st1.sections[j] == s0);
            }
        }
        assert forall|i: int, j: int| 0 <= i < j < rest.len() implies rest[i].name
            != rest[j].name by {
            assert(rest[i] == ss[i + 1]);
            assert(rest[j] == ss[j + 1]);
        }
        assert forall|i: int| 0 <= i < rest.len() implies safe_section(#[trigger] rest[i]) by {
            assert(rest[i] == ss[i + 1]);
        }
        assert forall|i: int, p: int, q: int|
            0 <= i < rest.len() && 0 <= p < q < rest[i].entries.len()
                implies rest[i].entries[p].key != rest[i].entries[q].key by {
            assert(rest[i] == ss[i + 1]);
        }
        lemma_parse_sections(st1, rest);
        assert(st.sections.push(s0) + rest =~= st.sections + ss);
    }
}

/// No serialized line holds a newline, when the configuration is safe.
pub proof fn lemma_config_lines_newline_free(ss: Seq<SectionV>)
    requires
        forall|i: int| 0 <= i < ss.len() ==> safe_section(#[trigger] ss[i]),
    ensures
        forall|i: int, j: int|
            0 <= i < config_lines(ss).len() && 0 <= j < config_lines(ss)[i].len()
                ==> #[trigger] config_lines(ss)[i][j] != '\n',
    decreases ss.len(),
{
    if ss.len() == 0 {
    } else {
        let s0 = ss[0];
        let rest = ss.drop_first();
        let sl = section_lines(s0);
        assert forall|i: int, j: int| 0 <= i < sl.len() && 0 <= j < sl[i].len()
            implies #[trigger] sl[i][j] != '\n' by {
            if i == 0 {
                assert(sl[0] == header_line(s0.name));
                let h = header_line(s0.name);
                if j == 0 {
                    assert(h[j] == '[');
                } else if j <= s0.name.len() {
                    assert(h[j] == s0.name[j - 1]);
                } else {
                    assert(h[j] == ']');
                }
            } else if i <= s0.entries.len() {
                assert(sl[i] == s0.entries.map_values(|e: EntryV| kv_line(e))[i - 1]);
                let e = s0.entries[i - 1];
                assert(safe_entry(e));
                let l = kv_line(e);
                if j < e.key.len() {
                    assert(l[j] == e.key[j]);
                } else if j < e.key.len() + 3 {
                    assert(l[j] == kv_sep()[j - e.key.len()]);
                } else {
                    assert(l[j] == e.value[j - e.key.len() - 3]);
                }
            } else {
                assert(sl[i] == Seq::<char>::empty());
            }
        }
        assert forall|i: int| 0 <= i < rest.len() implies safe_section(#[trigger] rest[i]) by {
            assert(rest[i] == ss[i + 1]);
        }
        lemma_config_lines_newline_free(rest);
        assert(config_lines(ss) == sl + config_lines(rest));
        assert forall|i: int, j: int|
            0 <= i < config_lines(ss).len() && 0 <= j < config_lines(ss)[i].len()
                implies #[trigger] config_lines(ss)[i][j] != '\n' by {
            if i < sl.len() {
                assert(config_lines(ss)[i] == sl[i]);
            } else {
                assert(config_lines(ss)[i] == config_lines(rest)[i - sl.len()]);
            }
        }
    }
}

/// One parse step keeps the state well-formed: section names stay unique,
/// keys stay unique within each section, and the open-section index stays in
/// bounds.
pub proof fn lemma_process_line_wf(st: ParseState, line: Seq<char>)
    requires
        wf_config(st.sections),
        match st.cur {
            Some(c) => 0 <= c < st.sections.len(),
            None => true,
        },
    ensures
        wf_config(process_line(st, line).sections),
        match process_line(st, line).cur {
            Some(c) => 0 <= c < process_line(st, line).sections.len(),
            None => true,
        },
{
    let t = trim(line);
    if t.len() == 0 || t[0] == '#' {
    } else if is_header(t) {
        let name = t.subrange(1, t.len() - 1);
        lemma_find_section_props(st.sections, name);
        match find_section(st.sections, name) {
            Some(_) => {},
            None => {
                let ss2 = st.sections.push(SectionV { name, entries: Seq::empty() });
                assert forall|i: int, j: int| 0 <= i < j < ss2.len() implies ss2[i].name
                    != ss2[j].name by {
                    if j < st.sections.len() {
                        assert(ss2[i] == st.sections[i]);
                        assert(ss2[j] == st.sections[j]);
                    } else {
                        assert(ss2[i] == st.sections[i]);
                    }
                }
                assert(wf_config(ss2));
            },
        }
    } else {
        match parse_kv(t) {
            Some(kv) => match st.cur {
                Some(ci) => {
                    let es = st.sections[ci].entries;
                    lemma_find_key_props(es, kv.0);
                    let es2 = upsert(es, kv.0, kv.1);
                    assert forall|p: int, q: int| 0 <= p < q < es2.len() implies es2[p].key
                        != es2[q].key by {
                        match find_key(es, kv.0) {
                            Some(j) => {
                                if p != j {
                                    assert(es2[p] == es[p]);
                                }
                                if q != j {
                                    assert(es2[q] == es[q]);
                                }
                            },
                            None => {
                                if q < es.len() {
                                    assert(es2[p] == es[p]);
                                    assert(es2[q] == es[q]);
                                } else {
                                    assert(es2[p] == es[p]);
                                }
                            },
                        }
                    }
                    let ss2 = process_line(st, line).sections;
                    assert forall|i: int, j: int| 0 <= i < j < ss2.len() implies ss2[i].name
                        != ss2[j].name by {
                        assert(ss2[i].name == st.sections[i].name);
                        assert(ss2[j].name == st.sections[j].name);
                    }
                    assert forall|i: int, p: int, q: int|
                        0 <= i < ss2.len() && 0 <= p < q < ss2[i].entries.len()
                            implies ss2[i].entries[p].key != ss2[i].entries[q].key by {
                        if i != ci {
                            assert(ss2[i] == st.sections[i]);
                        } else {
                            assert(ss2[i].entries == es2);
                        }
                    }
                    assert(wf_config(ss2));
                },
                None => {},
            },
            None => {},
        }
    }
}

/// Every parse state reached from the start is well-formed.
pub proof fn lemma_parse_upto_wf(ls: Seq<Seq<char>>, n: int)
    requires
        0 <= n,
    ensures
        wf_config(parse_upto(ls, n).sections),
        match parse_upto(ls, n).cur {
            Some(c) => 0 <= c < parse_upto(ls, n).sections.len(),
            None => true,
        },
    decreases n,
{
    if n > 0 {
        lemma_parse_upto_wf(ls, n - 1);
        lemma_process_line_wf(parse_upto(ls, n - 1), ls[n - 1]);
    }
}

/// Whatever text is parsed, the resulting configuration is well-formed.
pub proof fn lemma_parse_config_wf(t: Seq<char>)
    ensures
        wf_config(parse_config(t)),
{
    lemma_parse_upto_wf(split_lines(t), split_lines(t).len() as int);
}

/// The round-trip law: a well-formed configuration whose names, keys and
/// values are round-trip-safe parses back, from its own serialized text, to
/// exactly itself.
pub proof fn lemma_ini_round_trip(ss: Seq<SectionV>)
    requires
        wf_config(ss),
        roundtrip_safe(ss),
    ensures
        parse_config(serialized(ss)) =~~= ss,
{
    lemma_config_lines_newline_free(ss);
    lemma_split_join(config_lines(ss));
    let ls = split_lines(serialized(ss));
    assert(ls =~= config_lines(ss));
    lemma_parse_upto_is_parse_from(ls, ls.len() as int);
    assert(ls.take(ls.len() as int) =~= ls);
    lemma_parse_sections(init_state(), ss);
    assert(init_state().sections + ss =~= ss);
}

} // verus!
