//! The INI-style configuration model and codec.
//!
//! A `GitConfig` is a sequence of named sections, each holding key/value
//! entries.  `to_config_string` renders it as flat text (one `[name]` header
//! line per section, then `key = value` lines, then a blank line);
//! `from_config_string` parses such text back, skipping blank and comment
//! lines and dropping key/value lines that appear before any section header.

use vstd::prelude::*;
use vstd::string::*;
use crate::ini::{
    serialized, parse_config, parse_kv, upsert, header_line, kv_line, lemma_serialized_push,
    lemma_section_join, lemma_join_push,
};
use crate::text::{trim_str, split_lines_str, find_eq};

verus! {

/// One key/value entry of a section.
pub struct Entry {
    pub key: String,
    pub value: String,
}

/// Spec-level image of an `Entry`.
#[verifier::ext_equal]
pub struct EntryV {
    pub key: Seq<char>,
    pub value: Seq<char>,
}

impl View for Entry {
    type V = EntryV;

    open spec fn view(&self) -> EntryV {
        EntryV { key: self.key@, value: self.value@ }
    }
}

/// One named section of key/value entries.
pub struct Section {
    pub name: String,
    pub entries: Vec<Entry>,
}

/// Spec-level image of a `Section`.
#[verifier::ext_equal]
pub struct SectionV {
    pub name: Seq<char>,
    pub entries: Seq<EntryV>,
}

impl View for Section {
    type V = SectionV;

    open spec fn view(&self) -> SectionV {
        SectionV { name: self.name@, entries: self.entries@.map_values(|e: Entry| e@) }
    }
}

/// A whole configuration: a sequence of sections.
pub struct GitConfig {
    pub sections: Vec<Section>,
}

impl View for GitConfig {
    type V = Seq<SectionV>;

    open spec fn view(&self) -> Seq<SectionV> {
        self.sections@.map_values(|s: Section| s@)
    }
}

/// First index holding key `k`, if any.
pub open spec fn find_key(es: Seq<EntryV>, k: Seq<char>) -> Option<int>
    decreases es.len(),
{
    if es.len() == 0 {
        None
    } else if es[0].key == k {
        Some(0int)
    } else {
        match find_key(es.drop_first(), k) {
            Some(i) => Some(i + 1),
            None => None,
        }
    }
}

/// First index holding section name `n`, if any.
pub open spec fn find_section(ss: Seq<SectionV>, n: Seq<char>) -> Option<int>
    decreases ss.len(),
{
    if ss.len() == 0 {
        None
    } else if ss[0].name == n {
        Some(0int)
    } else {
        match find_section(ss.drop_first(), n) {
            Some(i) => Some(i + 1),
            None => None,
        }
    }
}

/// Section names are unique and, within each section, keys are unique.
pub open spec fn wf_config(ss: Seq<SectionV>) -> bool {
    &&& forall|i: int, j: int|
        0 <= i < j < ss.len() ==> ss[i].name != ss[j].name
    &&& forall|i: int, p: int, q: int|
        0 <= i < ss.len() && 0 <= p < q < ss[i].entries.len()
            ==> ss[i].entries[p].key != ss[i].entries[q].key
}

/// `find_key` names the first index whose key matches, or none.
pub proof fn lemma_find_key_at(es: Seq<EntryV>, k: Seq<char>, i: int)
    requires
        0 <= i <= es.len(),
        forall|j: int| 0 <= j < i ==> es[j].key != k,
        i < es.len() ==> es[i].key == k,
    ensures
        find_key(es, k) == if i == es.len() {
            Option::<int>::None
        } else {
            Option::<int>::Some(i)
        },
    decreases i,
{
    if es.len() == 0 {
    } else if i == 0 {
    } else {
        assert(es[0].key != k);
        let d = es.drop_first();
        assert forall|j: int| 0 <= j < i - 1 implies d[j].key != k by {
            assert(d[j] == es[j + 1]);
        }
        if i - 1 < d.len() {
            assert(d[i - 1] == es[i]);
        }
        lemma_find_key_at(d, k, i - 1);
    }
}

/// `find_section` names the first index whose name matches, or none.
pub proof fn lemma_find_section_at(ss: Seq<SectionV>, n: Seq<char>, i: int)
    requires
        0 <= i <= ss.len(),
        forall|j: int| 0 <= j < i ==> ss[j].name != n,
        i < ss.len() ==> ss[i].name == n,
    ensures
        find_section(ss, n) == if i == ss.len() {
            Option::<int>::None
        } else {
            Option::<int>::Some(i)
        },
    decreases i,
{
    if ss.len() == 0 {
    } else if i == 0 {
    } else {
        assert(ss[0].name != n);
        let d = ss.drop_first();
        assert forall|j: int| 0 <= j < i - 1 implies d[j].name != n by {
            assert(d[j] == ss[j + 1]);
        }
        if i - 1 < d.len() {
            assert(d[i - 1] == ss[i]);
        }
        lemma_find_section_at(d, n, i - 1);
    }
}

/// What a `find_key` result means: a hit names a matching index, a miss
/// means no key matches.
pub proof fn lemma_find_key_props(es: Seq<EntryV>, k: Seq<char>)
    ensures
        match find_key(es, k) {
            Some(i) => 0 <= i < es.len() && es[i].key == k,
            None => forall|j: int| 0 <= j < es.len() ==> (#[trigger] es[j]).key != k,
        },
    decreases es.len(),
{
    if es.len() == 0 {
    } else if es[0].key == k {
    } else {
        lemma_find_key_props(es.drop_first(), k);
        let d = es.drop_first();
        match find_key(d, k) {
            Some(i) => {
                assert(es[i + 1] == d[i]);
            },
            None => {
                assert forall|j: int| 0 <= j < es.len() implies (#[trigger] es[j]).key != k by {
                    if j > 0 {
                        assert(es[j] == d[j - 1]);
                    }
                }
            },
        }
    }
}

/// What a `find_section` result means: a hit names a matching index, a miss
/// means no name matches.
pub proof fn lemma_find_section_props(ss: Seq<SectionV>, n: Seq<char>)
    ensures
        match find_section(ss, n) {
            Some(i) => 0 <= i < ss.len() && ss[i].name == n,
            None => forall|j: int| 0 <= j < ss.len() ==> (#[trigger] ss[j]).name != n,
        },
    decreases ss.len(),
{
    if ss.len() == 0 {
    } else if ss[0].name == n {
    } else {
        lemma_find_section_props(ss.drop_first(), n);
        let d = ss.drop_first();
        match find_section(d, n) {
            Some(i) => {
                assert(ss[i + 1] == d[i]);
            },
            None => {
                assert forall|j: int| 0 <= j < ss.len() implies (#[trigger] ss[j]).name != n by {
                    if j > 0 {
                        assert(ss[j] == d[j - 1]);
                    }
                }
            },
        }
    }
}

/// Insert `(k, v)` under section `n`: overwrite the key's entry in the first
/// section of that name, or append a new section holding only that entry.
pub open spec fn insert_entry(
    ss: Seq<SectionV>,
    n: Seq<char>,
    k: Seq<char>,
    v: Seq<char>,
) -> Seq<SectionV> {
    match find_section(ss, n) {
        Some(i) => ss.update(
            i,
            SectionV { name: ss[i].name, entries: upsert(ss[i].entries, k, v) },
        ),
        None => ss.push(
            SectionV { name: n, entries: seq![EntryV { key: k, value: v }] },
        ),
    }
}

/// `insert_entry` keeps a well-formed configuration well-formed.
pub proof fn lemma_insert_entry_wf(ss: Seq<SectionV>, n: Seq<char>, k: Seq<char>, v: Seq<char>)
    requires
        wf_config(ss),
    ensures
        wf_config(insert_entry(ss, n, k, v)),
{
    lemma_find_section_props(ss, n);
    let ss2 = insert_entry(ss, n, k, v);
    match find_section(ss, n) {
        Some(i) => {
            let es = ss[i].entries;
            lemma_find_key_props(es, k);
            let es2 = upsert(es, k, v);
            assert forall|p: int, q: int| 0 <= p < q < es2.len() implies es2[p].key
                != es2[q].key by {
                match find_key(es, k) {
                    Some(j) => {
                        if p != j {
                            assert(es2[p] == es[p]);
                        }
                        if q != j {
                            assert(es2[q] == es[q]);
                        }
                    },
                    None => {
                        if q < es.len() {
                            assert(es2[p] == es[p]);
                            assert(es2[q] == es[q]);
                        } else {
                            assert(es2[p] == es[p]);
                        }
                    },
                }
            }
            assert forall|a: int, b: int| 0 <= a < b < ss2.len() implies ss2[a].name
                != ss2[b].name by {
                assert(ss2[a].name == ss[a].name);
                assert(ss2[b].name == ss[b].name);
            }
            assert forall|a: int, p: int, q: int|
                0 <= a < ss2.len() && 0 <= p < q < ss2[a].entries.len()
                    implies ss2[a].entries[p].key != ss2[a].entries[q].key by {
                if a != i {
                    assert(ss2[a] == ss[a]);
                } else {
                    assert(ss2[a].entries == es2);
                }
            }
        },
        None => {
            assert forall|a: int, b: int| 0 <= a < b < ss2.len() implies ss2[a].name
                != ss2[b].name by {
                if b < ss.len() {
                    assert(ss2[a] == ss[a]);
                    assert(ss2[b] == ss[b]);
                } else {
                    assert(ss2[a] == ss[a]);
                }
            }
            assert forall|a: int, p: int, q: int|
                0 <= a < ss2.len() && 0 <= p < q < ss2[a].entries.len()
                    implies ss2[a].entries[p].key != ss2[a].entries[q].key by {
                if a < ss.len() {
                    assert(ss2[a] == ss[a]);
                }
            }
        },
    }
}

/// View of a sequence of sections.
pub open spec fn secs_view(v: Seq<Section>) -> Seq<SectionV> {
    v.map_values(|s: Section| s@)
}

/// Index of the first section named `name`, or `None`.
fn find_section_index(sections: &Vec<Section>, name: &String) -> (r: Option<usize>)
    ensures
        match r {
            Some(i) => 0 <= i < sections@.len() && find_section(secs_view(sections@), name@)
                == Some(i as int),
            None => find_section(secs_view(sections@), name@) is None,
        },
{
    let mut k: usize = 0;
    while k < sections.len()
        invariant
            0 <= k <= sections@.len(),
            forall|j: int| 0 <= j < k ==> (#[trigger] sections@[j])@.name != name@,
        decreases sections@.len() - k,
    {
        if sections[k].name == *name {
            proof {
                lemma_find_section_at(secs_view(sections@), name@, k as int);
            }
            return Some(k);
        }
        k = k + 1;
    }
    proof {
        lemma_find_section_at(secs_view(sections@), name@, sections@.len() as int);
    }
    None
}

/// Index of the first entry keyed `key`, or `None`.
fn find_entry_index(entries: &Vec<Entry>, key: &String) -> (r: Option<usize>)
    ensures
        match r {
            Some(i) => 0 <= i < entries@.len() && find_key(
                entries@.map_values(|e: Entry| e@),
                key@,
            ) == Some(i as int),
            None => find_key(entries@.map_values(|e: Entry| e@), key@) is None,
        },
{
    let mut k: usize = 0;
    while k < entries.len()
        invariant
            0 <= k <= entries@.len(),
            forall|j: int| 0 <= j < k ==> (#[trigger] entries@[j])@.key != key@,
        decreases entries@.len() - k,
    {
        if entries[k].key == *key {
            proof {
                lemma_find_key_at(entries@.map_values(|e: Entry| e@), key@, k as int);
            }
            return Some(k);
        }
        k = k + 1;
    }
    proof {
        lemma_find_key_at(entries@.map_values(|e: Entry| e@), key@, entries@.len() as int);
    }
    None
}

impl GitConfig {
    /// A configuration with no sections.
    pub fn new() -> (r: GitConfig)
        ensures
            r@ =~= Seq::<SectionV>::empty(),
            wf_config(r@),
    {
        GitConfig { sections: Vec::new() }
    }

    /// Set `entry_name` to `entry_value` under `section_name`, creating the
    /// section when absent and overwriting an existing key.
    pub fn new_entry(&mut self, section_name: &str, entry_name: &str, entry_value: &str)
        ensures
            final(self)@ =~~= insert_entry(old(self)@, section_name@, entry_name@, entry_value@),
            wf_config(old(self)@) ==> wf_config(final(self)@),
    {
        proof {
            if wf_config(self@) {
                lemma_insert_entry_wf(self@, section_name@, entry_name@, entry_value@);
            }
        }
        let name_s = section_name.to_owned();
        let entry = Entry { key: entry_name.to_owned(), value: entry_value.to_owned() };
        match find_section_index(&self.sections, &name_s) {
            Some(i) => {
                let ghost old_secs = self@;
                match find_entry_index(&self.sections[i].entries, &entry.key) {
                    Some(j) => {
                        self.sections[i].entries[j] = entry;
                        proof {
                            assert(self@ =~~= insert_entry(
                                old_secs,
                                section_name@,
                                entry_name@,
                                entry_value@,
                            ));
                        }
                    },
                    None => {
                        self.sections[i].entries.push(entry);
                        proof {
                            assert(self@ =~~= insert_entry(
                                old_secs,
                                section_name@,
                                entry_name@,
                                entry_value@,
                            ));
                        }
                    },
                }
            },
            None => {
                let mut entries: Vec<Entry> = Vec::new();
                entries.push(entry);
                self.sections.push(Section { name: name_s, entries });
                proof {
                    assert(self@ =~~= insert_entry(
                        old(self)@,
                        section_name@,
                        entry_name@,
                        entry_value@,
                    ));
                }
            },
        }
    }

    /// Render the configuration as text: per section a `[name]` header line,
    /// a `key = value` line per entry, and a closing blank line.
    pub fn to_config_string(&self) -> (r: String)
        ensures
            r@ =~= serialized(self@),
    {
        let mut out = String::new();
        proof {
            assert(self@.take(0) =~= Seq::<SectionV>::empty());
        }
        let mut i: usize = 0;
        while i < self.sections.len()
            invariant
                0 <= i <= self.sections@.len(),
                self@.len() == self.sections@.len(),
                out@ =~= serialized(self@.take(i as int)),
            decreases self.sections@.len() - i,
        {
            let ghost pre = out@;
            let sec = &self.sections[i];
            out.append("[");
            out.append(sec.name.as_str());
            out.append("]\n");
            proof {
                reveal_strlit("[");
                reveal_strlit("]\n");
                assert("["@ =~= seq!['[']);
                assert("]\n"@ =~= seq![']', '\n']);
                assert(out@ =~= pre + header_line(sec@.name) + seq!['\n']);
            }
            let ghost head = out@;
            let mut j: usize = 0;
            while j < sec.entries.len()
                invariant
                    0 <= j <= sec.entries@.len(),
                    sec@.entries.len() == sec.entries@.len(),
                    out@ =~= head + crate::ini::join_lines(
                        sec@.entries.take(j as int).map_values(|e: EntryV| kv_line(e)),
                    ),
                decreases sec.entries@.len() - j,
            {
                let ghost mid = out@;
                let e = &sec.entries[j];
                out.append(e.key.as_str());
                out.append(" = ");
                out.append(e.value.as_str());
                out.append("\n");
                proof {
                    reveal_strlit(" = ");
                    reveal_strlit("\n");
                    assert(" = "@ =~= seq![' ', '=', ' ']);
                    assert("\n"@ =~= seq!['\n']);
                    let f = |e: EntryV| kv_line(e);
                    let prefix = sec@.entries.take(j as int).map_values(f);
                    lemma_join_push(prefix, kv_line(sec@.entries[j as int]));
                    assert(sec@.entries.take(j as int + 1).map_values(f) =~= prefix.push(
                        kv_line(sec@.entries[j as int]),
                    ));
                    assert(out@ =~= mid + kv_line(sec@.entries[j as int]) + seq!['\n']);
                }
                j = j + 1;
            }
            out.append("\n");
            proof {
                reveal_strlit("\n");
                assert("\n"@ =~= seq!['\n']);
                assert(sec@.entries.take(sec.entries@.len() as int) =~= sec@.entries);
                lemma_section_join(sec@);
                lemma_serialized_push(self@.take(i as int), sec@);
                assert(self@.take(i as int).push(sec@) =~= self@.take(i as int + 1));
                assert(out@ =~= serialized(self@.take(i as int + 1)));
            }
            i = i + 1;
        }
        proof {
            assert(self@.take(self.sections@.len() as int) =~= self@);
        }
        out
    }

    /// Split a line at its first `=`; both sides trimmed.  `None` when the
    /// line holds no `=`.
    pub fn parse_key_value(line: &str) -> (r: Option<(String, String)>)
        ensures
            r is Some <==> parse_kv(line@) is Some,
            r is Some ==> r.unwrap().0@ == parse_kv(line@).unwrap().0 && r.unwrap().1@
                == parse_kv(line@).unwrap().1,
    {
        let n = line.unicode_len();
        let e = find_eq(line);
        if e == n {
            None
        } else {
            let left = trim_str(line.substring_char(0, e));
            let right = trim_str(line.substring_char(e + 1, n));
            Some((left.to_owned(), right.to_owned()))
        }
    }

    /// Parse text into a configuration: blank and `#` comment lines are
    /// skipped, `[name]` lines open (or reopen) a section, `key = value`
    /// lines fill the open section, and key/value lines before any section
    /// header are dropped.
    pub fn from_config_string(config_string: &str) -> (r: GitConfig)
        ensures
            r@ =~~= parse_config(config_string@),
            wf_config(r@),
    {
        proof {
            crate::ini::lemma_parse_config_wf(config_string@);
        }
        let lines = split_lines_str(config_string);
        let ghost ls = crate::ini::split_lines(config_string@);
        let mut sections: Vec<Section> = Vec::new();
        let mut cur: Option<usize> = None;
        let mut li: usize = 0;
        while li < lines.len()
            invariant
                0 <= li <= lines@.len(),
                lines.deep_view() =~= ls,
                lines@.len() == ls.len(),
                crate::ini::parse_upto(ls, li as int).sections =~~= secs_view(sections@),
                match cur {
                    Some(c) => c < sections@.len() && crate::ini::parse_upto(ls, li as int).cur
                        == Some(c as int),
                    None => crate::ini::parse_upto(ls, li as int).cur is None,
                },
            decreases lines@.len() - li,
        {
            let ghost st = crate::ini::parse_upto(ls, li as int);
            let ghost stn = crate::ini::parse_upto(ls, li as int + 1);
            let line: &str = lines[li];
            proof {
                assert(lines.deep_view()[li as int] == lines@[li as int]@);
                assert(line@ == ls[li as int]);
                assert(stn == crate::ini::process_line(st, ls[li as int]));
            }
            let t = trim_str(line);
            let tn = t.unicode_len();
            if tn == 0 {
                proof {
                    assert(stn == st);
                }
            } else if t.get_char(0) == '#' {
                proof {
                    assert(stn == st);
                }
            } else if t.get_char(0) == '[' && t.get_char(tn - 1) == ']' {
                let name = t.substring_char(1, tn - 1);
                let name_s = name.to_owned();
                proof {
                    assert(crate::ini::is_header(t@));
                    assert(name_s@ == t@.subrange(1, t@.len() - 1));
                }
                match find_section_index(&sections, &name_s) {
                    Some(k) => {
                        cur = Some(k);
                        proof {
                            assert(stn.sections =~~= secs_view(sections@));
                            assert(stn.cur == Some(k as int));
                        }
                    },
                    None => {
                        let ghost old_view = secs_view(sections@);
                        sections.push(Section { name: name_s, entries: Vec::new() });
                        cur = Some(sections.len() - 1);
                        proof {
                            assert(secs_view(sections@) =~~= old_view.push(
                                SectionV {
                                    name: t@.subrange(1, t@.len() - 1),
                                    entries: Seq::empty(),
                                },
                            ));
                            assert(stn.sections =~~= secs_view(sections@));
                        }
                    },
                }
            } else {
                proof {
                    assert(!crate::ini::is_header(t@));
                }
                match Self::parse_key_value(t) {
                    Some(kv) => {
                        match cur {
                            Some(ci) => {
                                let ghost old_view = secs_view(sections@);
                                let ghost k = parse_kv(t@).unwrap().0;
                                let ghost v = parse_kv(t@).unwrap().1;
                                match find_entry_index(&sections[ci].entries, &kv.0) {
                                    Some(j) => {
                                        sections[ci].entries[j] = Entry {
                                            key: kv.0,
                                            value: kv.1,
                                        };
                                        proof {
                                            assert(upsert(old_view[ci as int].entries, k, v)
                                                =~~= old_view[ci as int].entries.update(
                                                j as int,
                                                EntryV { key: k, value: v },
                                            ));
                                            assert(stn.sections =~~= secs_view(sections@));
                                        }
                                    },
                                    None => {
                                        sections[ci].entries.push(Entry {
                                            key: kv.0,
                                            value: kv.1,
                                        });
                                        proof {
                                            assert(upsert(old_view[ci as int].entries, k, v)
                                                =~~= old_view[ci as int].entries.push(
                                                EntryV { key: k, value: v },
                                            ));
                                            assert(stn.sections =~~= secs_view(sections@));
                                        }
                                    },
                                }
                                proof {
                                    assert(stn.cur == st.cur);
                                }
                            },
                            None => {
                                proof {
                                    assert(stn == st);
                                }
                            },
                        }
                    },
                    None => {
                        proof {
                            assert(stn == st);
                        }
                    },
                }
            }
            li = li + 1;
        }
        proof {
            assert(crate::ini::parse_upto(ls, ls.len() as int).sections =~~= secs_view(
                sections@,
            ));
        }
        GitConfig { sections }
    }
}

} // verus!
