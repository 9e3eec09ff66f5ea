//! The persisted key-to-timestamp index: a line-oriented file, one record
//! per line, `key`, a three-character separator, and a fixed-format
//! timestamp.  Blank or unparsable lines are dropped on load; the file is
//! rewritten wholesale on every persist.

use vstd::prelude::*;
use crate::timestamp::{Timestamp, ts_parse, ts_text, lemma_ts_text_shape};
use crate::text::{
    trim, trim_str, str_eq, find_sep, find_sep_from, lemma_find_sep_from, find_char,
    find_char_from, lemma_find_char_from, is_trimmed, sep_at,
};

verus! {

/// The record separator, as character text.
pub open spec fn sep_seq() -> Seq<char> {
    seq!['%', '%', '%']
}

/// One record as it stands in the file, without its leading line break.
pub open spec fn record_text(k: Seq<char>, t: Timestamp) -> Seq<char> {
    k + sep_seq() + ts_text(t)
}

/// One line of the file as the persist step writes it.
pub open spec fn line_of(k: Seq<char>, t: Timestamp) -> Seq<char> {
    seq!['\n'] + record_text(k, t)
}

/// The full text that persisting a sequence of records writes.
pub open spec fn render(es: Seq<(Seq<char>, Timestamp)>) -> Seq<char>
    decreases es.len(),
{
    if es.len() == 0 {
        Seq::empty()
    } else {
        render(es.drop_last()) + line_of(es.last().0, es.last().1)
    }
}

/// What one line of the file denotes: the trimmed text before the first
/// separator as the key and the trimmed text after it as the timestamp, if
/// the latter parses; anything else is dropped.
pub open spec fn parse_line(line: Seq<char>) -> Option<(Seq<char>, Timestamp)> {
    match find_sep_from(line, 0) {
        None => None,
        Some(i) => {
            let k = trim(line.subrange(0, i));
            let t = trim(line.subrange(i + 3, line.len() as int));
            match ts_parse(t) {
                Some(ts) => if ts.wf() {
                    Some((k, ts))
                } else {
                    None
                },
                None => None,
            }
        },
    }
}

/// The lines of a file's text, split on the line-break character.
pub open spec fn split_lines(s: Seq<char>) -> Seq<Seq<char>>
    decreases s.len(),
{
    match find_char_from(s, '\n', 0) {
        None => seq![s],
        Some(i) => {
            if 0 <= i < s.len() {
                seq![s.subrange(0, i)] + split_lines(s.subrange(i + 1, s.len() as int))
            } else {
                seq![s]
            }
        },
    }
}

/// The position of the first record with key `k`.
pub open spec fn find_key(es: Seq<(Seq<char>, Timestamp)>, k: Seq<char>) -> Option<int>
    decreases es.len(),
{
    if es.len() == 0 {
        None
    } else if es[0].0 == k {
        Some(0)
    } else {
        match find_key(es.drop_first(), k) {
            Some(i) => Some(i + 1),
            None => None,
        }
    }
}

pub proof fn lemma_find_key(es: Seq<(Seq<char>, Timestamp)>, k: Seq<char>)
    ensures
        match find_key(es, k) {
            Some(i) => 0 <= i < es.len() && es[i].0 == k && (forall|j: int|
                0 <= j < i ==> es[j].0 != k),
            None => forall|j: int| 0 <= j < es.len() ==> es[j].0 != k,
        },
    decreases es.len(),
{
    if es.len() > 0 {
        let rest = es.drop_first();
        lemma_find_key(rest, k);
        match find_key(es, k) {
            Some(i) => {
                if es[0].0 != k {
                    assert(rest[i - 1] == es[i]);
                    assert forall|j: int| 0 <= j < i implies es[j].0 != k by {
                        if j > 0 {
                            assert(rest[j - 1] == es[j]);
                        }
                    }
                }
            },
            None => {
                assert forall|j: int| 0 <= j < es.len() implies es[j].0 != k by {
                    if j > 0 {
                        assert(rest[j - 1] == es[j]);
                    }
                }
            },
        }
    }
}

/// Keeping or replacing: the record for `k` is overwritten in place if one
/// exists, else appended — a later line for the same key wins.
pub open spec fn upsert(es: Seq<(Seq<char>, Timestamp)>, k: Seq<char>, t: Timestamp) -> Seq<
    (Seq<char>, Timestamp),
> {
    match find_key(es, k) {
        Some(i) => es.update(i, (k, t)),
        None => es.push((k, t)),
    }
}

/// Keeping or replacing a well-formed record preserves key uniqueness and
/// record well-formedness.
pub proof fn lemma_upsert_preserves(es: Seq<(Seq<char>, Timestamp)>, k: Seq<char>, t: Timestamp)
    requires
        forall|a: int, b: int| 0 <= a < b < es.len() ==> es[a].0 != es[b].0,
        forall|a: int| 0 <= a < es.len() ==> (#[trigger] es[a].1).wf(),
        t.wf(),
    ensures
        ({
            let e2 = upsert(es, k, t);
            (forall|a: int, b: int| 0 <= a < b < e2.len() ==> e2[a].0 != e2[b].0) && (forall|a: int|
                0 <= a < e2.len() ==> (#[trigger] e2[a].1).wf())
        }),
{
    lemma_find_key(es, k);
    let e2 = upsert(es, k, t);
    match find_key(es, k) {
        Some(i) => {
            assert(forall|a: int| 0 <= a < es.len() && a != i ==> e2[a] == es[a]);
            assert(e2[i] == (k, t));
            assert(es[i].0 == k);
        },
        None => {
            assert(forall|a: int| 0 <= a < es.len() ==> e2[a] == es[a]);
            assert(e2[es.len() as int] == (k, t));
        },
    }
}

/// The records denoted by a sequence of lines, first to last.
pub open spec fn parse_lines(lines: Seq<Seq<char>>) -> Seq<(Seq<char>, Timestamp)>
    decreases lines.len(),
{
    if lines.len() == 0 {
        Seq::empty()
    } else {
        let prev = parse_lines(lines.drop_last());
        match parse_line(lines.last()) {
            Some(e) => upsert(prev, e.0, e.1),
            None => prev,
        }
    }
}

/// The records denoted by a whole file.
pub open spec fn parse_text(s: Seq<char>) -> Seq<(Seq<char>, Timestamp)> {
    parse_lines(split_lines(s))
}

/// Splits a file's text into its lines.
fn split_lines_exec(s: &str) -> (r: Vec<String>)
    ensures
        r@.map_values(|l: String| l@) == split_lines(s@),
{
    let mut out: Vec<String> = Vec::new();
    let mut rest: &str = s;
    loop
        invariant
            split_lines(s@) == out@.map_values(|l: String| l@) + split_lines(rest@),
        decreases rest@.len(),
    {
        proof {
            lemma_find_char_from(rest@, '\n', 0);
        }
        match find_char(rest, '\n') {
            Some(q) => {
                let line = rest.substring_char(0, q);
                let len = rest.unicode_len();
                let tail = rest.substring_char(q + 1, len);
                out.push(line.to_owned());
                proof {
                    assert(split_lines(s@) =~= out@.map_values(|l: String| l@) + split_lines(
                        tail@,
                    ));
                }
                rest = tail;
            },
            None => {
                out.push(rest.to_owned());
                proof {
                    assert(split_lines(s@) =~= out@.map_values(|l: String| l@));
                }
                return out;
            },
        }
    }
}

/// The in-memory index: the records of the backing file, later lines
/// winning, keys unique.
pub struct CacheIndex {
    entries: Vec<(String, Timestamp)>,
}

impl CacheIndex {
    /// The records as mathematical values, in order.
    pub closed spec fn entries_seq(self) -> Seq<(Seq<char>, Timestamp)> {
        self.entries@.map_values(|e: (String, Timestamp)| (e.0@, e.1))
    }

    /// Keys are unique and every timestamp is well formed.
    pub open spec fn wf(self) -> bool {
        (forall|i: int, j: int|
            0 <= i < j < self.entries_seq().len() ==> self.entries_seq()[i].0
                != self.entries_seq()[j].0) && (forall|i: int|
            0 <= i < self.entries_seq().len() ==> (#[trigger] self.entries_seq()[i].1).wf())
    }

    /// Loads the index from the backing file's text: lines are parsed in
    /// order, malformed lines are dropped, and a later record for a key
    /// replaces the earlier one.  A missing file reads as empty text.
    pub fn new(contents: &str) -> (r: CacheIndex)
        ensures
            r.wf(),
            r.entries_seq() == parse_text(contents@),
    {
        let lines = split_lines_exec(contents);
        let ghost lines_v = lines@.map_values(|l: String| l@);
        let n = lines.len();
        let mut entries: Vec<(String, Timestamp)> = Vec::new();
        let mut i: usize = 0;
        proof {
            assert(lines_v.take(0) =~= Seq::<Seq<char>>::empty());
            assert(entries@.map_values(|e: (String, Timestamp)| (e.0@, e.1)) =~= Seq::<
                (Seq<char>, Timestamp),
            >::empty());
        }
        while i < n
            invariant
                i <= n,
                n == lines_v.len(),
                lines_v == lines@.map_values(|l: String| l@),
                entries@.map_values(|e: (String, Timestamp)| (e.0@, e.1)) == parse_lines(
                    lines_v.take(i as int),
                ),
                ({
                    let es = entries@.map_values(|e: (String, Timestamp)| (e.0@, e.1));
                    (forall|a: int, b: int| 0 <= a < b < es.len() ==> es[a].0 != es[b].0) && (
                    forall|a: int| 0 <= a < es.len() ==> (#[trigger] es[a].1).wf())
                }),
            decreases n - i,
        {
            let line = &lines[i];
            proof {
                assert(lines_v[i as int] == line@);
                assert(lines_v.take(i + 1).drop_last() =~= lines_v.take(i as int));
                assert(lines_v.take(i + 1).last() == lines_v[i as int]);
                lemma_find_sep_from(line@, 0);
            }
            match find_sep(line.as_str()) {
                Some(sp) => {
                    let len = line.as_str().unicode_len();
                    let key = trim_str(line.as_str().substring_char(0, sp));
                    let tpart = trim_str(line.as_str().substring_char(sp + 3, len));
                    match Timestamp::parse(tpart) {
                        Some(ts) => {
                            proof {
                                assert(parse_line(lines_v[i as int]) == Some((key@, ts)));
                                lemma_upsert_preserves(
                                    entries@.map_values(|e: (String, Timestamp)| (e.0@, e.1)),
                                    key@,
                                    ts,
                                );
                            }
                            upsert_exec(&mut entries, key.to_owned(), ts);
                            proof {
                                assert(entries@.map_values(|e: (String, Timestamp)| (e.0@, e.1))
                                    == parse_lines(lines_v.take(i + 1)));
                            }
                        },
                        None => {
                            proof {
                                assert(parse_line(lines_v[i as int]) is None);
                            }
                        },
                    }
                },
                None => {
                    proof {
                        assert(parse_line(lines_v[i as int]) is None);
                    }
                },
            }
            i = i + 1;
        }
        proof {
            assert(lines_v.take(n as int) =~= lines_v);
        }
        let r = CacheIndex { entries };
        r
    }

    /// The full text with which the backing file is rewritten: one line per
    /// record.  The text parses back to exactly these records (the
    /// per-record fact the last clause states).
    pub fn update_file(&self) -> (r: String)
        requires
            self.wf(),
        ensures
            r@ == render(self.entries_seq()),
            forall|i: int|
                0 <= i < self.entries_seq().len() ==> ts_parse(
                    ts_text(#[trigger] self.entries_seq()[i].1),
                ) == Some(self.entries_seq()[i].1),
    {
        let ghost es = self.entries_seq();
        let n = self.entries.len();
        let mut out = String::new();
        let mut i: usize = 0;
        proof {
            assert(es.take(0) =~= Seq::<(Seq<char>, Timestamp)>::empty());
            assert(out@ =~= render(es.take(0)));
        }
        while i < n
            invariant
                i <= n,
                n == es.len(),
                es == self.entries@.map_values(|e: (String, Timestamp)| (e.0@, e.1)),
                self.wf(),
                out@ == render(es.take(i as int)),
                forall|k: int|
                    0 <= k < i ==> ts_parse(ts_text(#[trigger] es[k].1)) == Some(es[k].1),
            decreases n - i,
        {
            proof {
                assert(es[i as int] == (self.entries@[i as int].0@, self.entries@[i as int].1));
                assert(es.take(i + 1).drop_last() =~= es.take(i as int));
                assert(es.take(i + 1).last() == es[i as int]);
                reveal_strlit("\n");
                reveal_strlit("%%%");
                assert("\n"@ =~= seq!['\n']);
                assert("%%%"@ =~= sep_seq());
                assert(es == self.entries_seq());
                assert(self.entries_seq()[i as int].1.wf());
                assert(es[i as int].1.wf());
            }
            let ts_str = self.entries[i].1.render();
            out.append("\n");
            out.append(self.entries[i].0.as_str());
            out.append("%%%");
            out.append(ts_str.as_str());
            proof {
                assert(out@ =~= render(es.take(i + 1)));
            }
            i = i + 1;
        }
        proof {
            assert(es.take(n as int) =~= es);
        }
        out
    }

    /// Empties the index; the caller deletes the backing file and reports
    /// its absence as the storage layer's error.
    pub fn clear_cache(&mut self)
        ensures
            final(self).wf(),
            final(self).entries_seq() == Seq::<(Seq<char>, Timestamp)>::empty(),
    {
        self.entries.clear();
        proof {
            assert(self.entries_seq() =~= Seq::<(Seq<char>, Timestamp)>::empty());
        }
    }

    /// A read-only view of the records.
    pub fn get_entries(&self) -> (r: &Vec<(String, Timestamp)>)
        ensures
            r@.map_values(|e: (String, Timestamp)| (e.0@, e.1)) == self.entries_seq(),
    {
        &self.entries
    }

    /// The timestamp recorded for a key, if any.
    pub fn lookup(&self, key: &str) -> (r: Option<Timestamp>)
        ensures
            match r {
                Some(t) => exists|i: int|
                    0 <= i < self.entries_seq().len() && #[trigger] self.entries_seq()[i] == (
                        key@,
                        t,
                    ),
                None => forall|i: int|
                    0 <= i < self.entries_seq().len() ==> (#[trigger] self.entries_seq()[i]).0
                        != key@,
            },
    {
        let ghost es = self.entries_seq();
        let n = self.entries.len();
        let mut i: usize = 0;
        while i < n
            invariant
                i <= n,
                n == es.len(),
                es == self.entries@.map_values(|e: (String, Timestamp)| (e.0@, e.1)),
                forall|k: int| 0 <= k < i ==> (#[trigger] es[k]).0 != key@,
            decreases n - i,
        {
            proof {
                assert(es[i as int] == (self.entries@[i as int].0@, self.entries@[i as int].1));
            }
            if str_eq(self.entries[i].0.as_str(), key) {
                proof {
                    assert(self.entries_seq()[i as int] == (key@, self.entries@[i as int].1));
                }
                return Some(self.entries[i].1);
            }
            i = i + 1;
        }
        None
    }
}

/// A key the index file carries faithfully: trimmed, free of line breaks,
/// and not forming the record separator against the separator that follows
/// it.
pub open spec fn key_clean(k: Seq<char>) -> bool {
    is_trimmed(k) && (forall|i: int| 0 <= i < k.len() ==> k[i] != '\n') && (forall|i: int|
        0 <= i < k.len() ==> !sep_at(k + sep_seq(), i))
}

/// Splitting text extended by a line break and a break-free line appends
/// exactly that line.
proof fn lemma_split_append_line(a: Seq<char>, b: Seq<char>)
    requires
        forall|k: int| 0 <= k < b.len() ==> b[k] != '\n',
    ensures
        split_lines(a + seq!['\n'] + b) == split_lines(a).push(b),
    decreases a.len(),
{
    let s = a + seq!['\n'] + b;
    lemma_find_char_from(s, '\n', 0);
    lemma_find_char_from(a, '\n', 0);
    lemma_find_char_from(b, '\n', 0);
    assert(s[a.len() as int] == '\n');
    match find_char_from(a, '\n', 0) {
        None => {
            assert(forall|k: int| 0 <= k < a.len() ==> s[k] == a[k] && s[k] != '\n');
            match find_char_from(s, '\n', 0) {
                Some(i) => {
                    if i < a.len() {
                        assert(false);
                    }
                    if i > a.len() {
                        assert(s[a.len() as int] == '\n');
                        assert(false);
                    }
                    assert(s.subrange(0, i) =~= a);
                    let tail = s.subrange(a.len() as int + 1, s.len() as int);
                    assert(tail =~= b);
                    assert(find_char_from(b, '\n', 0) is None);
                    assert(split_lines(b) == seq![b]);
                    assert(split_lines(s) =~= split_lines(a).push(b));
                },
                None => {
                    assert(false);
                },
            }
        },
        Some(i) => {
            assert(forall|k: int| 0 <= k < a.len() ==> s[k] == a[k]);
            assert(s[i] == '\n');
            match find_char_from(s, '\n', 0) {
                Some(j) => {
                    if j < i {
                        assert(a[j] == '\n');
                        assert(false);
                    }
                    if i < j {
                        assert(false);
                    }
                    assert(s.subrange(0, i) =~= a.subrange(0, i));
                    let atail = a.subrange(i + 1, a.len() as int);
                    let stail = s.subrange(i + 1, s.len() as int);
                    assert(stail =~= atail + seq!['\n'] + b);
                    lemma_split_append_line(atail, b);
                    assert(split_lines(s) == seq![s.subrange(0, i)] + split_lines(stail));
                    assert(split_lines(a) == seq![a.subrange(0, i)] + split_lines(atail));
                    assert((seq![a.subrange(0, i)] + split_lines(atail)).push(b) =~= seq![
                        a.subrange(0, i),
                    ] + split_lines(atail).push(b));
                },
                None => {
                    assert(false);
                },
            }
        },
    }
}

/// A record written with a clean key parses back to exactly that record.
proof fn lemma_parse_record_line(k: Seq<char>, t: Timestamp)
    requires
        key_clean(k),
        t.wf(),
        ts_parse(ts_text(t)) == Some(t),
    ensures
        parse_line(record_text(k, t)) == Some((k, t)),
{
    let line = record_text(k, t);
    lemma_ts_text_shape(t);
    assert(line.len() == k.len() + 3 + 19);
    lemma_find_sep_from(line, 0);
    assert(sep_at(line, k.len() as int)) by {
        assert(line[k.len() as int] == '%');
        assert(line[k.len() as int + 1] == '%');
        assert(line[k.len() as int + 2] == '%');
    }
    assert forall|i: int| 0 <= i < k.len() implies !sep_at(line, i) by {
        let ks = k + sep_seq();
        assert(!sep_at(ks, i));
        assert(forall|j: int| 0 <= j < ks.len() ==> ks[j] == line[j]);
    }
    match find_sep_from(line, 0) {
        Some(j) => {
            if j < k.len() {
                assert(false);
            }
            if j > k.len() {
                assert(false);
            }
            assert(line.subrange(0, k.len() as int) =~= k);
            assert(line.subrange(k.len() as int + 3, line.len() as int) =~= ts_text(t));
        },
        None => {
            assert(false);
        },
    }
}

/// Persisting any set of records and loading the text back yields exactly
/// the same records: the same keys, each with its timestamp at second
/// precision.  The last condition is what the persist step's own contract
/// gives for each record it writes.
pub proof fn lemma_index_round_trip(es: Seq<(Seq<char>, Timestamp)>)
    requires
        forall|a: int, b: int| 0 <= a < b < es.len() ==> es[a].0 != es[b].0,
        forall|a: int| 0 <= a < es.len() ==> (#[trigger] es[a].1).wf(),
        forall|a: int| 0 <= a < es.len() ==> key_clean((#[trigger] es[a]).0),
        forall|a: int| 0 <= a < es.len() ==> ts_parse(ts_text(#[trigger] es[a].1)) == Some(
            es[a].1,
        ),
    ensures
        parse_text(render(es)) == es,
    decreases es.len(),
{
    if es.len() == 0 {
        let e = Seq::<char>::empty();
        assert(render(es) == e);
        lemma_find_char_from(e, '\n', 0);
        assert(split_lines(e) == seq![e]);
        assert(seq![e].drop_last() =~= Seq::<Seq<char>>::empty());
        lemma_find_sep_from(e, 0);
        assert(parse_line(e) is None);
        assert(seq![e].last() == e);
        assert(parse_lines(Seq::<Seq<char>>::empty()) =~= Seq::<(Seq<char>, Timestamp)>::empty());
        assert(parse_lines(seq![e]) =~= Seq::<(Seq<char>, Timestamp)>::empty());
        assert(parse_text(render(es)) =~= es);
    } else {
        let d = es.drop_last();
        let k = es.last().0;
        let t = es.last().1;
        assert(forall|a: int| 0 <= a < d.len() ==> d[a] == es[a]);
        lemma_index_round_trip(d);
        lemma_ts_text_shape(t);
        let rec = record_text(k, t);
        assert(key_clean(k));
        assert forall|j: int| 0 <= j < rec.len() implies rec[j] != '\n' by {
            if j < k.len() {
                assert(rec[j] == k[j]);
            } else if j < k.len() + 3 {
                assert(rec[j] == sep_seq()[j - k.len()]);
            } else {
                assert(rec[j] == ts_text(t)[j - k.len() - 3]);
            }
        }
        assert(render(es) =~= render(d) + seq!['\n'] + rec);
        lemma_split_append_line(render(d), rec);
        let lines = split_lines(render(es));
        assert(lines == split_lines(render(d)).push(rec));
        assert(lines.drop_last() =~= split_lines(render(d)));
        assert(lines.last() == rec);
        lemma_parse_record_line(k, t);
        assert(parse_lines(lines) == upsert(d, k, t));
        lemma_find_key(d, k);
        match find_key(d, k) {
            Some(i) => {
                assert(d[i].0 == es[i].0);
                assert(false);
            },
            None => {},
        }
        assert(upsert(d, k, t) == d.push((k, t)));
        assert(d.push((k, t)) =~= es);
    }
}

/// Inserts or replaces the record for `key`.
fn upsert_exec(entries: &mut Vec<(String, Timestamp)>, key: String, ts: Timestamp)
    ensures
        final(entries)@.map_values(|e: (String, Timestamp)| (e.0@, e.1)) == upsert(
            old(entries)@.map_values(|e: (String, Timestamp)| (e.0@, e.1)),
            key@,
            ts,
        ),
{
    let ghost es = entries@.map_values(|e: (String, Timestamp)| (e.0@, e.1));
    proof {
        lemma_find_key(es, key@);
    }
    let n = entries.len();
    let mut i: usize = 0;
    loop
        invariant
            i <= n,
            n == es.len(),
            es == entries@.map_values(|e: (String, Timestamp)| (e.0@, e.1)),
            forall|k: int| 0 <= k < i ==> (#[trigger] es[k]).0 != key@,
        ensures
            i <= n,
            es == entries@.map_values(|e: (String, Timestamp)| (e.0@, e.1)),
            forall|k: int| 0 <= k < i ==> (#[trigger] es[k]).0 != key@,
            i == n || es[i as int].0 == key@,
        decreases n - i,
    {
        if i == n {
            break;
        }
        proof {
            assert(es[i as int] == (entries@[i as int].0@, entries@[i as int].1));
        }
        if str_eq(entries[i].0.as_str(), key.as_str()) {
            break;
        }
        i = i + 1;
    }
    if i == n {
        proof {
            assert(find_key(es, key@) is None);
        }
        entries.push((key, ts));
        proof {
            assert(entries@.map_values(|e: (String, Timestamp)| (e.0@, e.1)) =~= es.push(
                (key@, ts),
            ));
        }
    } else {
        proof {
            assert(find_key(es, key@) == Some(i as int));
        }
        entries.remove(i);
        entries.insert(i, (key, ts));
        proof {
            assert(entries@.map_values(|e: (String, Timestamp)| (e.0@, e.1)) =~= es.update(
                i as int,
                (key@, ts),
            ));
        }
    }
}

} // verus!
