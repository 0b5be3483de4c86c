//! A forgiving reading of a scrape: the key of a series is kept as its line gives it, a line that
//! is no sample is passed over, and a label is read as it is written.

use vstd::prelude::*;
use crate::exposition;
use crate::exposition::RawSample;
use crate::metrics;
use crate::metrics::{Series, Snapshot};
use crate::named::Named;
use crate::number;
use crate::text;

verus! {

/// The last position of `c` in `s`.
pub open spec fn last_index(s: Seq<char>, c: char) -> Option<int>
    decreases s.len(),
{
    if s.len() == 0 {
        None
    } else if s.last() == c {
        Some(s.len() - 1)
    } else {
        last_index(s.drop_last(), c)
    }
}

/// What a line says: what stands before its last blank is the key, what stands behind it the
/// value, which is a number.
pub open spec fn sample_of(line: Seq<char>) -> Option<(Seq<char>, Seq<char>)> {
    if exposition::no_sample(line) {
        None
    } else {
        match last_index(line, ' ') {
            None => None,
            Some(i) => {
                let value = text::trimmed(line.skip(i + 1));
                if number::is_real(value) {
                    Some((line.take(i), value))
                } else {
                    None
                }
            },
        }
    }
}

/// The samples of a scrape, in the order of its lines.
pub open spec fn samples_of(lines: Seq<Seq<char>>) -> Seq<(Seq<char>, Seq<char>)>
    decreases lines.len(),
{
    if lines.len() == 0 {
        Seq::empty()
    } else {
        let before = samples_of(lines.drop_last());
        match sample_of(text::trimmed(lines.last())) {
            None => before,
            Some(s) => before.push(s),
        }
    }
}

fn last_blank(v: &Vec<char>) -> (at: Option<usize>)
    ensures
        match at {
            Some(i) => last_index(v@, ' ') == Some(i as int) && i < v@.len(),
            None => last_index(v@, ' ') is None,
        },
{
    let mut i: usize = v.len();
    assert(v@.take(i as int) =~= v@);
    while i > 0
        invariant
            i <= v@.len(),
            last_index(v@.take(i as int), ' ') == last_index(v@, ' '),
        decreases i,
    {
        assert(v@.take(i as int).drop_last() =~= v@.take(i - 1));
        assert(v@.take(i as int).last() == v@[i - 1]);
        if v[i - 1] == ' ' {
            return Some(i - 1);
        }
        i = i - 1;
    }
    None
}

/// The samples of a scrape, in the order of its lines. A line whose value is no number is passed
/// over.
pub fn parse(body: &str) -> (samples: Vec<RawSample>)
    ensures
        exposition::raws(samples@) == samples_of(text::lines(body@)),
{
    let lines: Vec<String> = text::lines_of(body);
    let ghost ls = text::lines(body@);
    let mut samples: Vec<RawSample> = Vec::new();
    assert(ls.take(0) =~= Seq::<Seq<char>>::empty());
    assert(exposition::raws(samples@) =~= Seq::empty());
    for i in 0..lines.len()
        invariant
            text::texts(lines@) == ls,
            ls == text::lines(body@),
            exposition::raws(samples@) == samples_of(ls.take(i as int)),
    {
        let ghost before = exposition::raws(samples@);
        assert(ls[i as int] == lines@[i as int]@);
        assert(ls.take(i + 1).drop_last() =~= ls.take(i as int));
        assert(ls.take(i + 1).last() == ls[i as int]);
        let line: String = text::trim(lines[i].as_str());
        let v: Vec<char> = text::chars_of(line.as_str());
        if v.len() > 0 && v[0] != '#' {
            if let Some(at) = last_blank(&v) {
                let key: String = text::string_of(&v, 0, at);
                let rest: String = text::string_of(&v, at + 1, v.len());
                assert(key@ =~= line@.take(at as int));
                assert(rest@ =~= line@.skip(at + 1));
                let value: String = text::trim(rest.as_str());
                if number::reads_as_real(value.as_str()) {
                    let s = RawSample { key, value };
                    let ghost w = exposition::raw(s);
                    samples.push(s);
                    assert(exposition::raws(samples@) =~= before.push(w));
                }
            }
        }
    }
    assert(ls.take(ls.len() as int) =~= ls);
    samples
}

/// Whether a quoted value is open before a position, and whether a backslash in it stands right
/// before that position.
pub open spec fn quoting(s: Seq<char>, n: int) -> (bool, bool)
    decreases n,
{
    if n <= 0 {
        (false, false)
    } else {
        let (quoted, escaped) = quoting(s, n - 1);
        if escaped {
            (quoted, false)
        } else if quoted && s[n - 1] == '\\' {
            (quoted, true)
        } else if s[n - 1] == '"' {
            (!quoted, false)
        } else {
            (quoted, false)
        }
    }
}

/// A character that the name of a label may hold.
pub open spec fn in_name(c: char) -> bool {
    exposition::letter(c) || c == '_' || number::is_digit(c)
}

/// A label of that name begins at a position: the name is a whole one, no value is open there, and
/// its own value follows.
pub open spec fn begins_label(s: Seq<char>, key: Seq<char>, i: int) -> bool {
    &&& text::occurs_at(s, key + "=\""@, i)
    &&& i > 0 ==> !in_name(s[i - 1])
    &&& !quoting(s, i).0
}

/// The first position at or after `from` where a label of that name begins.
pub open spec fn first_label(s: Seq<char>, key: Seq<char>, from: int) -> Option<int>
    decreases s.len() + 1 - from,
{
    if from < 0 || from > s.len() {
        None
    } else if begins_label(s, key, from) {
        Some(from)
    } else {
        first_label(s, key, from + 1)
    }
}

/// The value of the first label of that name, as it is written, up to the next quote.
pub open spec fn label_of(labels: Seq<char>, key: Seq<char>) -> Option<Seq<char>> {
    match first_label(labels, key, 0) {
        None => None,
        Some(i) => match text::cut(labels.skip(i + key.len() + 2), "\""@) {
            None => None,
            Some((value, _)) => Some(value),
        },
    }
}

fn is_in_name(c: char) -> (yes: bool)
    ensures
        yes == in_name(c),
{
    ('a' <= c && c <= 'z') || ('A' <= c && c <= 'Z') || c == '_' || ('0' <= c && c <= '9')
}

fn find_label(v: &Vec<char>, pattern: &Vec<char>, Ghost(key): Ghost<Seq<char>>) -> (at: Option<usize>)
    requires
        pattern@ == key + "=\""@,
    ensures
        match at {
            Some(i) => first_label(v@, key, 0) == Some(i as int) && i + pattern@.len() <= v@.len(),
            None => first_label(v@, key, 0) is None,
        },
{
    let mut quoted = false;
    let mut escaped = false;
    let mut i: usize = 0;
    loop
        invariant
            i <= v@.len(),
            pattern@ == key + "=\""@,
            quoting(v@, i as int) == (quoted, escaped),
            first_label(v@, key, i as int) == first_label(v@, key, 0),
        decreases v@.len() - i,
    {
        let whole = i == 0 || !is_in_name(v[i - 1]);
        if !quoted && whole && text::matches_at(v, pattern, i) {
            return Some(i);
        }
        if i == v.len() {
            assert(first_label(v@, key, i + 1) is None);
            return None;
        }
        let c: char = v[i];
        if escaped {
            escaped = false;
        } else if quoted && c == '\\' {
            escaped = true;
        } else if c == '"' {
            quoted = !quoted;
        }
        i = i + 1;
    }
}

/// The value of a label, as it is written, out of the labels of a series.
pub fn label_value(labels: &str, key: &str) -> (value: Option<String>)
    ensures
        text::text_of(value) == label_of(labels@, key@),
{
    let v: Vec<char> = text::chars_of(labels);
    let mut words: String = key.to_owned();
    words.append("=\"");
    let pattern: Vec<char> = text::chars_of(words.as_str());
    proof {
        reveal_strlit("=\"");
    }
    match find_label(&v, &pattern, Ghost(key@)) {
        None => None,
        Some(i) => {
            let end: usize = v.len();
            let rest: String = text::string_of(&v, i + pattern.len(), end);
            assert(rest@ =~= labels@.skip(i + key@.len() + 2));
            match text::split_once(rest.as_str(), "\"") {
                None => None,
                Some((value, _)) => Some(value),
            }
        },
    }
}

/// The values of some series by the value of one label.
pub open spec fn groups_of(entries: Seq<(Seq<char>, u64)>, label: Seq<char>) -> Map<
    Seq<char>,
    Seq<u64>,
>
    decreases entries.len(),
{
    if entries.len() == 0 {
        Map::empty()
    } else {
        let before = groups_of(entries.drop_last(), label);
        let (key, bits) = entries.last();
        match label_of(exposition::split_key(key).1, label) {
            None => before,
            Some(v) => if v.len() == 0 {
                before
            } else if before.contains_key(v) {
                before.insert(v, before[v].push(bits))
            } else {
                before.insert(v, seq![bits])
            },
        }
    }
}

/// A sample has a value of one label.
pub open spec fn labelled(e: (Seq<char>, u64), label: Seq<char>, v: Seq<char>) -> bool {
    label_of(exposition::split_key(e.0).1, label) == Some(v)
}

/// A group is what its label says: there is one for each value that some sample has and that is
/// not empty, and it holds the values of the samples that have it, in their order.
pub proof fn a_group_is_what_its_label_says(
    entries: Seq<(Seq<char>, u64)>,
    label: Seq<char>,
    v: Seq<char>,
)
    ensures
        groups_of(entries, label).contains_key(v) <==> v.len() > 0 && exists|i: int|
            0 <= i < entries.len() && labelled(#[trigger] entries[i], label, v),
        groups_of(entries, label).contains_key(v) ==> groups_of(entries, label)[v]
            == entries.filter(|e: (Seq<char>, u64)| labelled(e, label, v)).map_values(
            |e: (Seq<char>, u64)| e.1,
        ),
    decreases entries.len(),
{
    reveal(Seq::filter);
    let keep = |e: (Seq<char>, u64)| labelled(e, label, v);
    let bits = |e: (Seq<char>, u64)| e.1;
    if entries.len() > 0 {
        let rest = entries.drop_last();
        let last = entries.last();
        a_group_is_what_its_label_says(rest, label, v);
        assert(entries[entries.len() - 1] == last);
        if exists|i: int| 0 <= i < rest.len() && labelled(#[trigger] rest[i], label, v) {
            let i = choose|i: int| 0 <= i < rest.len() && labelled(#[trigger] rest[i], label, v);
            assert(entries[i] == rest[i]);
        }
        if exists|i: int| 0 <= i < entries.len() && labelled(#[trigger] entries[i], label, v) {
            let i = choose|i: int|
                0 <= i < entries.len() && labelled(#[trigger] entries[i], label, v);
            if i < rest.len() {
                assert(rest[i] == entries[i]);
            }
        }
        let before = rest.filter(keep);
        if labelled(last, label, v) {
            assert(entries.filter(keep) == before.push(last));
            assert(entries.filter(keep).map_values(bits) =~= before.map_values(bits).push(last.1));
            if !groups_of(rest, label).contains_key(v) && v.len() > 0 {
                assert(before.len() == 0) by {
                    if before.len() > 0 {
                        metrics::lemma_kept(rest, keep);
                        assert(rest.contains(before[0]));
                        let i = choose|i: int| 0 <= i < rest.len() && rest[i] == before[0];
                        assert(labelled(rest[i], label, v));
                    }
                }
                assert(before.map_values(bits).push(last.1) =~= seq![last.1]);
            }
        } else {
            assert(entries.filter(keep) == before);
        }
    }
}

/// The values of a family that pass the filters, by the value of one label.
pub fn group_by(s: &Snapshot, name: &str, label: &str, filters: &Vec<String>) -> (t: Named<Vec<u64>>)
    requires
        s.valid(),
    ensures
        t.valid(),
        metrics::group_views(t@) == groups_of(
            s.entries().filter(
                |e: (Seq<char>, u64)| metrics::selected(e.0, name@, text::texts(filters@)),
            ),
            label@,
        ),
{
    let series: Vec<Series> = s.matching(name, filters);
    let ghost es = metrics::entries_of(series@);
    let mut t: Named<Vec<u64>> = Named::new();
    assert(metrics::group_views(t@) =~= Map::empty());
    assert(es.take(0) =~= Seq::<(Seq<char>, u64)>::empty());
    for i in 0..series.len()
        invariant
            t.valid(),
            es == metrics::entries_of(series@),
            metrics::group_views(t@) == groups_of(es.take(i as int), label@),
    {
        let ghost before = metrics::group_views(t@);
        let one = &series[i];
        assert(es.take(i + 1).drop_last() =~= es.take(i as int));
        assert(es.take(i + 1).last() == (one.key@, one.bits));
        let (_, labels) = exposition::split_key_of(one.key.as_str());
        if let Some(v) = label_value(labels.as_str(), label) {
            if !v.as_str().is_empty() {
                let ghost k = v@;
                let list: Vec<u64> = metrics::grown(t.get(v.as_str()), one.bits);
                let ghost now = list@;
                let _ = t.insert(v, list);
                assert(metrics::group_views(t@) =~= before.insert(k, now));
            }
        }
    }
    assert(es.take(es.len() as int) =~= es);
    t
}

/// The last position of a character: it stands there, and nowhere behind it.
pub proof fn the_last_position_is_the_last(s: Seq<char>, c: char)
    ensures
        match last_index(s, c) {
            Some(i) => 0 <= i < s.len() && s[i] == c && forall|k: int| i < k < s.len() ==> s[k] != c,
            None => !s.contains(c),
        },
    decreases s.len(),
{
    if s.len() > 0 {
        let t = s.drop_last();
        the_last_position_is_the_last(t, c);
        assert(forall|k: int| 0 <= k < t.len() ==> t[k] == s[k]);
        if last_index(t, c) is None && s.contains(c) {
            let k = choose|k: int| 0 <= k < s.len() && s[k] == c;
            if k < t.len() {
                assert(t[k] == c);
            }
        }
    }
}

/// A sample reads back from its line: the key, a blank, and a number without a blank. A line without one
/// is no sample.
pub proof fn a_sample_reads_back(key: Seq<char>, value: Seq<char>)
    requires
        key.len() > 0,
        key[0] != '#',
        number::is_real(value),
        text::trimmed(value) == value,
        !value.contains(' '),
    ensures
        sample_of(key.push(' ') + value) == Some((key, value)),
        !key.contains(' ') ==> sample_of(key) is None,
{
    let line = key.push(' ') + value;
    let at = key.len() as int;
    the_last_position_is_the_last(line, ' ');
    the_last_position_is_the_last(key, ' ');
    assert(line[at] == ' ');
    let i = last_index(line, ' ')->0;
    if i > at {
        assert(line[i] == value[i - at - 1]);
        assert(value.contains(' '));
    }
    assert(i == at);
    assert(line.take(at) =~= key);
    assert(line.skip(at + 1) =~= value);
    assert(line[0] == key[0]);
}

/// The samples of two parts of a scrape are those of the one and then those of the other.
pub proof fn samples_come_line_by_line(a: Seq<Seq<char>>, b: Seq<Seq<char>>)
    ensures
        samples_of(a + b) == samples_of(a) + samples_of(b),
        b.len() == 1 ==> samples_of(b) == match sample_of(text::trimmed(b[0])) {
            Some(s) => seq![s],
            None => Seq::empty(),
        },
    decreases b.len(),
{
    if b.len() == 0 {
        assert(a + b =~= a);
        assert(samples_of(a) + samples_of(b) =~= samples_of(a));
    } else {
        samples_come_line_by_line(a, b.drop_last());
        assert((a + b).drop_last() =~= a + b.drop_last());
        assert(samples_of(a + b) =~= samples_of(a) + samples_of(b));
        if b.len() == 1 {
            assert(b.drop_last() =~= Seq::empty());
            assert(samples_of(b.drop_last()) == Seq::<(Seq<char>, Seq<char>)>::empty());
            assert(samples_of(b) =~= match sample_of(text::trimmed(b[0])) {
                Some(s) => seq![s],
                None => Seq::empty(),
            });
        }
    }
}

/// The value of a label reads back from the first place that it stands at, up to its quote.
pub proof fn a_first_label_reads_back(key: Seq<char>, value: Seq<char>, rest: Seq<char>)
    requires
        !value.contains('"'),
    ensures
        label_of(key + "=\""@ + value + "\""@ + rest, key) == Some(value),
{
    reveal_strlit("=\"");
    reveal_strlit("\"");
    let s = key + "=\""@ + value + "\""@ + rest;
    let pattern = key + "=\""@;
    assert(s.subrange(0, pattern.len() as int) =~= pattern);
    assert(begins_label(s, key, 0));
    assert(first_label(s, key, 0) == Some(0int));
    let tail = s.skip((key.len() + 2) as int);
    assert(tail =~= value + "\""@ + rest);
    let at = value.len() as int;
    assert(tail.subrange(at, at + 1) =~= "\""@);
    assert(text::occurs_at(tail, "\""@, at));
    assert forall|k: int| 0 <= k < at implies !#[trigger] text::occurs_at(tail, "\""@, k) by {
        if text::occurs_at(tail, "\""@, k) {
            assert(tail.subrange(k, k + 1)[0] == '"');
            assert(value[k] == '"');
        }
    }
    text::a_cut_is_made_at_the_first_place(tail, "\""@, at);
    assert(tail.take(at) =~= value);
}

} // verus!
