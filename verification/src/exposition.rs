//! The text in which a node exposes its metrics: sample lines, labels, and the canonical key of a
//! series. What number a value's text stands for is left to the caller.

use vstd::prelude::*;
use crate::named;
use crate::named::Named;
use crate::number;
use crate::text;

verus! {

// ------------------------------------------------------------------------------------------
//  Labels
// ------------------------------------------------------------------------------------------

/// An ASCII letter.
pub open spec fn letter(c: char) -> bool {
    'a' <= c <= 'z' || 'A' <= c <= 'Z'
}

fn is_letter(c: char) -> (yes: bool)
    ensures
        yes == letter(c),
{
    ('a' <= c && c <= 'z') || ('A' <= c && c <= 'Z')
}

/// A name: letters, underscores, where `colons` says so colons, and digits but at the beginning.
pub open spec fn is_name(s: Seq<char>, colons: bool) -> bool {
    s.len() > 0 && forall|i: int|
        0 <= i < s.len() ==> letter(#[trigger] s[i]) || s[i] == '_' || (colons && s[i] == ':') || (
        i > 0 && number::is_digit(s[i]))
}

fn check_name(s: &str, colons: bool) -> (yes: bool)
    ensures
        yes == is_name(s@, colons),
{
    let v: Vec<char> = text::chars_of(s);
    if v.len() == 0 {
        return false;
    }
    for i in 0..v.len()
        invariant
            v@ == s@,
            forall|j: int|
                0 <= j < i ==> letter(#[trigger] s@[j]) || s@[j] == '_' || (colons && s@[j] == ':')
                    || (j > 0 && number::is_digit(s@[j])),
    {
        let c: char = v[i];
        assert(s@[i as int] == c);
        if !(is_letter(c) || c == '_' || (colons && c == ':') || (i > 0 && '0' <= c && c <= '9')) {
            return false;
        }
    }
    true
}

/// The character that stands behind a backslash for another.
pub open spec fn unescaped(c: char) -> Option<char> {
    if c == 'n' {
        Some('\n')
    } else if c == '\\' {
        Some('\\')
    } else if c == '"' {
        Some('"')
    } else {
        None
    }
}

/// A quoted text without its first quote: what it says, and how long it is with its last quote.
pub open spec fn quoted(s: Seq<char>, from: int, escaped: bool) -> Result<
    (Seq<char>, int),
    Seq<char>,
>
    decreases s.len() - from,
{
    if from < 0 || from >= s.len() {
        Err("unterminated metric label"@)
    } else if escaped {
        match unescaped(s[from]) {
            None => Err("invalid metric label escape"@),
            Some(c) => match quoted(s, from + 1, false) {
                Err(e) => Err(e),
                Ok((said, end)) => Ok((seq![c] + said, end)),
            },
        }
    } else if s[from] == '\\' {
        quoted(s, from + 1, true)
    } else if s[from] == '"' {
        Ok((Seq::empty(), from + 1))
    } else {
        match quoted(s, from + 1, false) {
            Err(e) => Err(e),
            Ok((said, end)) => Ok((seq![s[from]] + said, end)),
        }
    }
}

/// A quoted text ends behind where it began, and no later than the text around it.
proof fn lemma_quoted_end(s: Seq<char>, from: int, escaped: bool)
    requires
        0 <= from,
    ensures
        quoted(s, from, escaped) matches Ok((said, end)) ==> from < end <= s.len(),
    decreases s.len() - from,
{
    if from < s.len() {
        lemma_quoted_end(s, from + 1, true);
        lemma_quoted_end(s, from + 1, false);
    }
}

/// One label at the beginning of `s`: its name, its value, and what follows it.
pub open spec fn one_label(s: Seq<char>) -> Result<(Seq<char>, Seq<char>, Seq<char>), Seq<char>> {
    match text::cut(s, "="@) {
        None => Err("metric label has no equals sign"@),
        Some((key, value)) => if !is_name(key, false) {
            Err("invalid metric label name "@ + text::debug_form(key))
        } else {
            match text::after_prefix(value, "\""@) {
                None => Err("metric label is not quoted"@),
                Some(v) => match quoted(v, 0, false) {
                    Err(e) => Err(e),
                    Ok((said, end)) => Ok((key, said, v.skip(end))),
                },
            }
        },
    }
}

/// What follows a label is shorter than what began with it.
proof fn lemma_label_shrinks(s: Seq<char>)
    ensures
        one_label(s) matches Ok((key, said, rest)) ==> rest.len() < s.len(),
{
    if let Some((key, value)) = text::cut(s, "="@) {
        reveal_strlit("=");
        text::lemma_cut(s, "="@);
        if let Some(v) = text::after_prefix(value, "\""@) {
            lemma_quoted_end(v, 0, false);
        }
    }
}

/// Labels one after the other, added to those before; a final comma is accepted.
pub open spec fn label_list(s: Seq<char>, before: Map<Seq<char>, Seq<char>>) -> Result<
    Map<Seq<char>, Seq<char>>,
    Seq<char>,
>
    decreases s.len(),
    via label_list_decreases
{
    if s.len() == 0 {
        Ok(before)
    } else {
        match one_label(s) {
            Err(e) => Err(e),
            Ok((key, said, rest)) => if before.contains_key(key) {
                Err("duplicate metric label "@ + key)
            } else if rest.len() == 0 {
                Ok(before.insert(key, said))
            } else {
                match text::after_prefix(rest, ","@) {
                    None => Err("metric labels need a comma"@),
                    Some(more) => label_list(more, before.insert(key, said)),
                }
            },
        }
    }
}

#[via_fn]
proof fn label_list_decreases(s: Seq<char>, before: Map<Seq<char>, Seq<char>>) {
    lemma_label_shrinks(s);
}

/// The labels of a series, as they stand behind its name.
pub open spec fn labels_of(s: Seq<char>) -> Result<Map<Seq<char>, Seq<char>>, Seq<char>> {
    if s.len() == 0 {
        Ok(Map::empty())
    } else {
        match text::after_prefix(s, "{"@) {
            None => Err("invalid metric label braces"@),
            Some(inner) => match text::before_suffix(inner, "}"@) {
                None => Err("invalid metric label braces"@),
                Some(body) => label_list(body, Map::empty()),
            },
        }
    }
}

/// What a table of labels says.
pub open spec fn label_views(m: Map<Seq<char>, String>) -> Map<Seq<char>, Seq<char>> {
    m.map_values(|s: String| s@)
}

fn read_quoted(v: &Vec<char>) -> (r: Result<(String, usize), String>)
    ensures
        match (r, quoted(v@, 0, false)) {
            (Ok((said, end)), Ok((w, e))) => said@ == w && end == e && end <= v@.len(),
            (Err(said), Err(words)) => said@ == words,
            _ => false,
        },
{
    let mut said: String = String::new();
    let mut escaped = false;
    let mut i: usize = 0;
    let ghost whole = quoted(v@, 0, false);
    proof {
        if let Ok((w, e)) = whole {
            assert(said@ + w =~= w);
        }
    }
    while i < v.len()
        invariant
            i <= v@.len(),
            whole == quoted(v@, 0, false),
            match (quoted(v@, i as int, escaped), whole) {
                (Ok((rest, e)), Ok((w, end))) => said@ + rest == w && e == end,
                (Err(a), Err(b)) => a == b,
                _ => false,
            },
        decreases v.len() - i,
    {
        let c: char = v[i];
        let ghost before = said@;
        let ghost here = quoted(v@, i as int, escaped);
        if escaped {
            if c == 'n' {
                said.push('\n');
            } else if c == '\\' {
                said.push('\\');
            } else if c == '"' {
                said.push('"');
            } else {
                return Err("invalid metric label escape".to_owned());
            }
            escaped = false;
            proof {
                if let Ok((rest, e)) = quoted(v@, i + 1, false) {
                    assert(before + (seq![unescaped(c)->0] + rest) =~= said@ + rest);
                }
            }
        } else if c == '\\' {
            escaped = true;
        } else if c == '"' {
            assert(said@ + Seq::<char>::empty() =~= said@);
            return Ok((said, i + 1));
        } else {
            said.push(c);
            proof {
                if let Ok((rest, e)) = quoted(v@, i + 1, false) {
                    assert(before + (seq![c] + rest) =~= said@ + rest);
                }
            }
        }
        i = i + 1;
    }
    Err("unterminated metric label".to_owned())
}

fn read_label(s: &str) -> (r: Result<(String, String, String), String>)
    ensures
        match (r, one_label(s@)) {
            (Ok((key, said, rest)), Ok((k, w, more))) => key@ == k && said@ == w && rest@ == more,
            (Err(said), Err(words)) => said@ == words,
            _ => false,
        },
{
    let (key, value) = match text::split_once(s, "=") {
        None => return Err("metric label has no equals sign".to_owned()),
        Some(parts) => parts,
    };
    if !check_name(key.as_str(), false) {
        let mut e: String = "invalid metric label name ".to_owned();
        e.append(text::debug_text(key.as_str()).as_str());
        return Err(e);
    }
    let v: Vec<char> = match text::past(value.as_str(), "\"") {
        None => return Err("metric label is not quoted".to_owned()),
        Some(v) => text::chars_of(v.as_str()),
    };
    match read_quoted(&v) {
        Err(e) => Err(e),
        Ok((said, end)) => {
            let rest: String = text::string_of(&v, end, v.len());
            assert(rest@ =~= v@.skip(end as int));
            Ok((key, said, rest))
        },
    }
}

/// The labels of a series, as they stand behind its name.
pub fn parse_labels(s: &str) -> (r: Result<Named<String>, String>)
    ensures
        match (r, labels_of(s@)) {
            (Ok(t), Ok(w)) => t.valid() && label_views(t@) == w,
            (Err(said), Err(words)) => said@ == words,
            _ => false,
        },
{
    let mut labels: Named<String> = Named::new();
    assert(label_views(labels@) =~= Map::empty());
    if s.is_empty() {
        return Ok(labels);
    }
    let inner: String = match text::past(s, "{") {
        None => return Err("invalid metric label braces".to_owned()),
        Some(inner) => inner,
    };
    let body: String = match text::short_of(inner.as_str(), "}") {
        None => return Err("invalid metric label braces".to_owned()),
        Some(body) => body,
    };
    let mut rest: String = body;
    let ghost whole = labels_of(s@);
    while !rest.as_str().is_empty()
        invariant
            labels.valid(),
            whole == labels_of(s@),
            whole == label_list(rest@, label_views(labels@)),
        decreases rest@.len(),
    {
        let ghost before = label_views(labels@);
        let ghost now = rest@;
        proof {
            lemma_label_shrinks(rest@);
        }
        let (key, said, more) = match read_label(rest.as_str()) {
            Err(e) => return Err(e),
            Ok(parts) => parts,
        };
        let ghost k = key@;
        let ghost w = said@;
        let name: String = key.clone();
        if labels.insert(key, said) {
            let mut e: String = "duplicate metric label ".to_owned();
            e.append(name.as_str());
            return Err(e);
        }
        assert(label_views(labels@) =~= before.insert(k, w));
        if more.as_str().is_empty() {
            return Ok(labels);
        }
        match text::past(more.as_str(), ",") {
            None => return Err("metric labels need a comma".to_owned()),
            Some(next) => {
                proof {
                    reveal_strlit(",");
                }
                rest = next;
            },
        }
    }
    Ok(labels)
}

// ------------------------------------------------------------------------------------------
//  Canonical keys
// ------------------------------------------------------------------------------------------

/// A character as a quoted text holds it.
pub open spec fn escaped_char(c: char) -> Seq<char> {
    if c == '\\' {
        seq!['\\', '\\']
    } else if c == '\n' {
        seq!['\\', 'n']
    } else if c == '"' {
        seq!['\\', '"']
    } else {
        seq![c]
    }
}

/// A text as a quoted text holds it.
pub open spec fn escaped(s: Seq<char>) -> Seq<char>
    decreases s.len(),
{
    if s.len() == 0 {
        Seq::empty()
    } else {
        escaped(s.drop_last()) + escaped_char(s.last())
    }
}

/// One label.
pub open spec fn label_text(key: Seq<char>, value: Seq<char>) -> Seq<char> {
    key + "=\""@ + escaped(value) + "\""@
}

/// Labels with commas between them.
pub open spec fn joined(keys: Seq<Seq<char>>, labels: Map<Seq<char>, Seq<char>>) -> Seq<char>
    decreases keys.len(),
{
    if keys.len() == 0 {
        Seq::empty()
    } else if keys.len() == 1 {
        label_text(keys[0], labels[keys[0]])
    } else {
        joined(keys.drop_last(), labels) + ","@ + label_text(keys.last(), labels[keys.last()])
    }
}

/// `q` lists the names of a table in their order.
pub open spec fn lists_names(q: Seq<Seq<char>>, labels: Map<Seq<char>, Seq<char>>) -> bool {
    named::in_text_order(q) && forall|k: Seq<char>| q.contains(k) <==> labels.contains_key(k)
}

/// The names of a table in their order.
pub open spec fn names_in_order(labels: Map<Seq<char>, Seq<char>>) -> Seq<Seq<char>> {
    choose|q: Seq<Seq<char>>| lists_names(q, labels)
}

/// The key of a series: its name, and its labels by name. It depends on what the labels are and
/// not on the order in which a line gives them.
pub open spec fn canonical(name: Seq<char>, labels: Map<Seq<char>, Seq<char>>) -> Seq<char> {
    let keys = names_in_order(labels);
    if keys.len() == 0 {
        name
    } else {
        name + "{"@ + joined(keys, labels) + "}"@
    }
}

proof fn lemma_names(q: Seq<Seq<char>>, labels: Map<Seq<char>, Seq<char>>)
    requires
        lists_names(q, labels),
    ensures
        names_in_order(labels) == q,
{
    let other = names_in_order(labels);
    assert(lists_names(other, labels));
    assert forall|t: Seq<char>| q.contains(t) <==> other.contains(t) by {
        assert(labels.contains_key(t) <==> q.contains(t));
    }
    named::lemma_order_unique(q, other);
}

fn push_escaped(out: &mut String, s: &str)
    ensures
        final(out)@ == old(out)@ + escaped(s@),
{
    let ghost start = out@;
    assert(start + escaped(s@.take(0)) =~= start);
    for c in it: s.chars()
        invariant
            it.seq() == s@,
            out@ == start + escaped(s@.take(it.index() as int)),
    {
        let ghost before = out@;
        if c == '\\' {
            out.push('\\');
            out.push('\\');
        } else if c == '\n' {
            out.push('\\');
            out.push('n');
        } else if c == '"' {
            out.push('\\');
            out.push('"');
        } else {
            out.push(c);
        }
        assert(s@.take(it.index() + 1).drop_last() =~= s@.take(it.index() as int));
        assert(s@.take(it.index() + 1).last() == c);
        assert(out@ =~= before + escaped_char(c));
        assert(out@ =~= start + escaped(s@.take(it.index() + 1)));
    }
    assert(s@.take(s@.len() as int) =~= s@);
}

fn push_label(out: &mut String, key: &str, value: &str)
    ensures
        final(out)@ == old(out)@ + label_text(key@, value@),
{
    let ghost start = out@;
    out.append(key);
    out.append("=\"");
    push_escaped(out, value);
    out.append("\"");
    assert(out@ =~= start + label_text(key@, value@));
}

fn canonical_key(name: &str, labels: &Named<String>) -> (key: String)
    requires
        labels.valid(),
    ensures
        key@ == canonical(name@, label_views(labels@)),
{
    let ghost views = label_views(labels@);
    let ghost ks = labels.keys();
    proof {
        assert forall|k: Seq<char>| ks.contains(k) <==> views.contains_key(k) by {
            assert(labels@ == named::table(ks, labels.vals()));
        }
        lemma_names(ks, views);
    }
    let mut out: String = name.to_owned();
    if labels.len() == 0 {
        return out;
    }
    out.append("{");
    let ghost start = out@;
    assert(start + joined(ks.take(0), views) =~= start);
    let n: usize = labels.len();
    for i in 0..n
        invariant
            labels.valid(),
            n == ks.len(),
            ks == labels.keys(),
            views == label_views(labels@),
            out@ == start + joined(ks.take(i as int), views),
    {
        if i > 0 {
            out.append(",");
        }
        let value = labels.value_at(i);
        assert(views[ks[i as int]] == value@);
        push_label(&mut out, labels.name_at(i), value.as_str());
        assert(ks.take(i + 1).drop_last() =~= ks.take(i as int));
        assert(ks.take(i + 1).last() == ks[i as int]);
        assert(out@ =~= start + joined(ks.take(i + 1), views));
    }
    assert(ks.take(ks.len() as int) =~= ks);
    out.append("}");
    assert(out@ =~= canonical(name@, views));
    out
}

// ------------------------------------------------------------------------------------------
//  Sample lines
// ------------------------------------------------------------------------------------------

/// A key's name and its labels, which begin with the first brace.
pub open spec fn split_key(key: Seq<char>) -> (Seq<char>, Seq<char>) {
    let i = text::first_index(key, '{');
    (key.take(i), key.skip(i))
}

/// A key's name and its labels, which begin with the first brace.
pub fn split_key_of(key: &str) -> (r: (String, String))
    ensures
        (r.0@, r.1@) == split_key(key@),
{
    let v: Vec<char> = text::chars_of(key);
    let i: usize = text::index_of(&v, '{', 0);
    proof {
        assert(v@.skip(0) =~= v@);
        text::lemma_first_index(v@, '{');
    }
    let name: String = text::string_of(&v, 0, i);
    let labels: String = text::string_of(&v, i, v.len());
    assert(name@ =~= key@.take(i as int));
    assert(labels@ =~= key@.skip(i as int));
    (name, labels)
}

/// The first white space of a line outside of quotes, from a position on.
pub open spec fn key_end(s: Seq<char>, from: int, quoted: bool, escaped: bool) -> Option<int>
    decreases s.len() - from,
{
    if from < 0 || from >= s.len() {
        None
    } else if escaped {
        key_end(s, from + 1, quoted, false)
    } else if quoted && s[from] == '\\' {
        key_end(s, from + 1, quoted, true)
    } else if s[from] == '"' {
        key_end(s, from + 1, !quoted, false)
    } else if !quoted && text::white(s[from]) {
        Some(from)
    } else {
        key_end(s, from + 1, quoted, false)
    }
}

/// What the words behind a key say of its series: its value, which is a number, and perhaps when it
/// was taken.
pub open spec fn measured(key: Seq<char>, values: Seq<Seq<char>>) -> Result<
    (Seq<char>, Seq<char>),
    Seq<char>,
> {
    if values.len() == 0 {
        Err("metric sample has no value"@)
    } else if !number::is_real(values[0]) {
        Err(number::real_fault(values[0]))
    } else if values.len() >= 2 && number::signed_value(values[1]) is None {
        Err("invalid metric timestamp"@)
    } else if values.len() > 2 {
        Err("unsupported metric suffix"@)
    } else {
        Ok((key, values[0]))
    }
}

/// What a sample line says: the canonical key of its series, and the text of its value.
pub open spec fn sample_of(line: Seq<char>) -> Result<(Seq<char>, Seq<char>), Seq<char>> {
    match key_end(line, 0, false, false) {
        None => Err("metric sample has no value"@),
        Some(end) => {
            let (name, labels) = split_key(line.take(end));
            if !is_name(name, true) {
                Err("invalid metric name "@ + text::debug_form(name))
            } else {
                match labels_of(labels) {
                    Err(e) => Err(e),
                    Ok(m) => measured(canonical(name, m), text::words(line.skip(end))),
                }
            }
        },
    }
}

fn find_key_end(v: &Vec<char>) -> (end: Option<usize>)
    ensures
        match end {
            Some(i) => key_end(v@, 0, false, false) == Some(i as int) && i <= v@.len(),
            None => key_end(v@, 0, false, false) is None,
        },
{
    let mut quoted = false;
    let mut escaped = false;
    let mut i: usize = 0;
    while i < v.len()
        invariant
            i <= v@.len(),
            key_end(v@, i as int, quoted, escaped) == key_end(v@, 0, false, false),
        decreases v.len() - i,
    {
        let c: char = v[i];
        if escaped {
            escaped = false;
        } else if quoted && c == '\\' {
            escaped = true;
        } else if c == '"' {
            quoted = !quoted;
        } else if !quoted && text::is_white(c) {
            return Some(i);
        }
        i = i + 1;
    }
    None
}

/// A sample: the canonical key of its series, and the text of its value.
pub struct RawSample {
    pub key: String,
    pub value: String,
}

/// What a sample holds.
pub open spec fn raw(s: RawSample) -> (Seq<char>, Seq<char>) {
    (s.key@, s.value@)
}

/// What a sample line says.
pub fn parse_sample(line: &str) -> (r: Result<RawSample, String>)
    ensures
        match (r, sample_of(line@)) {
            (Ok(s), Ok(w)) => raw(s) == w,
            (Err(said), Err(words)) => said@ == words,
            _ => false,
        },
{
    let v: Vec<char> = text::chars_of(line);
    let end: usize = match find_key_end(&v) {
        None => return Err("metric sample has no value".to_owned()),
        Some(end) => end,
    };
    let key: String = text::string_of(&v, 0, end);
    assert(key@ =~= line@.take(end as int));
    let (name, labels) = split_key_of(key.as_str());
    if !check_name(name.as_str(), true) {
        let mut e: String = "invalid metric name ".to_owned();
        e.append(text::debug_text(name.as_str()).as_str());
        return Err(e);
    }
    let labels: Named<String> = match parse_labels(labels.as_str()) {
        Err(e) => return Err(e),
        Ok(labels) => labels,
    };
    let values: Vec<String> = text::words_from(&v, end);
    assert(text::texts(values@).len() == values@.len());
    if values.len() == 0 {
        return Err("metric sample has no value".to_owned());
    }
    assert(text::texts(values@)[0] == values@[0]@);
    if !number::reads_as_real(values[0].as_str()) {
        return Err(number::explain_real(values[0].as_str()));
    }
    if values.len() >= 2 {
        assert(text::texts(values@)[1] == values@[1]@);
        if number::parse_signed(values[1].as_str()).is_none() {
            return Err("invalid metric timestamp".to_owned());
        }
    }
    if values.len() > 2 {
        return Err("unsupported metric suffix".to_owned());
    }
    let key: String = canonical_key(name.as_str(), &labels);
    Ok(RawSample { key, value: values[0].clone() })
}

/// A line that holds no sample: empty, or a comment.
pub open spec fn no_sample(line: Seq<char>) -> bool {
    line.len() == 0 || line[0] == '#'
}

/// Said of a line that is no sample and should be one.
pub open spec fn line_words(number: nat, words: Seq<char>) -> Seq<char> {
    "metrics line "@ + number::decimal(number) + ": "@ + words
}

/// The samples of the first lines of a scrape, up to the first that is malformed or that comes a
/// second time.
pub open spec fn samples_of(lines: Seq<Seq<char>>) -> Result<
    Seq<(Seq<char>, Seq<char>)>,
    Seq<char>,
>
    decreases lines.len(),
{
    if lines.len() == 0 {
        Ok(Seq::empty())
    } else {
        match samples_of(lines.drop_last()) {
            Err(e) => Err(e),
            Ok(before) => {
                let line = text::trimmed(lines.last());
                if no_sample(line) {
                    Ok(before)
                } else {
                    match sample_of(line) {
                        Err(e) => Err(line_words(lines.len(), e)),
                        Ok(s) => if has_key(before, s.0) {
                            Err("duplicate metric sample "@ + s.0)
                        } else {
                            Ok(before.push(s))
                        },
                    }
                }
            },
        }
    }
}

/// Whether a sample of that series is among some.
pub open spec fn has_key(samples: Seq<(Seq<char>, Seq<char>)>, key: Seq<char>) -> bool {
    exists|i: int| 0 <= i < samples.len() && (#[trigger] samples[i]).0 == key
}

/// What some samples hold.
pub open spec fn raws(v: Seq<RawSample>) -> Seq<(Seq<char>, Seq<char>)> {
    v.map_values(|s: RawSample| raw(s))
}

proof fn lemma_samples_stop(lines: Seq<Seq<char>>, n: int)
    requires
        0 <= n <= lines.len(),
    ensures
        samples_of(lines.take(n)) is Err ==> samples_of(lines) == samples_of(lines.take(n)),
    decreases lines.len() - n,
{
    if n == lines.len() {
        assert(lines.take(n) =~= lines);
    } else {
        lemma_samples_stop(lines, n + 1);
        assert(lines.take(n + 1).drop_last() =~= lines.take(n));
    }
}

/// The samples of a scrape, in the order of its lines. A line that is malformed, and a series that
/// comes twice, fail the whole scrape.
pub fn parse(body: &str) -> (r: Result<Vec<RawSample>, String>)
    ensures
        match (r, samples_of(text::lines(body@))) {
            (Ok(v), Ok(w)) => raws(v@) == w,
            (Err(said), Err(words)) => said@ == words,
            _ => false,
        },
{
    let lines: Vec<String> = text::lines_of(body);
    let ghost ls = text::lines(body@);
    let mut samples: Vec<RawSample> = Vec::new();
    let mut seen: Named<bool> = Named::new();
    assert(ls.take(0) =~= Seq::<Seq<char>>::empty());
    assert(raws(samples@) =~= Seq::empty());
    for i in 0..lines.len()
        invariant
            ls == text::lines(body@),
            text::texts(lines@) == ls,
            seen.valid(),
            forall|k: Seq<char>| #[trigger] seen@.contains_key(k) <==> has_key(raws(samples@), k),
            samples_of(ls.take(i as int)) == Ok::<Seq<(Seq<char>, Seq<char>)>, Seq<char>>(
                raws(samples@),
            ),
    {
        let ghost before = raws(samples@);
        let line: String = text::trim(lines[i].as_str());
        proof {
            assert(ls[i as int] == lines@[i as int]@);
            assert(ls.take(i + 1).drop_last() =~= ls.take(i as int));
            assert(ls.take(i + 1).last() == ls[i as int]);
            lemma_samples_stop(ls, i + 1);
        }
        let chars: Vec<char> = text::chars_of(line.as_str());
        if chars.len() > 0 && chars[0] != '#' {
            match parse_sample(line.as_str()) {
                Err(e) => {
                    let mut said: String = "metrics line ".to_owned();
                    number::push_decimal(&mut said, i as u64 + 1);
                    said.append(": ");
                    said.append(e.as_str());
                    return Err(said);
                },
                Ok(s) => {
                    let ghost w = raw(s);
                    let key: String = s.key.clone();
                    if seen.insert(key, true) {
                        let mut said: String = "duplicate metric sample ".to_owned();
                        said.append(s.key.as_str());
                        return Err(said);
                    }
                    samples.push(s);
                    proof {
                        assert(raws(samples@) =~= before.push(w));
                        assert forall|k: Seq<char>| #[trigger] seen@.contains_key(k)
                            <==> has_key(raws(samples@), k) by {
                            if has_key(before, k) {
                                let j = choose|j: int|
                                    0 <= j < before.len() && (#[trigger] before[j]).0 == k;
                                assert(raws(samples@)[j].0 == k);
                            }
                            if has_key(raws(samples@), k) {
                                let j = choose|j: int|
                                    0 <= j < raws(samples@).len() && (#[trigger] raws(
                                        samples@,
                                    )[j]).0 == k;
                                if j < before.len() {
                                    assert(before[j].0 == k);
                                }
                            }
                            assert(raws(samples@)[before.len() as int].0 == w.0);
                        }
                    }
                },
            }
        }
    }
    assert(ls.take(ls.len() as int) =~= ls);
    Ok(samples)
}

// ------------------------------------------------------------------------------------------
//  What labels keep
// ------------------------------------------------------------------------------------------

/// Labels in some order, as a line may give them.
pub open spec fn label_line(list: Seq<(Seq<char>, Seq<char>)>) -> Seq<char>
    decreases list.len(),
{
    if list.len() == 0 {
        Seq::empty()
    } else if list.len() == 1 {
        label_text(list[0].0, list[0].1)
    } else {
        label_text(list[0].0, list[0].1) + ","@ + label_line(list.skip(1))
    }
}

/// Labels that a series can have: proper names, each once.
pub open spec fn proper_labels(list: Seq<(Seq<char>, Seq<char>)>) -> bool {
    &&& forall|i: int| 0 <= i < list.len() ==> is_name((#[trigger] list[i]).0, false)
    &&& forall|i: int, j: int|
        0 <= i < j < list.len() ==> (#[trigger] list[i]).0 != (#[trigger] list[j]).0
}

/// Labels added to those before.
pub open spec fn label_table(
    list: Seq<(Seq<char>, Seq<char>)>,
    before: Map<Seq<char>, Seq<char>>,
) -> Map<Seq<char>, Seq<char>>
    decreases list.len(),
{
    if list.len() == 0 {
        before
    } else {
        label_table(list.skip(1), before.insert(list[0].0, list[0].1))
    }
}

proof fn lemma_escaped_front(v: Seq<char>)
    requires
        v.len() > 0,
    ensures
        escaped(v) == escaped_char(v[0]) + escaped(v.skip(1)),
    decreases v.len(),
{
    if v.len() == 1 {
        assert(v.drop_last() =~= Seq::<char>::empty());
        assert(v.skip(1) =~= Seq::<char>::empty());
        assert(escaped(v) =~= escaped_char(v[0]) + escaped(v.skip(1)));
    } else {
        lemma_escaped_front(v.drop_last());
        assert(v.drop_last().skip(1) =~= v.skip(1).drop_last());
        assert(escaped(v) =~= escaped_char(v[0]) + escaped(v.skip(1)));
    }
}

/// A text that was escaped and quoted is read back as it was, wherever it stands.
pub proof fn a_quoted_text_reads_back(before: Seq<char>, v: Seq<char>, rest: Seq<char>)
    ensures
        quoted(before + escaped(v) + seq!['"'] + rest, before.len() as int, false) == Ok::<
            (Seq<char>, int),
            Seq<char>,
        >((v, (before.len() + escaped(v).len() + 1) as int)),
    decreases v.len(),
{
    let s = before + escaped(v) + seq!['"'] + rest;
    let at = before.len() as int;
    if v.len() == 0 {
        assert(s[at] == '"');
        assert(v =~= Seq::<char>::empty());
    } else {
        lemma_escaped_front(v);
        let c = v[0];
        let more = before + escaped_char(c);
        assert(s =~= more + escaped(v.skip(1)) + seq!['"'] + rest);
        a_quoted_text_reads_back(more, v.skip(1), rest);
        assert(seq![c] + v.skip(1) =~= v);
        if escaped_char(c).len() == 2 {
            assert(s[at] == '\\');
            assert(s[at + 1] == escaped_char(c)[1]);
            assert(unescaped(s[at + 1]) == Some(c));
            assert(quoted(s, at, false) == quoted(s, at + 1, true));
        } else {
            assert(s[at] == c);
        }
    }
}

proof fn lemma_one_label(key: Seq<char>, value: Seq<char>, rest: Seq<char>)
    requires
        is_name(key, false),
    ensures
        one_label(label_text(key, value) + rest) == Ok::<
            (Seq<char>, Seq<char>, Seq<char>),
            Seq<char>,
        >((key, value, rest)),
{
    reveal_strlit("=");
    reveal_strlit("=\"");
    reveal_strlit("\"");
    let s = label_text(key, value) + rest;
    let n = key.len() as int;
    let tail = "\""@ + escaped(value) + "\""@ + rest;
    assert(s =~= key + "="@ + tail);
    assert(s.subrange(n, n + 1) =~= "="@);
    assert(text::occurs_at(s, "="@, n));
    assert forall|k: int| 0 <= k < n implies !text::occurs_at(s, "="@, k) by {
        assert(letter(key[k]) || key[k] == '_' || (k > 0 && number::is_digit(key[k])));
        assert(s.subrange(k, k + 1)[0] == key[k]);
        assert("="@[0] == '=');
    }
    text::lemma_first_at(s, "="@, 0, Some(n));
    assert(s.take(n) =~= key);
    assert(s.skip(n + 1) =~= tail);
    assert(tail.subrange(0, 1) =~= "\""@);
    assert(text::begins_with(tail, "\""@));
    let v = tail.skip(1);
    assert(v =~= Seq::<char>::empty() + escaped(value) + seq!['"'] + rest);
    a_quoted_text_reads_back(Seq::empty(), value, rest);
    assert(v.skip(escaped(value).len() as int + 1) =~= rest);
}

proof fn lemma_label_line(
    list: Seq<(Seq<char>, Seq<char>)>,
    before: Map<Seq<char>, Seq<char>>,
)
    requires
        proper_labels(list),
        forall|i: int| 0 <= i < list.len() ==> !before.contains_key((#[trigger] list[i]).0),
    ensures
        label_list(label_line(list), before) == Ok::<Map<Seq<char>, Seq<char>>, Seq<char>>(
            label_table(list, before),
        ),
    decreases list.len(),
{
    if list.len() > 0 {
        let (key, value) = list[0];
        let text = label_text(key, value);
        reveal_strlit("=\"");
        assert(text.len() > 0);
        if list.len() == 1 {
            lemma_one_label(key, value, Seq::empty());
            assert(text + Seq::<char>::empty() =~= text);
            assert(list.skip(1) =~= Seq::<(Seq<char>, Seq<char>)>::empty());
            assert(label_table(list.skip(1), before.insert(key, value)) == before.insert(key, value));
        } else {
            let more = label_line(list.skip(1));
            let rest = ","@ + more;
            reveal_strlit(",");
            lemma_one_label(key, value, rest);
            assert(label_line(list) =~= text + rest);
            assert(rest.subrange(0, 1) =~= ","@);
            assert(text::begins_with(rest, ","@));
            assert(rest.skip(1) =~= more);
            let then_labels = list.skip(1);
            let after = before.insert(key, value);
            assert forall|i: int| 0 <= i < then_labels.len() implies !after.contains_key(
                (#[trigger] then_labels[i]).0,
            ) by {
                assert(then_labels[i] == list[i + 1]);
                assert(list[0].0 != list[i + 1].0);
            }
            assert(proper_labels(then_labels)) by {
                assert forall|i: int| 0 <= i < then_labels.len() implies is_name(
                    (#[trigger] then_labels[i]).0,
                    false,
                ) by {
                    assert(then_labels[i] == list[i + 1]);
                }
                assert forall|i: int, j: int| 0 <= i < j < then_labels.len() implies (
                #[trigger] then_labels[i]).0 != (#[trigger] then_labels[j]).0 by {
                    assert(then_labels[i] == list[i + 1]);
                    assert(then_labels[j] == list[j + 1]);
                }
            }
            lemma_label_line(then_labels, after);
        }
    }
}

/// Labels are read back as they were written, whatever their values hold.
pub proof fn labels_read_back(list: Seq<(Seq<char>, Seq<char>)>)
    requires
        proper_labels(list),
    ensures
        labels_of("{"@ + label_line(list) + "}"@) == Ok::<Map<Seq<char>, Seq<char>>, Seq<char>>(
            label_table(list, Map::empty()),
        ),
{
    reveal_strlit("{");
    reveal_strlit("}");
    let s = "{"@ + label_line(list) + "}"@;
    assert(s.subrange(0, 1) =~= "{"@);
    assert(text::begins_with(s, "{"@));
    let inner = s.skip(1);
    assert(inner.subrange(inner.len() - 1, inner.len() as int) =~= "}"@);
    assert(text::ends_with(inner, "}"@));
    assert(inner.take(inner.len() - 1) =~= label_line(list));
    lemma_label_line(list, Map::empty());
}

proof fn lemma_label_table(
    list: Seq<(Seq<char>, Seq<char>)>,
    before: Map<Seq<char>, Seq<char>>,
    k: Seq<char>,
)
    requires
        proper_labels(list),
    ensures
        forall|i: int|
            0 <= i < list.len() && (#[trigger] list[i]).0 == k ==> label_table(
                list,
                before,
            ).contains_key(k) && label_table(list, before)[k] == list[i].1,
        (forall|i: int| 0 <= i < list.len() ==> (#[trigger] list[i]).0 != k) ==> (label_table(
            list,
            before,
        ).contains_key(k) <==> before.contains_key(k)) && label_table(list, before)[k]
            == before[k],
    decreases list.len(),
{
    if list.len() > 0 {
        let rest = list.skip(1);
        assert(proper_labels(rest)) by {
            assert forall|i: int| 0 <= i < rest.len() implies is_name(
                (#[trigger] rest[i]).0,
                false,
            ) by {
                assert(rest[i] == list[i + 1]);
            }
            assert forall|i: int, j: int| 0 <= i < j < rest.len() implies (#[trigger] rest[i]).0
                != (#[trigger] rest[j]).0 by {
                assert(rest[i] == list[i + 1]);
                assert(rest[j] == list[j + 1]);
            }
        }
        lemma_label_table(rest, before.insert(list[0].0, list[0].1), k);
        assert forall|i: int| 0 <= i < list.len() && (#[trigger] list[i]).0 == k implies
            label_table(list, before).contains_key(k) && label_table(list, before)[k]
            == list[i].1 by {
            if i > 0 {
                assert(rest[i - 1] == list[i]);
            } else {
                assert forall|j: int| 0 <= j < rest.len() implies (#[trigger] rest[j]).0 != k by {
                    assert(rest[j] == list[j + 1]);
                    assert(list[0].0 != list[j + 1].0);
                }
            }
        }
        if forall|i: int| 0 <= i < list.len() ==> (#[trigger] list[i]).0 != k {
            assert(list[0].0 != k);
            assert forall|j: int| 0 <= j < rest.len() implies (#[trigger] rest[j]).0 != k by {
                assert(rest[j] == list[j + 1]);
            }
        }
    }
}

/// The order in which a line gives its labels does not change the identity of its series.
pub proof fn label_order_does_not_matter(
    name: Seq<char>,
    a: Seq<(Seq<char>, Seq<char>)>,
    b: Seq<(Seq<char>, Seq<char>)>,
)
    requires
        proper_labels(a),
        proper_labels(b),
        forall|l: (Seq<char>, Seq<char>)| a.contains(l) <==> b.contains(l),
    ensures
        label_table(a, Map::empty()) == label_table(b, Map::empty()),
        canonical(name, label_table(a, Map::empty())) == canonical(
            name,
            label_table(b, Map::empty()),
        ),
{
    let x = label_table(a, Map::empty());
    let y = label_table(b, Map::empty());
    assert forall|k: Seq<char>| x.contains_key(k) <==> y.contains_key(k) by {
        lemma_label_table(a, Map::empty(), k);
        lemma_label_table(b, Map::empty(), k);
        lemma_same_label(a, b, k);
        lemma_same_label(b, a, k);
    }
    assert forall|k: Seq<char>| x.contains_key(k) implies x[k] == y[k] by {
        lemma_label_table(a, Map::empty(), k);
        lemma_label_table(b, Map::empty(), k);
        lemma_same_label(a, b, k);
    }
    assert(x =~= y);
}

proof fn lemma_same_label(
    a: Seq<(Seq<char>, Seq<char>)>,
    b: Seq<(Seq<char>, Seq<char>)>,
    k: Seq<char>,
)
    requires
        proper_labels(a),
        proper_labels(b),
        forall|l: (Seq<char>, Seq<char>)| a.contains(l) <==> b.contains(l),
    ensures
        label_table(a, Map::empty()).contains_key(k) ==> label_table(b, Map::empty()).contains_key(
            k,
        ) && label_table(a, Map::empty())[k] == label_table(b, Map::empty())[k],
{
    lemma_label_table(a, Map::empty(), k);
    lemma_label_table(b, Map::empty(), k);
    if label_table(a, Map::empty()).contains_key(k) {
        let i = choose|i: int| 0 <= i < a.len() && (#[trigger] a[i]).0 == k;
        assert(a.contains(a[i]));
        assert(b.contains(a[i]));
        let j = choose|j: int| 0 <= j < b.len() && b[j] == a[i];
        assert(b[j].0 == k);
    }
}

// ------------------------------------------------------------------------------------------
//  What a scrape keeps
// ------------------------------------------------------------------------------------------

proof fn lemma_plain_run(s: Seq<char>, from: int, to: int)
    requires
        0 <= from <= to <= s.len(),
        forall|k: int| from <= k < to ==> (#[trigger] s[k]) != '"' && !text::white(s[k]),
    ensures
        key_end(s, from, false, false) == key_end(s, to, false, false),
    decreases to - from,
{
    if from < to {
        lemma_plain_run(s, from + 1, to);
    }
}

proof fn lemma_escaped_run(s: Seq<char>, from: int, v: Seq<char>)
    requires
        0 <= from,
        from + escaped(v).len() <= s.len(),
        s.subrange(from, from + escaped(v).len()) == escaped(v),
    ensures
        key_end(s, from, true, false) == key_end(s, from + escaped(v).len(), true, false),
    decreases v.len(),
{
    if v.len() > 0 {
        lemma_escaped_front(v);
        let head = escaped_char(v[0]);
        let n = head.len() as int;
        let rest = escaped(v.skip(1));
        let part = s.subrange(from, from + escaped(v).len());
        assert(part == head + rest);
        assert(s[from] == part[0]);
        if n == 2 {
            assert(s[from + 1] == part[1]);
        }
        assert(s.subrange(from + n, from + n + rest.len()) =~= rest) by {
            assert forall|i: int| 0 <= i < rest.len() implies s.subrange(
                from + n,
                from + n + rest.len(),
            )[i] == rest[i] by {
                assert(part[n + i] == rest[i]);
            }
        }
        lemma_escaped_run(s, from + n, v.skip(1));
        if n == 2 {
            assert(key_end(s, from, true, false) == key_end(s, from + 1, true, true));
            assert(key_end(s, from + 1, true, true) == key_end(s, from + 2, true, false));
        }
    }
}

proof fn lemma_name_plain(name: Seq<char>, colons: bool)
    requires
        is_name(name, colons),
    ensures
        forall|k: int|
            0 <= k < name.len() ==> (#[trigger] name[k]) != '"' && !text::white(name[k]) && name[k]
                != '{',
{
    assert forall|k: int| 0 <= k < name.len() implies (#[trigger] name[k]) != '"' && !text::white(
        name[k],
    ) && name[k] != '{' by {
        assert(letter(name[k]) || name[k] == '_' || (colons && name[k] == ':') || (k > 0
            && number::is_digit(name[k])));
    }
}

proof fn lemma_label_run(s: Seq<char>, from: int, key: Seq<char>, value: Seq<char>)
    requires
        0 <= from,
        from + label_text(key, value).len() <= s.len(),
        s.subrange(from, from + label_text(key, value).len()) == label_text(key, value),
        is_name(key, false),
    ensures
        key_end(s, from, false, false) == key_end(
            s,
            from + label_text(key, value).len(),
            false,
            false,
        ),
{
    reveal_strlit("=\"");
    reveal_strlit("\"");
    let text = label_text(key, value);
    let part = s.subrange(from, from + text.len());
    let n = key.len() as int;
    let e = escaped(value);
    lemma_name_plain(key, false);
    assert forall|k: int| from <= k < from + n + 1 implies (#[trigger] s[k]) != '"' && !text::white(
        s[k],
    ) by {
        assert(part[k - from] == s[k]);
        if k < from + n {
            assert(part[k - from] == key[k - from]);
        } else {
            assert(part[n] == '=');
        }
    }
    lemma_plain_run(s, from, from + n + 1);
    assert(s[from + n + 1] == part[n + 1]);
    assert(part[n + 1] == '"');
    assert(s.subrange(from + n + 2, from + n + 2 + e.len()) =~= e) by {
        assert forall|i: int| 0 <= i < e.len() implies s.subrange(
            from + n + 2,
            from + n + 2 + e.len(),
        )[i] == e[i] by {
            assert(part[n + 2 + i] == e[i]);
        }
    }
    lemma_escaped_run(s, from + n + 2, value);
    let last = from + n + 2 + e.len();
    assert(s[last] == part[n + 2 + e.len()]);
    assert(part[n + 2 + e.len()] == '"');
    assert(last + 1 == from + text.len());
}

proof fn lemma_line_run(s: Seq<char>, from: int, list: Seq<(Seq<char>, Seq<char>)>)
    requires
        0 <= from,
        from + label_line(list).len() <= s.len(),
        s.subrange(from, from + label_line(list).len()) == label_line(list),
        proper_labels(list),
    ensures
        key_end(s, from, false, false) == key_end(s, from + label_line(list).len(), false, false),
    decreases list.len(),
{
    if list.len() > 0 {
        let (key, value) = list[0];
        let first = label_text(key, value);
        let whole = label_line(list);
        let part = s.subrange(from, from + whole.len());
        if list.len() == 1 {
            lemma_label_run(s, from, key, value);
        } else {
            reveal_strlit(",");
            let rest = list.skip(1);
            let more = label_line(rest);
            let n = first.len() as int;
            assert(whole == first + ","@ + more);
            assert(s.subrange(from, from + n) =~= first) by {
                assert forall|i: int| 0 <= i < n implies s.subrange(from, from + n)[i]
                    == first[i] by {
                    assert(part[i] == first[i]);
                }
            }
            lemma_label_run(s, from, key, value);
            assert(s[from + n] == part[n]);
            assert(part[n] == ',');
            lemma_plain_run(s, from + n, from + n + 1);
            assert(s.subrange(from + n + 1, from + n + 1 + more.len()) =~= more) by {
                assert forall|i: int| 0 <= i < more.len() implies s.subrange(
                    from + n + 1,
                    from + n + 1 + more.len(),
                )[i] == more[i] by {
                    assert(part[n + 1 + i] == more[i]);
                }
            }
            lemma_rest_proper(list);
            lemma_line_run(s, from + n + 1, rest);
        }
    }
}

proof fn lemma_rest_proper(list: Seq<(Seq<char>, Seq<char>)>)
    requires
        proper_labels(list),
        list.len() > 0,
    ensures
        proper_labels(list.skip(1)),
{
    let rest = list.skip(1);
    assert forall|i: int| 0 <= i < rest.len() implies is_name((#[trigger] rest[i]).0, false) by {
        assert(rest[i] == list[i + 1]);
    }
    assert forall|i: int, j: int| 0 <= i < j < rest.len() implies (#[trigger] rest[i]).0 != (
    #[trigger] rest[j]).0 by {
        assert(rest[i] == list[i + 1]);
        assert(rest[j] == list[j + 1]);
    }
}

/// The key of a series with its labels in some order, as a line may give it.
pub open spec fn written_key(name: Seq<char>, list: Seq<(Seq<char>, Seq<char>)>) -> Seq<char> {
    if list.len() == 0 {
        name
    } else {
        name + "{"@ + label_line(list) + "}"@
    }
}

/// A sample line is read as it was written, whatever the values of its labels hold: what stands
/// behind the key, from its first blank on, is said of the series of that name with those labels.
pub proof fn a_sample_reads_back(
    name: Seq<char>,
    list: Seq<(Seq<char>, Seq<char>)>,
    rest: Seq<char>,
)
    requires
        is_name(name, true),
        proper_labels(list),
        rest.len() > 0,
        text::white(rest[0]),
    ensures
        sample_of(written_key(name, list) + rest) == measured(
            canonical(name, label_table(list, Map::empty())),
            text::words(rest),
        ),
{
    reveal_strlit("{");
    reveal_strlit("}");
    let key = written_key(name, list);
    let s = key + rest;
    let n = name.len() as int;
    let end = key.len() as int;
    lemma_name_plain(name, true);
    assert forall|k: int| 0 <= k < n implies (#[trigger] s[k]) != '"' && !text::white(s[k]) by {
        assert(s[k] == name[k]);
    }
    lemma_plain_run(s, 0, n);
    assert(s[end] == rest[0]);
    if list.len() > 0 {
        let line = label_line(list);
        assert(s[n] == '{');
        lemma_plain_run(s, n, n + 1);
        assert(s.subrange(n + 1, n + 1 + line.len()) =~= line);
        lemma_line_run(s, n + 1, list);
        assert(s[n + 1 + line.len()] == '}');
        lemma_plain_run(s, n + 1 + line.len(), end);
    }
    assert(key_end(s, 0, false, false) == Some(end));
    assert(s.take(end) =~= key);
    text::lemma_first_index(key, '{');
    let i = text::first_index(key, '{');
    if list.len() > 0 {
        assert(key[n] == '{');
        if i < n {
            assert(key[i] == name[i]);
        }
        assert(i == n);
        assert(key.take(n) =~= name);
        assert(key.skip(n) =~= "{"@ + label_line(list) + "}"@);
        labels_read_back(list);
    } else {
        if i < n {
            assert(key[i] == name[i]);
        }
        assert(i == n);
        assert(key.take(n) =~= name);
        assert(key.skip(n) =~= Seq::<char>::empty());
    }
    assert(s.skip(end) =~= rest);
}

proof fn lemma_line_grows(list: Seq<(Seq<char>, Seq<char>)>)
    requires
        list.len() > 1,
    ensures
        label_line(list) == label_line(list.drop_last()) + ","@ + label_text(
            list.last().0,
            list.last().1,
        ),
    decreases list.len(),
{
    let front = list.drop_last();
    if list.len() == 2 {
        assert(list.skip(1)[0] == list.last());
        assert(label_line(list.skip(1)) == label_text(list.last().0, list.last().1));
        assert(front[0] == list[0]);
        assert(label_line(front) == label_text(list[0].0, list[0].1));
    } else {
        lemma_line_grows(list.skip(1));
        assert(list.skip(1).drop_last() =~= front.skip(1));
        assert(list.skip(1).last() == list.last());
        assert(front[0] == list[0]);
        assert(label_line(list) =~= label_line(front) + ","@ + label_text(
            list.last().0,
            list.last().1,
        ));
    }
}

/// The labels of a table in the order of some names.
pub open spec fn labels_by(
    keys: Seq<Seq<char>>,
    labels: Map<Seq<char>, Seq<char>>,
) -> Seq<(Seq<char>, Seq<char>)> {
    keys.map_values(|k: Seq<char>| (k, labels[k]))
}

proof fn lemma_joined_line(keys: Seq<Seq<char>>, labels: Map<Seq<char>, Seq<char>>)
    ensures
        joined(keys, labels) == label_line(labels_by(keys, labels)),
    decreases keys.len(),
{
    let list = labels_by(keys, labels);
    if keys.len() > 1 {
        lemma_joined_line(keys.drop_last(), labels);
        assert(labels_by(keys.drop_last(), labels) =~= list.drop_last());
        lemma_line_grows(list);
    }
}

/// A canonical key is its own: a line that gives it is read under that very key.
pub proof fn a_canonical_key_reads_back(
    name: Seq<char>,
    keys: Seq<Seq<char>>,
    labels: Map<Seq<char>, Seq<char>>,
    rest: Seq<char>,
)
    requires
        is_name(name, true),
        lists_names(keys, labels),
        forall|i: int| 0 <= i < keys.len() ==> is_name(#[trigger] keys[i], false),
        rest.len() > 0,
        text::white(rest[0]),
    ensures
        sample_of(canonical(name, labels) + rest) == measured(
            canonical(name, labels),
            text::words(rest),
        ),
{
    let list = labels_by(keys, labels);
    lemma_names(keys, labels);
    lemma_joined_line(keys, labels);
    named::lemma_distinct(keys);
    assert(proper_labels(list)) by {
        assert forall|i: int| 0 <= i < list.len() implies is_name(
            (#[trigger] list[i]).0,
            false,
        ) by {
            assert(list[i].0 == keys[i]);
        }
        assert forall|i: int, j: int| 0 <= i < j < list.len() implies (#[trigger] list[i]).0 != (
        #[trigger] list[j]).0 by {
            assert(list[i].0 == keys[i] && list[j].0 == keys[j]);
        }
    }
    assert(written_key(name, list) == canonical(name, labels));
    a_sample_reads_back(name, list, rest);
    let read = label_table(list, Map::empty());
    assert forall|k: Seq<char>| (#[trigger] read.contains_key(k) <==> labels.contains_key(k)) && (
    labels.contains_key(k) ==> read[k] == labels[k]) by {
        lemma_label_table(list, Map::empty(), k);
        if labels.contains_key(k) {
            assert(keys.contains(k));
            let i = choose|i: int| 0 <= i < keys.len() && keys[i] == k;
            assert(list[i].0 == k);
        } else {
            assert forall|i: int| 0 <= i < list.len() implies (#[trigger] list[i]).0 != k by {
                assert(list[i].0 == keys[i]);
                assert(keys.contains(keys[i]));
            }
        }
    }
    assert(read =~= labels);
}

/// The order in which a line gives its labels makes no difference to what it says, with or without
/// the time of its sample.
pub proof fn lines_with_the_same_labels_say_the_same(
    name: Seq<char>,
    a: Seq<(Seq<char>, Seq<char>)>,
    b: Seq<(Seq<char>, Seq<char>)>,
    rest: Seq<char>,
)
    requires
        is_name(name, true),
        proper_labels(a),
        proper_labels(b),
        forall|l: (Seq<char>, Seq<char>)| a.contains(l) <==> b.contains(l),
        rest.len() > 0,
        text::white(rest[0]),
    ensures
        sample_of(written_key(name, a) + rest) == sample_of(written_key(name, b) + rest),
{
    a_sample_reads_back(name, a, rest);
    a_sample_reads_back(name, b, rest);
    label_order_does_not_matter(name, a, b);
}

/// What a line of a scrape says; nothing where it holds no sample.
pub open spec fn line_says(line: Seq<char>) -> Option<Result<(Seq<char>, Seq<char>), Seq<char>>> {
    let t = text::trimmed(line);
    if no_sample(t) {
        None
    } else {
        Some(sample_of(t))
    }
}

/// A line gives that sample.
pub open spec fn gives(line: Seq<char>, s: (Seq<char>, Seq<char>)) -> bool {
    line_says(line) == Some(Ok::<(Seq<char>, Seq<char>), Seq<char>>(s))
}

/// A line may stand beside others: it is not malformed, and its series is none of theirs.
pub open spec fn fits_beside(line: Seq<char>, others: Seq<Seq<char>>) -> bool {
    match line_says(line) {
        None => true,
        Some(Err(_)) => false,
        Some(Ok(s)) => forall|i: int, w: Seq<char>|
            0 <= i < others.len() ==> !(#[trigger] gives(others[i], (s.0, w))),
    }
}

/// Lines that make up a scrape: each fits beside those before it.
pub open spec fn readable(lines: Seq<Seq<char>>) -> bool
    decreases lines.len(),
{
    lines.len() > 0 ==> readable(lines.drop_last()) && fits_beside(lines.last(), lines.drop_last())
}

/// The samples of a scrape are those that its lines give.
pub open spec fn are_the_samples(
    samples: Seq<(Seq<char>, Seq<char>)>,
    lines: Seq<Seq<char>>,
) -> bool {
    forall|s: (Seq<char>, Seq<char>)| #[trigger]
        samples.contains(s) <==> exists|i: int| 0 <= i < lines.len() && gives(#[trigger] lines[i], s)
}

proof fn lemma_samples(lines: Seq<Seq<char>>)
    ensures
        samples_of(lines) is Ok <==> readable(lines),
        samples_of(lines) matches Ok(w) ==> are_the_samples(w, lines),
    decreases lines.len(),
{
    if lines.len() > 0 {
        let rest = lines.drop_last();
        let last = lines.last();
        let n = rest.len() as int;
        lemma_samples(rest);
        assert(lines[n] == last);
        if let Ok(before) = samples_of(rest) {
            if let Some(Ok(s)) = line_says(last) {
                assert(has_key(before, s.0) <==> !fits_beside(last, rest)) by {
                    if has_key(before, s.0) {
                        let j = choose|j: int|
                            0 <= j < before.len() && (#[trigger] before[j]).0 == s.0;
                        assert(before.contains(before[j]));
                        let i = choose|i: int|
                            0 <= i < rest.len() && gives(#[trigger] rest[i], before[j]);
                        assert(gives(rest[i], (s.0, before[j].1)));
                    }
                    if !fits_beside(last, rest) {
                        let (i, w) = choose|i: int, w: Seq<char>|
                            0 <= i < rest.len() && #[trigger] gives(rest[i], (s.0, w));
                        assert(before.contains((s.0, w)));
                        let j = choose|j: int| 0 <= j < before.len() && before[j] == (s.0, w);
                        assert(before[j].0 == s.0);
                    }
                }
            }
        }
        if let Ok(w) = samples_of(lines) {
            let before = samples_of(rest)->Ok_0;
            assert forall|s: (Seq<char>, Seq<char>)| #[trigger] w.contains(s) <==> exists|i: int|
                0 <= i < lines.len() && gives(#[trigger] lines[i], s) by {
                if w.contains(s) {
                    let j = choose|j: int| 0 <= j < w.len() && w[j] == s;
                    if j < before.len() {
                        assert(before[j] == s);
                        assert(before.contains(s));
                        let i = choose|i: int| 0 <= i < rest.len() && gives(#[trigger] rest[i], s);
                        assert(lines[i] == rest[i]);
                    } else {
                        assert(gives(lines[n], s));
                    }
                }
                if exists|i: int| 0 <= i < lines.len() && gives(#[trigger] lines[i], s) {
                    let i = choose|i: int| 0 <= i < lines.len() && gives(#[trigger] lines[i], s);
                    if i < n {
                        assert(rest[i] == lines[i]);
                        assert(before.contains(s));
                        let j = choose|j: int| 0 <= j < before.len() && before[j] == s;
                        assert(w[j] == s);
                    } else {
                        assert(w[w.len() - 1] == s);
                    }
                }
            }
        }
    }
}

/// Lines are readable where each but one is among the others, and that one fits beside them.
proof fn lemma_readable_without(lines: Seq<Seq<char>>, j: int)
    requires
        0 <= j < lines.len(),
    ensures
        readable(lines) <==> readable(lines.remove(j)) && fits_beside(lines[j], lines.remove(j)),
    decreases lines.len(),
{
    let n = lines.len() - 1;
    let others = lines.remove(j);
    if j == n {
        assert(others =~= lines.drop_last());
    } else {
        let rest = lines.drop_last();
        lemma_readable_without(rest, j);
        let x = lines[j];
        let y = lines.last();
        let core = rest.remove(j);
        assert(others.drop_last() =~= core);
        assert(others.last() == y);
        assert(rest[j] == x);
        lemma_beside(y, core, x, rest, j);
        assert(others =~= core.push(y));
        lemma_beside_pushed(x, core, y);
        lemma_beside_each_other(x, y);
    }
}

/// Two lines fit beside each other, whichever is asked.
proof fn lemma_beside_each_other(x: Seq<char>, y: Seq<char>)
    ensures
        line_says(x) matches Some(Ok(_)) ==> line_says(y) matches Some(Ok(_)) ==> fits_beside(
            x,
            seq![y],
        ) == fits_beside(y, seq![x]),
{
    if let Some(Ok(s)) = line_says(x) {
        if let Some(Ok(t)) = line_says(y) {
            assert(seq![y][0] == y);
            assert(seq![x][0] == x);
            if s.0 == t.0 {
                assert(gives(seq![y][0], (s.0, t.1)));
                assert(gives(seq![x][0], (t.0, s.1)));
            }
        }
    }
}

/// A line fits beside a list with one more where it fits beside the list and beside that one.
proof fn lemma_beside_pushed(x: Seq<char>, list: Seq<Seq<char>>, y: Seq<char>)
    ensures
        fits_beside(x, list.push(y)) <==> fits_beside(x, list) && fits_beside(x, seq![y]),
{
    let more = list.push(y);
    if let Some(Ok(s)) = line_says(x) {
        assert(more[list.len() as int] == y);
        assert(seq![y][0] == y);
        if !fits_beside(x, list) {
            let (i, w) = choose|i: int, w: Seq<char>|
                0 <= i < list.len() && #[trigger] gives(list[i], (s.0, w));
            assert(gives(more[i], (s.0, w)));
        }
        if !fits_beside(x, seq![y]) {
            let (i, w) = choose|i: int, w: Seq<char>|
                0 <= i < seq![y].len() && #[trigger] gives(seq![y][i], (s.0, w));
            assert(gives(more[list.len() as int], (s.0, w)));
        }
        if !fits_beside(x, more) {
            let (i, w) = choose|i: int, w: Seq<char>|
                0 <= i < more.len() && #[trigger] gives(more[i], (s.0, w));
            if i < list.len() {
                assert(gives(list[i], (s.0, w)));
            } else {
                assert(gives(seq![y][0], (s.0, w)));
            }
        }
    }
}

/// A line fits beside a list where it fits beside the list without one, and beside that one.
proof fn lemma_beside(
    y: Seq<char>,
    core: Seq<Seq<char>>,
    x: Seq<char>,
    whole: Seq<Seq<char>>,
    j: int,
)
    requires
        0 <= j < whole.len(),
        whole[j] == x,
        core == whole.remove(j),
    ensures
        fits_beside(y, whole) <==> fits_beside(y, core) && fits_beside(y, seq![x]),
{
    if let Some(Ok(s)) = line_says(y) {
        assert(seq![x][0] == x);
        if !fits_beside(y, core) {
            let (i, w) = choose|i: int, w: Seq<char>|
                0 <= i < core.len() && #[trigger] gives(core[i], (s.0, w));
            let i0 = if i < j { i } else { i + 1 };
            assert(whole[i0] == core[i]);
            assert(gives(whole[i0], (s.0, w)));
        }
        if !fits_beside(y, seq![x]) {
            let (i, w) = choose|i: int, w: Seq<char>|
                0 <= i < seq![x].len() && #[trigger] gives(seq![x][i], (s.0, w));
            assert(gives(whole[j], (s.0, w)));
        }
        if !fits_beside(y, whole) {
            let (i, w) = choose|i: int, w: Seq<char>|
                0 <= i < whole.len() && #[trigger] gives(whole[i], (s.0, w));
            if i == j {
                assert(gives(seq![x][0], (s.0, w)));
            } else {
                let i0 = if i < j { i } else { i - 1 };
                assert(core[i0] == whole[i]);
                assert(gives(core[i0], (s.0, w)));
            }
        }
    }
}

proof fn lemma_readable_in_any_order(a: Seq<Seq<char>>, b: Seq<Seq<char>>)
    requires
        a.to_multiset() == b.to_multiset(),
    ensures
        readable(a) <==> readable(b),
        forall|l: Seq<char>| a.contains(l) <==> b.contains(l),
    decreases a.len(),
{
    broadcast use vstd::seq_lib::group_to_multiset_ensures;

    assert(a.to_multiset().len() == a.len());
    assert(b.to_multiset().len() == b.len());
    assert forall|l: Seq<char>| a.contains(l) <==> b.contains(l) by {
        assert(a.contains(l) <==> a.to_multiset().count(l) > 0);
        assert(b.contains(l) <==> b.to_multiset().count(l) > 0);
    }
    if a.len() > 0 {
        let x = a.last();
        assert(a.contains(x));
        assert(b.contains(x));
        let j = choose|j: int| 0 <= j < b.len() && b[j] == x;
        let rest = a.drop_last();
        let others = b.remove(j);
        assert(rest =~= a.remove(a.len() - 1));
        assert(rest.to_multiset() =~= others.to_multiset());
        lemma_readable_in_any_order(rest, others);
        lemma_readable_without(b, j);
        assert(fits_beside(x, rest) <==> fits_beside(x, others)) by {
            if let Some(Ok(s)) = line_says(x) {
                if !fits_beside(x, rest) {
                    let (i, w) = choose|i: int, w: Seq<char>|
                        0 <= i < rest.len() && #[trigger] gives(rest[i], (s.0, w));
                    assert(rest.contains(rest[i]));
                    assert(others.contains(rest[i]));
                    let k = choose|k: int| 0 <= k < others.len() && others[k] == rest[i];
                    assert(gives(others[k], (s.0, w)));
                }
                if !fits_beside(x, others) {
                    let (i, w) = choose|i: int, w: Seq<char>|
                        0 <= i < others.len() && #[trigger] gives(others[i], (s.0, w));
                    assert(others.contains(others[i]));
                    assert(rest.contains(others[i]));
                    let k = choose|k: int| 0 <= k < rest.len() && rest[k] == others[i];
                    assert(gives(rest[k], (s.0, w)));
                }
            }
        }
    }
}

/// The order of the lines of a scrape makes no difference: it is accepted or not in any order, and
/// holds the same samples.
pub proof fn the_order_of_lines_does_not_matter(a: Seq<Seq<char>>, b: Seq<Seq<char>>)
    requires
        a.to_multiset() == b.to_multiset(),
    ensures
        samples_of(a) is Ok <==> samples_of(b) is Ok,
        samples_of(a) is Ok ==> forall|s: (Seq<char>, Seq<char>)| #[trigger]
            samples_of(a)->Ok_0.contains(s) <==> samples_of(b)->Ok_0.contains(s),
{
    lemma_readable_in_any_order(a, b);
    lemma_samples(a);
    lemma_samples(b);
    if samples_of(a) is Ok {
        let x = samples_of(a)->Ok_0;
        let y = samples_of(b)->Ok_0;
        assert forall|s: (Seq<char>, Seq<char>)| #[trigger] x.contains(s) <==> y.contains(s) by {
            if x.contains(s) {
                let i = choose|i: int| 0 <= i < a.len() && gives(#[trigger] a[i], s);
                assert(a.contains(a[i]));
                assert(b.contains(a[i]));
                let j = choose|j: int| 0 <= j < b.len() && b[j] == a[i];
                assert(gives(b[j], s));
            }
            if y.contains(s) {
                let i = choose|i: int| 0 <= i < b.len() && gives(#[trigger] b[i], s);
                assert(b.contains(b[i]));
                assert(a.contains(b[i]));
                let j = choose|j: int| 0 <= j < a.len() && a[j] == b[i];
                assert(gives(a[j], s));
            }
        }
    }
}

/// The lines of a scrape that hold a sample.
pub open spec fn sample_lines(lines: Seq<Seq<char>>) -> Seq<Seq<char>> {
    lines.filter(|l: Seq<char>| line_says(l) is Some)
}

/// A scrape that is accepted holds one sample for each line that is neither empty nor a comment.
pub proof fn every_sample_line_gives_a_sample(lines: Seq<Seq<char>>)
    ensures
        samples_of(lines) matches Ok(w) ==> w.len() == sample_lines(lines).len(),
    decreases lines.len(),
{
    reveal(Seq::filter);
    if lines.len() > 0 {
        every_sample_line_gives_a_sample(lines.drop_last());
    }
}

/// Lines that say the same may stand for each other.
proof fn lemma_lines_exchanged(a: Seq<Seq<char>>, b: Seq<Seq<char>>)
    requires
        a.len() == b.len(),
        forall|i: int| 0 <= i < a.len() ==> line_says(#[trigger] a[i]) == line_says(b[i]),
    ensures
        samples_of(a) == samples_of(b),
        sample_lines(a).len() == sample_lines(b).len(),
    decreases a.len(),
{
    reveal(Seq::filter);
    if a.len() > 0 {
        let n = a.len() - 1;
        assert forall|i: int| 0 <= i < n implies line_says(#[trigger] a.drop_last()[i])
            == line_says(b.drop_last()[i]) by {
            assert(a[i] == a.drop_last()[i]);
        }
        lemma_lines_exchanged(a.drop_last(), b.drop_last());
        assert(line_says(a[n]) == line_says(b[n]));
    }
}

/// Reordering a scrape changes nothing: where the lines of `a` say what those of `b` say, such as
/// under another order of their labels, and `c` has the lines of `b` in another order, `a` and `c`
/// are both accepted or both refused, and hold the same samples, one for each line that has one.
pub proof fn reordering_a_scrape_changes_nothing(
    a: Seq<Seq<char>>,
    b: Seq<Seq<char>>,
    c: Seq<Seq<char>>,
)
    requires
        a.len() == b.len(),
        forall|i: int| 0 <= i < a.len() ==> line_says(#[trigger] a[i]) == line_says(b[i]),
        b.to_multiset() == c.to_multiset(),
    ensures
        samples_of(a) is Ok <==> samples_of(c) is Ok,
        samples_of(a) is Ok ==> {
            let x = samples_of(a)->Ok_0;
            let y = samples_of(c)->Ok_0;
            &&& x.len() == sample_lines(a).len()
            &&& y.len() == sample_lines(c).len()
            &&& forall|s: (Seq<char>, Seq<char>)| #[trigger] x.contains(s) <==> y.contains(s)
        },
{
    lemma_lines_exchanged(a, b);
    the_order_of_lines_does_not_matter(b, c);
    every_sample_line_gives_a_sample(a);
    every_sample_line_gives_a_sample(c);
}

/// A series has one value: no two samples of a scrape that is accepted are of the same series.
pub proof fn a_series_comes_once(lines: Seq<Seq<char>>)
    ensures
        samples_of(lines) matches Ok(w) ==> forall|i: int, j: int|
            0 <= i < j < w.len() ==> (#[trigger] w[i]).0 != (#[trigger] w[j]).0,
    decreases lines.len(),
{
    if lines.len() > 0 {
        a_series_comes_once(lines.drop_last());
        if let Ok(w) = samples_of(lines) {
            let before = samples_of(lines.drop_last())->Ok_0;
            assert forall|i: int, j: int| 0 <= i < j < w.len() implies (#[trigger] w[i]).0 != (
            #[trigger] w[j]).0 by {
                assert(w[i] == before[i]);
                if j < before.len() {
                    assert(w[j] == before[j]);
                }
            }
        }
    }
}

proof fn lemma_key_parts(name: Seq<char>, list: Seq<(Seq<char>, Seq<char>)>)
    requires
        is_name(name, true),
        proper_labels(list),
    ensures
        split_key(written_key(name, list)).0 == name,
        labels_of(split_key(written_key(name, list)).1) == Ok::<
            Map<Seq<char>, Seq<char>>,
            Seq<char>,
        >(label_table(list, Map::empty())),
{
    reveal_strlit("{");
    reveal_strlit("}");
    let key = written_key(name, list);
    let n = name.len() as int;
    lemma_name_plain(name, true);
    text::lemma_first_index(key, '{');
    let i = text::first_index(key, '{');
    if list.len() > 0 {
        assert(key[n] == '{');
    }
    if i < n {
        assert(key[i] == name[i]);
    }
    assert(i == n);
    assert(key.take(n) =~= name);
    if list.len() > 0 {
        assert(key.skip(n) =~= "{"@ + label_line(list) + "}"@);
        labels_read_back(list);
    } else {
        assert(key.skip(n) =~= Seq::<char>::empty());
        assert(label_table(list, Map::empty()) =~= Map::<Seq<char>, Seq<char>>::empty());
    }
}

/// The key of a series tells its name and its labels, whatever their values hold.
pub proof fn a_key_tells_its_series(
    name: Seq<char>,
    keys: Seq<Seq<char>>,
    labels: Map<Seq<char>, Seq<char>>,
)
    requires
        is_name(name, true),
        lists_names(keys, labels),
        forall|i: int| 0 <= i < keys.len() ==> is_name(#[trigger] keys[i], false),
    ensures
        split_key(canonical(name, labels)).0 == name,
        labels_of(split_key(canonical(name, labels)).1) == Ok::<
            Map<Seq<char>, Seq<char>>,
            Seq<char>,
        >(labels),
{
    let list = labels_by(keys, labels);
    lemma_names(keys, labels);
    lemma_joined_line(keys, labels);
    named::lemma_distinct(keys);
    assert(proper_labels(list)) by {
        assert forall|i: int| 0 <= i < list.len() implies is_name(
            (#[trigger] list[i]).0,
            false,
        ) by {
            assert(list[i].0 == keys[i]);
        }
        assert forall|i: int, j: int| 0 <= i < j < list.len() implies (#[trigger] list[i]).0 != (
        #[trigger] list[j]).0 by {
            assert(list[i].0 == keys[i] && list[j].0 == keys[j]);
        }
    }
    assert(written_key(name, list) == canonical(name, labels));
    lemma_key_parts(name, list);
    let read = label_table(list, Map::empty());
    assert forall|k: Seq<char>| (#[trigger] read.contains_key(k) <==> labels.contains_key(k)) && (
    labels.contains_key(k) ==> read[k] == labels[k]) by {
        lemma_label_table(list, Map::empty(), k);
        if labels.contains_key(k) {
            assert(keys.contains(k));
            let i = choose|i: int| 0 <= i < keys.len() && keys[i] == k;
            assert(list[i].0 == k);
        } else {
            assert forall|i: int| 0 <= i < list.len() implies (#[trigger] list[i]).0 != k by {
                assert(list[i].0 == keys[i]);
                assert(keys.contains(keys[i]));
            }
        }
    }
    assert(read =~= labels);
}

/// Two series have the same key only if they have the same name and the same labels.
pub proof fn different_series_have_different_keys(
    a: Seq<char>,
    a_keys: Seq<Seq<char>>,
    a_labels: Map<Seq<char>, Seq<char>>,
    b: Seq<char>,
    b_keys: Seq<Seq<char>>,
    b_labels: Map<Seq<char>, Seq<char>>,
)
    requires
        is_name(a, true) && is_name(b, true),
        lists_names(a_keys, a_labels) && lists_names(b_keys, b_labels),
        forall|i: int| 0 <= i < a_keys.len() ==> is_name(#[trigger] a_keys[i], false),
        forall|i: int| 0 <= i < b_keys.len() ==> is_name(#[trigger] b_keys[i], false),
        canonical(a, a_labels) == canonical(b, b_labels),
    ensures
        a == b,
        a_labels == b_labels,
{
    a_key_tells_its_series(a, a_keys, a_labels);
    a_key_tells_its_series(b, b_keys, b_labels);
}

/// What a sample line gives is the first word behind its key, and only where that is a number and at
/// most one word follows it, a whole number: the time. Everything else is refused.
pub proof fn a_sample_is_its_first_word(
    name: Seq<char>,
    list: Seq<(Seq<char>, Seq<char>)>,
    rest: Seq<char>,
)
    requires
        is_name(name, true),
        proper_labels(list),
        rest.len() > 0,
        text::white(rest[0]),
    ensures
        ({
            let w = text::words(rest);
            let read = sample_of(written_key(name, list) + rest);
            &&& read is Ok <==> (w.len() == 1 || (w.len() == 2 && number::signed_value(w[1]) is Some))
                && number::is_real(w[0])
            &&& read is Ok ==> read->Ok_0 == (
                canonical(name, label_table(list, Map::empty())),
                w[0],
            )
        }),
{
    a_sample_reads_back(name, list, rest);
}

/// A line says nothing where it is blank or a comment, and else it has to be a sample.
pub proof fn a_comment_says_nothing(line: Seq<char>)
    ensures
        text::trimmed(line).len() == 0 ==> line_says(line) is None,
        text::trimmed(line).len() > 0 && text::trimmed(line)[0] == '#' ==> line_says(line) is None,
        text::trimmed(line).len() > 0 && text::trimmed(line)[0] != '#' ==> line_says(line) == Some(
            sample_of(text::trimmed(line)),
        ),
{
}

} // verus!
