//! Text primitives: searching, splitting, trimming, numbers in and out.
//!
//! A `&str` and a `String` are viewed as the sequence of their characters. The specification
//! functions at the top of each section say what the executable function below them returns.

use vstd::prelude::*;

verus! {

// ------------------------------------------------------------------------------------------
//  Moving between strings and character vectors
// ------------------------------------------------------------------------------------------

/// Trusted: `String::push` appends one character to the end of the string.
pub assume_specification[ String::push ](s: &mut String, c: char)
    ensures
        final(s)@ == old(s)@.push(c),
;

/// Trusted: what `{:?}` writes of a text, in quotes and with its special characters escaped, rests
/// on the text alone.
pub uninterp spec fn debug_form(s: Seq<char>) -> Seq<char>;

/// A text of printable ASCII without quotes and backslashes.
pub open spec fn plain(s: Seq<char>) -> bool {
    forall|i: int| 0 <= i < s.len() ==> ' ' <= #[trigger] s[i] <= '~' && s[i] != '"' && s[i] != '\\'
}

/// Trusted: calls `format!` with `{:?}`, which writes the text between quotes. Printable ASCII but
/// quotes and backslashes stays as it is; what stands for other characters is not said here.
#[verifier::external_body]
pub(crate) fn debug_text(s: &str) -> (r: String)
    ensures
        r@ == debug_form(s@),
        plain(s@) ==> r@ == "\""@ + s@ + "\""@,
{
    format!("{:?}", s)
}

/// The characters of `s`, in order.
pub fn chars_of(s: &str) -> (v: Vec<char>)
    ensures
        v@ == s@,
{
    let mut v: Vec<char> = Vec::new();
    for c in it: s.chars()
        invariant
            it.seq() == s@,
            v@ == s@.take(it.index() as int),
    {
        v.push(c);
        assert(s@.take(it.index() as int).push(c) =~= s@.take(it.index() as int + 1));
    }
    assert(s@.take(s@.len() as int) =~= s@);
    v
}

/// Whether two texts are the same.
pub fn same_text(a: &str, b: &str) -> (same: bool)
    ensures
        same == (a@ == b@),
{
    let x = chars_of(a);
    let y = chars_of(b);
    if x.len() != y.len() {
        return false;
    }
    let mut i: usize = 0;
    while i < x.len()
        invariant
            x@ == a@,
            y@ == b@,
            x@.len() == y@.len(),
            i <= x@.len(),
            forall|k: int| 0 <= k < i ==> x@[k] == y@[k],
        decreases x.len() - i,
    {
        if x[i] != y[i] {
            return false;
        }
        i = i + 1;
    }
    assert(a@ =~= b@);
    true
}

/// The text of `v[from..to]`.
pub fn string_of(v: &Vec<char>, from: usize, to: usize) -> (s: String)
    requires
        from <= to <= v@.len(),
    ensures
        s@ == v@.subrange(from as int, to as int),
{
    let mut s = String::new();
    let mut i: usize = from;
    while i < to
        invariant
            from <= i <= to <= v@.len(),
            s@ == v@.subrange(from as int, i as int),
        decreases to - i,
    {
        s.push(v[i]);
        assert(v@.subrange(from as int, i as int).push(v@[i as int]) =~= v@.subrange(
            from as int,
            i as int + 1,
        ));
        i = i + 1;
    }
    s
}

// ------------------------------------------------------------------------------------------
//  Searching
// ------------------------------------------------------------------------------------------

/// `needle` stands in `hay` at position `i`.
pub open spec fn occurs_at(hay: Seq<char>, needle: Seq<char>, i: int) -> bool {
    0 <= i && i + needle.len() <= hay.len() && hay.subrange(i, i + needle.len()) == needle
}

/// `needle` stands somewhere in `hay`.
pub open spec fn has_text(hay: Seq<char>, needle: Seq<char>) -> bool {
    exists|i: int| #[trigger] occurs_at(hay, needle, i)
}

/// `hay` begins with `needle`.
pub open spec fn begins_with(hay: Seq<char>, needle: Seq<char>) -> bool {
    occurs_at(hay, needle, 0)
}

/// `hay` ends with `needle`.
pub open spec fn ends_with(hay: Seq<char>, needle: Seq<char>) -> bool {
    occurs_at(hay, needle, hay.len() - needle.len())
}

/// Whether `needle` stands in `hay` at a position.
pub(crate) fn matches_at(hay: &Vec<char>, needle: &Vec<char>, at: usize) -> (yes: bool)
    requires
        at <= hay@.len(),
    ensures
        yes == occurs_at(hay@, needle@, at as int),
{
    if needle.len() > hay.len() - at {
        return false;
    }
    let total = hay.len();
    let mut j: usize = 0;
    while j < needle.len()
        invariant
            total == hay@.len(),
            at + needle@.len() <= total,
            j <= needle@.len(),
            forall|k: int| 0 <= k < j ==> hay@[at + k] == needle@[k],
        decreases needle.len() - j,
    {
        if hay[at + j] != needle[j] {
            assert(hay@.subrange(at as int, at + needle@.len())[j as int] != needle@[j as int]);
            return false;
        }
        j = j + 1;
    }
    assert(hay@.subrange(at as int, at + needle@.len()) =~= needle@);
    true
}

/// The first position at or after `from` where `needle` stands in `hay`.
pub fn find_from(hay: &Vec<char>, needle: &Vec<char>, from: usize) -> (found: Option<usize>)
    requires
        from <= hay@.len(),
    ensures
        match found {
            Some(i) => from <= i && occurs_at(hay@, needle@, i as int) && forall|k: int|
                from <= k < i ==> !occurs_at(hay@, needle@, k),
            None => forall|k: int| from <= k ==> !occurs_at(hay@, needle@, k),
        },
{
    let mut i: usize = from;
    loop
        invariant
            from <= i <= hay@.len(),
            forall|k: int| from <= k < i ==> !occurs_at(hay@, needle@, k),
        decreases hay@.len() - i,
    {
        if matches_at(hay, needle, i) {
            return Some(i);
        }
        if i == hay.len() {
            return None;
        }
        i = i + 1;
    }
}

/// Whether `needle` stands somewhere in `hay`.
pub fn contains(hay: &str, needle: &str) -> (yes: bool)
    ensures
        yes == has_text(hay@, needle@),
{
    let h = chars_of(hay);
    let n = chars_of(needle);
    match find_from(&h, &n, 0) {
        Some(i) => {
            assert(occurs_at(hay@, needle@, i as int));
            true
        },
        None => false,
    }
}

/// Whether `hay` begins with `needle`.
pub fn starts_with(hay: &str, needle: &str) -> (yes: bool)
    ensures
        yes == begins_with(hay@, needle@),
{
    let h = chars_of(hay);
    let n = chars_of(needle);
    matches_at(&h, &n, 0)
}

/// What follows `prefix` in `s`, where `s` begins with it.
pub fn strip_prefix(s: &str, prefix: &str) -> (rest: Option<String>)
    ensures
        match rest {
            Some(r) => begins_with(s@, prefix@) && s@ == prefix@ + r@,
            None => !begins_with(s@, prefix@),
        },
{
    let h = chars_of(s);
    let n = chars_of(prefix);
    if matches_at(&h, &n, 0) {
        let r = string_of(&h, n.len(), h.len());
        assert(s@ =~= s@.subrange(0, n@.len() as int) + s@.subrange(
            n@.len() as int,
            s@.len() as int,
        ));
        Some(r)
    } else {
        None
    }
}

/// What precedes `suffix` in `s`, where `s` ends with it.
pub fn strip_suffix(s: &str, suffix: &str) -> (rest: Option<String>)
    ensures
        match rest {
            Some(r) => ends_with(s@, suffix@) && s@ == r@ + suffix@,
            None => !ends_with(s@, suffix@),
        },
{
    let h = chars_of(s);
    let n = chars_of(suffix);
    if n.len() <= h.len() && matches_at(&h, &n, h.len() - n.len()) {
        let cut = h.len() - n.len();
        let r = string_of(&h, 0, cut);
        assert(s@ =~= s@.subrange(0, cut as int) + s@.subrange(cut as int, s@.len() as int));
        Some(r)
    } else {
        None
    }
}

/// What follows `prefix` in `s`, where `s` begins with it.
pub open spec fn after_prefix(s: Seq<char>, prefix: Seq<char>) -> Option<Seq<char>> {
    if begins_with(s, prefix) {
        Some(s.skip(prefix.len() as int))
    } else {
        None
    }
}

/// What precedes `suffix` in `s`, where `s` ends with it.
pub open spec fn before_suffix(s: Seq<char>, suffix: Seq<char>) -> Option<Seq<char>> {
    if ends_with(s, suffix) {
        Some(s.take(s.len() - suffix.len()))
    } else {
        None
    }
}

/// The text of a string, where there is one.
pub open spec fn text_of(s: Option<String>) -> Option<Seq<char>> {
    match s {
        Some(t) => Some(t@),
        None => None,
    }
}

/// What follows `prefix` in `s`, where `s` begins with it.
pub fn past(s: &str, prefix: &str) -> (rest: Option<String>)
    ensures
        text_of(rest) == after_prefix(s@, prefix@),
{
    let rest = strip_prefix(s, prefix);
    if let Some(r) = &rest {
        assert(r@ =~= s@.skip(prefix@.len() as int));
    }
    rest
}

/// What precedes `suffix` in `s`, where `s` ends with it.
pub fn short_of(s: &str, suffix: &str) -> (rest: Option<String>)
    ensures
        text_of(rest) == before_suffix(s@, suffix@),
{
    let rest = strip_suffix(s, suffix);
    if let Some(r) = &rest {
        assert(r@ =~= s@.take(s@.len() - suffix@.len()));
    }
    rest
}

/// The first position at or after `from` where `needle` stands in `hay`.
pub open spec fn first_at(hay: Seq<char>, needle: Seq<char>, from: int) -> Option<int>
    decreases hay.len() + 1 - from,
{
    if from < 0 || from + needle.len() > hay.len() {
        None
    } else if occurs_at(hay, needle, from) {
        Some(from)
    } else {
        first_at(hay, needle, from + 1)
    }
}

/// What stands before and after the first `needle` in `s`.
pub open spec fn cut(s: Seq<char>, needle: Seq<char>) -> Option<(Seq<char>, Seq<char>)> {
    match first_at(s, needle, 0) {
        Some(i) => Some((s.take(i), s.skip(i + needle.len()))),
        None => None,
    }
}

pub proof fn lemma_first_at(hay: Seq<char>, needle: Seq<char>, from: int, found: Option<int>)
    requires
        0 <= from,
        match found {
            Some(i) => from <= i && occurs_at(hay, needle, i) && forall|k: int|
                from <= k < i ==> !occurs_at(hay, needle, k),
            None => forall|k: int| from <= k ==> !occurs_at(hay, needle, k),
        },
    ensures
        first_at(hay, needle, from) == found,
    decreases hay.len() + 1 - from,
{
    if from + needle.len() <= hay.len() && !occurs_at(hay, needle, from) {
        lemma_first_at(hay, needle, from + 1, found);
    }
}

/// The two parts of a text and what they were cut at make up the text.
pub proof fn lemma_cut(s: Seq<char>, needle: Seq<char>)
    ensures
        cut(s, needle) matches Some((a, b)) ==> a.len() + needle.len() + b.len() == s.len() && s
            == a + needle + b,
{
    lemma_first_found(s, needle, 0);
    if let Some(i) = first_at(s, needle, 0) {
        assert(s =~= s.take(i) + s.subrange(i, i + needle.len()) + s.skip(i + needle.len()));
    }
}

/// A first position is a position.
pub proof fn lemma_first_found(hay: Seq<char>, needle: Seq<char>, from: int)
    requires
        0 <= from,
    ensures
        first_at(hay, needle, from) matches Some(i) ==> from <= i && occurs_at(hay, needle, i)
            && forall|k: int| from <= k < i ==> !occurs_at(hay, needle, k),
        first_at(hay, needle, from) is None ==> forall|k: int|
            from <= k ==> !occurs_at(hay, needle, k),
    decreases hay.len() + 1 - from,
{
    if from + needle.len() <= hay.len() && !occurs_at(hay, needle, from) {
        lemma_first_found(hay, needle, from + 1);
    }
}

/// What stands before and after the first `needle` in `s`.
pub fn split_once(s: &str, needle: &str) -> (r: Option<(String, String)>)
    ensures
        match r {
            Some((a, b)) => cut(s@, needle@) == Some((a@, b@)),
            None => cut(s@, needle@) is None,
        },
{
    let h = chars_of(s);
    let n = chars_of(needle);
    match find_from(&h, &n, 0) {
        Some(i) => {
            assert(occurs_at(h@, n@, i as int));
            proof {
                lemma_first_at(s@, needle@, 0, Some(i as int));
            }
            let end: usize = h.len();
            let a = string_of(&h, 0, i);
            let b = string_of(&h, i + n.len(), end);
            assert(a@ =~= s@.take(i as int));
            assert(b@ =~= s@.skip(i + needle@.len()));
            Some((a, b))
        },
        None => {
            proof {
                lemma_first_at(s@, needle@, 0, None);
            }
            None
        },
    }
}

/// The position of the first `c` in `s`, or the length of `s` where there is none.
pub open spec fn first_index(s: Seq<char>, c: char) -> int
    decreases s.len(),
{
    if s.len() == 0 || s[0] == c {
        0
    } else {
        1 + first_index(s.drop_first(), c)
    }
}

/// `first_index` is the least position holding `c`.
pub proof fn lemma_first_index(s: Seq<char>, c: char)
    ensures
        0 <= first_index(s, c) <= s.len(),
        first_index(s, c) < s.len() ==> s[first_index(s, c)] == c,
        forall|k: int| 0 <= k < first_index(s, c) ==> s[k] != c,
        first_index(s, c) == s.len() <==> !s.contains(c),
    decreases s.len(),
{
    if s.len() == 0 || s[0] == c {
    } else {
        lemma_first_index(s.drop_first(), c);
        let t = s.drop_first();
        assert forall|k: int| 0 <= k < first_index(s, c) implies s[k] != c by {
            if k > 0 {
                assert(t[k - 1] == s[k]);
            }
        }
        if first_index(s, c) < s.len() {
            assert(t[first_index(t, c)] == s[first_index(s, c)]);
        } else {
            assert forall|k: int| 0 <= k < s.len() implies s[k] != c by {
                if k > 0 {
                    assert(t[k - 1] == s[k]);
                }
            }
        }
    }
}

/// The position of the first `c` at or after `from`, or the length where there is none.
pub fn index_of(s: &Vec<char>, c: char, from: usize) -> (i: usize)
    requires
        from <= s@.len(),
    ensures
        from <= i <= s@.len(),
        i < s@.len() ==> s@[i as int] == c,
        forall|k: int| from <= k < i ==> s@[k] != c,
        i == from + first_index(s@.subrange(from as int, s@.len() as int), c),
{
    let mut i: usize = from;
    while i < s.len() && s[i] != c
        invariant
            from <= i <= s@.len(),
            forall|k: int| from <= k < i ==> s@[k] != c,
        decreases s.len() - i,
    {
        i = i + 1;
    }
    proof {
        let t = s@.subrange(from as int, s@.len() as int);
        lemma_first_index(t, c);
        let f = first_index(t, c);
        if f < i - from {
            assert(t[f] == s@[from + f]);
        }
        if i - from < f {
            assert(t[i - from] == s@[i as int]);
        }
    }
    i
}

// ------------------------------------------------------------------------------------------
//  Splitting
// ------------------------------------------------------------------------------------------

/// The pieces of `s` between occurrences of `c`: one more than there are occurrences.
pub open spec fn pieces(s: Seq<char>, c: char) -> Seq<Seq<char>>
    decreases s.len(),
{
    let i = first_index(s, c);
    if 0 <= i < s.len() {
        seq![s.take(i)] + pieces(s.skip(i + 1), c)
    } else {
        seq![s]
    }
}

/// The text of each string of a vector.
pub open spec fn texts(v: Seq<String>) -> Seq<Seq<char>> {
    v.map_values(|s: String| s@)
}

/// `s` split at every `c`.
pub fn split(s: &Vec<char>, c: char) -> (out: Vec<String>)
    ensures
        texts(out@) == pieces(s@, c),
{
    let mut out: Vec<String> = Vec::new();
    let mut from: usize = 0;
    assert(s@.skip(0) =~= s@);
    assert(texts(out@) + pieces(s@, c) =~= pieces(s@, c));
    loop
        invariant
            from <= s@.len(),
            texts(out@) + pieces(s@.skip(from as int), c) == pieces(s@, c),
        decreases s@.len() - from,
    {
        let i = index_of(s, c, from);
        let ghost rest = s@.skip(from as int);
        assert(s@.subrange(from as int, s@.len() as int) =~= rest);
        let piece = string_of(s, from, i);
        assert(piece@ =~= rest.take(i - from));
        let ghost before = texts(out@);
        out.push(piece);
        assert(texts(out@) =~= before.push(piece@));
        if i == s.len() {
            assert(rest.take(i - from) =~= rest);
            assert(texts(out@) =~= before + pieces(rest, c));
            return out;
        }
        assert(rest.skip(i - from + 1) =~= s@.skip(i as int + 1));
        assert(texts(out@) + pieces(s@.skip(i as int + 1), c) =~= before + pieces(rest, c));
        from = i + 1;
    }
}

/// The lines of a text: split at line feeds, one carriage return before a line feed dropped, and
/// no empty last line after a final line feed.
pub open spec fn lines(s: Seq<char>) -> Seq<Seq<char>> {
    let cut = pieces(s, '\n');
    let ended = cut.drop_last().map_values(|l: Seq<char>| without_return(l));
    if cut.last().len() == 0 {
        ended
    } else {
        ended.push(cut.last())
    }
}

/// `s` without one final carriage return.
pub open spec fn without_return(s: Seq<char>) -> Seq<char> {
    if s.len() > 0 && s.last() == '\r' {
        s.drop_last()
    } else {
        s
    }
}

/// There is at least one piece.
pub proof fn lemma_pieces_nonempty(s: Seq<char>, c: char)
    ensures
        pieces(s, c).len() >= 1,
    decreases s.len(),
{
}

/// `s` without one final carriage return.
pub fn drop_return(s: &str) -> (r: String)
    ensures
        r@ == without_return(s@),
{
    let v = chars_of(s);
    let n = v.len();
    if n > 0 && v[n - 1] == '\r' {
        let r = string_of(&v, 0, n - 1);
        assert(r@ =~= s@.drop_last());
        r
    } else {
        let r = string_of(&v, 0, n);
        assert(r@ =~= s@);
        r
    }
}

/// The lines of `s`.
pub fn lines_of(s: &str) -> (out: Vec<String>)
    ensures
        texts(out@) == lines(s@),
{
    let v = chars_of(s);
    let cut = split(&v, '\n');
    let ghost all = pieces(s@, '\n');
    proof {
        lemma_pieces_nonempty(s@, '\n');
        assert(texts(cut@).len() == cut@.len());
    }
    let n = cut.len();
    let mut out: Vec<String> = Vec::new();
    let mut i: usize = 0;
    while i < n - 1
        invariant
            n == cut@.len(),
            i <= n - 1,
            all == texts(cut@),
            out@.len() == i,
            forall|k: int| 0 <= k < i ==> (#[trigger] out@[k])@ == without_return(all[k]),
        decreases n - i,
    {
        assert(all[i as int] == cut@[i as int]@);
        out.push(drop_return(cut[i].as_str()));
        i = i + 1;
    }
    assert(all[n - 1] == cut@[n - 1]@);
    if !cut[n - 1].as_str().is_empty() {
        out.push(cut[n - 1].clone());
    }
    assert(texts(out@) =~= lines(s@));
    out
}

// ------------------------------------------------------------------------------------------
//  White space
// ------------------------------------------------------------------------------------------

/// The characters with the Unicode `White_Space` property.
pub open spec fn white(c: char) -> bool {
    ||| '\u{9}' <= c <= '\u{d}'
    ||| c == ' '
    ||| c == '\u{85}'
    ||| c == '\u{a0}'
    ||| c == '\u{1680}'
    ||| '\u{2000}' <= c <= '\u{200a}'
    ||| c == '\u{2028}'
    ||| c == '\u{2029}'
    ||| c == '\u{202f}'
    ||| c == '\u{205f}'
    ||| c == '\u{3000}'
}

pub fn is_white(c: char) -> (yes: bool)
    ensures
        yes == white(c),
{
    ('\u{9}' <= c && c <= '\u{d}') || c == ' ' || c == '\u{85}' || c == '\u{a0}' || c == '\u{1680}'
        || ('\u{2000}' <= c && c <= '\u{200a}') || c == '\u{2028}' || c == '\u{2029}' || c
        == '\u{202f}' || c == '\u{205f}' || c == '\u{3000}'
}

/// `s` without the white space it begins with.
pub open spec fn trim_left(s: Seq<char>) -> Seq<char>
    decreases s.len(),
{
    if s.len() > 0 && white(s[0]) {
        trim_left(s.drop_first())
    } else {
        s
    }
}

/// `s` without the white space it ends with.
pub open spec fn trim_right(s: Seq<char>) -> Seq<char>
    decreases s.len(),
{
    if s.len() > 0 && white(s.last()) {
        trim_right(s.drop_last())
    } else {
        s
    }
}

/// `s` without the white space at both ends.
pub open spec fn trimmed(s: Seq<char>) -> Seq<char> {
    trim_right(trim_left(s))
}

/// `s` without the white space at both ends.
pub fn trim(s: &str) -> (r: String)
    ensures
        r@ == trimmed(s@),
{
    let v = chars_of(s);
    let mut from: usize = 0;
    assert(s@.skip(0) =~= s@);
    while from < v.len() && is_white(v[from])
        invariant
            v@ == s@,
            from <= v@.len(),
            trim_left(s@) == trim_left(s@.skip(from as int)),
        decreases v.len() - from,
    {
        assert(s@.skip(from as int).drop_first() =~= s@.skip(from as int + 1));
        from = from + 1;
    }
    let ghost left = s@.skip(from as int);
    assert(trim_left(s@) == left);
    let mut to: usize = v.len();
    assert(s@.subrange(from as int, to as int) =~= left);
    while to > from && is_white(v[to - 1])
        invariant
            v@ == s@,
            from <= to <= v@.len(),
            trim_right(left) == trim_right(s@.subrange(from as int, to as int)),
        decreases to,
    {
        let ghost cur = s@.subrange(from as int, to as int);
        assert(cur.drop_last() =~= s@.subrange(from as int, to as int - 1));
        to = to - 1;
    }
    proof {
        let cur = s@.subrange(from as int, to as int);
        if to > from {
            assert(cur.last() == s@[to as int - 1]);
        }
    }
    string_of(&v, from, to)
}

// ------------------------------------------------------------------------------------------
//  Letter case
// ------------------------------------------------------------------------------------------

/// An ASCII capital becomes its small letter; every other character stays.
pub open spec fn lower(c: char) -> char {
    if 'A' <= c <= 'Z' {
        ((c as u8 + 32) as u8) as char
    } else {
        c
    }
}

/// `s` with every ASCII capital lowered.
pub open spec fn lowered(s: Seq<char>) -> Seq<char> {
    s.map_values(|c: char| lower(c))
}

fn to_lower(c: char) -> (r: char)
    ensures
        r == lower(c),
{
    if 'A' <= c && c <= 'Z' {
        ((c as u8) + 32) as char
    } else {
        c
    }
}

/// Whether two texts are equal up to the case of ASCII letters.
pub fn eq_ignore_ascii_case(a: &str, b: &str) -> (yes: bool)
    ensures
        yes == (lowered(a@) == lowered(b@)),
{
    let x = chars_of(a);
    let y = chars_of(b);
    if x.len() != y.len() {
        assert(lowered(a@).len() != lowered(b@).len());
        return false;
    }
    let mut i: usize = 0;
    while i < x.len()
        invariant
            x@ == a@,
            y@ == b@,
            x@.len() == y@.len(),
            i <= x@.len(),
            forall|k: int| 0 <= k < i ==> lowered(a@)[k] == lowered(b@)[k],
        decreases x.len() - i,
    {
        if to_lower(x[i]) != to_lower(y[i]) {
            assert(lowered(a@)[i as int] != lowered(b@)[i as int]);
            return false;
        }
        i = i + 1;
    }
    assert(lowered(a@) =~= lowered(b@));
    true
}

/// `s` with every ASCII capital lowered.
pub fn to_ascii_lowercase(s: &str) -> (r: String)
    ensures
        r@ == lowered(s@),
{
    let v = chars_of(s);
    let mut r = String::new();
    let mut i: usize = 0;
    while i < v.len()
        invariant
            v@ == s@,
            i <= v@.len(),
            r@ == lowered(s@).take(i as int),
        decreases v.len() - i,
    {
        r.push(to_lower(v[i]));
        assert(r@ =~= lowered(s@).take(i as int + 1));
        i = i + 1;
    }
    assert(lowered(s@).take(s@.len() as int) =~= lowered(s@));
    r
}

// ------------------------------------------------------------------------------------------
//  Words
// ------------------------------------------------------------------------------------------

/// The position of the first white space at or after `from`, or the length of `s`.
pub open spec fn word_end(s: Seq<char>, from: int) -> int
    decreases s.len() - from,
{
    if from < 0 || from >= s.len() {
        s.len() as int
    } else if white(s[from]) {
        from
    } else {
        word_end(s, from + 1)
    }
}

/// The words of `s`: what stands between white space.
pub open spec fn words(s: Seq<char>) -> Seq<Seq<char>>
    decreases s.len(),
{
    if s.len() == 0 {
        Seq::empty()
    } else if white(s[0]) {
        words(s.skip(1))
    } else {
        let end = word_end(s, 0);
        if 0 < end <= s.len() {
            seq![s.take(end)] + words(s.skip(end))
        } else {
            Seq::empty()
        }
    }
}

proof fn lemma_word_end(s: Seq<char>, from: int, end: int)
    requires
        0 <= from <= end <= s.len(),
        forall|k: int| from <= k < end ==> !white(#[trigger] s[k]),
        end < s.len() ==> white(s[end]),
    ensures
        word_end(s, from) == end,
    decreases s.len() - from,
{
    if from < s.len() && from < end {
        lemma_word_end(s, from + 1, end);
    }
}

/// The words of a list of characters, from a position on.
pub fn words_from(v: &Vec<char>, from: usize) -> (out: Vec<String>)
    requires
        from <= v@.len(),
    ensures
        texts(out@) == words(v@.skip(from as int)),
{
    let mut out: Vec<String> = Vec::new();
    let mut i: usize = from;
    let ghost all = words(v@.skip(from as int));
    assert(texts(out@) + all =~= all);
    while i < v.len()
        invariant
            from <= i <= v@.len(),
            texts(out@) + words(v@.skip(i as int)) == all,
        decreases v.len() - i,
    {
        let ghost rest = v@.skip(i as int);
        assert(rest[0] == v@[i as int]);
        if is_white(v[i]) {
            assert(rest.skip(1) =~= v@.skip(i + 1));
            i = i + 1;
        } else {
            let mut j: usize = i + 1;
            while j < v.len() && !is_white(v[j])
                invariant
                    i < j <= v@.len(),
                    forall|k: int| i <= k < j ==> !white(#[trigger] v@[k]),
                decreases v.len() - j,
            {
                j = j + 1;
            }
            proof {
                assert forall|k: int| 0 <= k < j - i implies !white(#[trigger] rest[k]) by {
                    assert(rest[k] == v@[i + k]);
                }
                if j < v@.len() {
                    assert(rest[j - i] == v@[j as int]);
                }
                lemma_word_end(rest, 0, j - i);
            }
            let word: String = string_of(v, i, j);
            assert(word@ =~= rest.take(j - i));
            let ghost before = texts(out@);
            out.push(word);
            assert(texts(out@) =~= before.push(word@));
            assert(rest.skip(j - i) =~= v@.skip(j as int));
            assert(texts(out@) + words(v@.skip(j as int)) =~= before + words(rest));
            i = j;
        }
    }
    assert(v@.skip(i as int) =~= Seq::<char>::empty());
    assert(texts(out@) =~= all);
    out
}

// ------------------------------------------------------------------------------------------
//  What splitting and trimming keep
// ------------------------------------------------------------------------------------------

/// Texts with a character between them.
pub open spec fn glued(parts: Seq<Seq<char>>, c: char) -> Seq<char>
    decreases parts.len(),
{
    if parts.len() == 0 {
        Seq::empty()
    } else if parts.len() == 1 {
        parts[0]
    } else {
        parts[0].push(c) + glued(parts.drop_first(), c)
    }
}

/// The pieces of a text, with the character between them again, are the text; and none of them holds
/// the character.
pub proof fn pieces_make_up_the_text(s: Seq<char>, c: char)
    ensures
        glued(pieces(s, c), c) == s,
        pieces(s, c).len() >= 1,
        forall|i: int| 0 <= i < pieces(s, c).len() ==> !(#[trigger] pieces(s, c)[i]).contains(c),
    decreases s.len(),
{
    lemma_first_index(s, c);
    let i = first_index(s, c);
    if i < s.len() {
        let rest = s.skip(i + 1);
        pieces_make_up_the_text(rest, c);
        assert(pieces(s, c).drop_first() =~= pieces(rest, c));
        assert(s =~= s.take(i).push(c) + rest);
        assert forall|k: int| 0 <= k < pieces(s, c).len() implies !(#[trigger] pieces(
            s,
            c,
        )[k]).contains(c) by {
            if k > 0 {
                assert(pieces(s, c)[k] == pieces(rest, c)[k - 1]);
            } else if s.take(i).contains(c) {
                let j = choose|j: int| 0 <= j < i && s.take(i)[j] == c;
                assert(s[j] == c);
            }
        }
    }
}

/// A text is what stood before it, itself, and what stood behind it: trimming takes white space off
/// both ends, and all of it.
pub proof fn trimming_takes_white_space_off(s: Seq<char>)
    ensures
        exists|a: int, b: int|
            0 <= a <= b <= s.len() && trimmed(s) == #[trigger] s.subrange(a, b) && (forall|i: int|
                0 <= i < a ==> white(#[trigger] s[i])) && (forall|i: int|
                b <= i < s.len() ==> white(#[trigger] s[i])),
        trimmed(s).len() > 0 ==> !white(trimmed(s)[0]) && !white(trimmed(s).last()),
{
    let a = lemma_trim_left(s);
    let t = trim_left(s);
    let b = lemma_trim_right(t);
    assert(trimmed(s) =~= s.subrange(a, a + b));
    assert forall|i: int| a + b <= i < s.len() implies white(#[trigger] s[i]) by {
        assert(t[i - a] == s[i]);
    }
    assert(trimmed(s) == s.subrange(a, a + b));
    if trimmed(s).len() > 0 {
        assert(trimmed(s)[0] == t[0]);
    }
}

proof fn lemma_trim_left(s: Seq<char>) -> (a: int)
    ensures
        0 <= a <= s.len(),
        trim_left(s) == s.skip(a),
        forall|i: int| 0 <= i < a ==> white(#[trigger] s[i]),
        a < s.len() ==> !white(s[a]),
    decreases s.len(),
{
    if s.len() > 0 && white(s[0]) {
        let t = s.drop_first();
        let a = lemma_trim_left(t);
        assert(t.skip(a) =~= s.skip(a + 1));
        assert forall|i: int| 0 <= i < a + 1 implies white(#[trigger] s[i]) by {
            if i > 0 {
                assert(t[i - 1] == s[i]);
            }
        }
        a + 1
    } else {
        assert(s.skip(0) =~= s);
        0
    }
}

proof fn lemma_trim_right(s: Seq<char>) -> (b: int)
    ensures
        0 <= b <= s.len(),
        trim_right(s) == s.take(b),
        forall|i: int| b <= i < s.len() ==> white(#[trigger] s[i]),
        b > 0 ==> !white(s[b - 1]),
    decreases s.len(),
{
    if s.len() > 0 && white(s.last()) {
        let t = s.drop_last();
        let b = lemma_trim_right(t);
        assert(t.take(b) =~= s.take(b));
        assert forall|i: int| b <= i < s.len() implies white(#[trigger] s[i]) by {
            if i < t.len() {
                assert(t[i] == s[i]);
            }
        }
        b
    } else {
        assert(s.take(s.len() as int) =~= s);
        s.len() as int
    }
}

/// White space among the first characters is the blank and the five controls from the tab to the
/// carriage return.
pub proof fn white_space_is_blank(c: char)
    ensures
        (c as int) < 128 ==> (white(c) <==> c as int == 32 || 9 <= c as int <= 13),
        white('\u{a0}') && white('\u{2003}') && white('\u{3000}') && !white('\u{200b}'),
{
}

/// The lines of a text begin with what stands before its first newline, without a carriage return
/// there, and go on with those of the rest; a text without a newline is one line, unless it is empty.
pub proof fn lines_end_at_newlines(line: Seq<char>, rest: Seq<char>)
    requires
        !line.contains('\n'),
    ensures
        lines(line.push('\n') + rest) == seq![
            if line.len() > 0 && line.last() == '\r' {
                line.drop_last()
            } else {
                line
            },
        ] + lines(rest),
        line.len() > 0 ==> lines(line) == seq![line],
        lines(Seq::<char>::empty()) == Seq::<Seq<char>>::empty(),
{
    let s = line.push('\n') + rest;
    lemma_first_index(s, '\n');
    lemma_first_index(line, '\n');
    let i = first_index(s, '\n');
    assert(s[line.len() as int] == '\n');
    if i < line.len() {
        assert(line[i] == s[i]);
        assert(line.contains('\n'));
    }
    assert(i == line.len());
    assert(s.take(i) =~= line);
    assert(s.skip(i + 1) =~= rest);
    let cut = pieces(rest, '\n');
    lemma_pieces_nonempty(rest, '\n');
    assert(pieces(s, '\n') == seq![line] + cut);
    assert(pieces(s, '\n').last() == cut.last());
    assert((seq![line] + cut).drop_last() =~= seq![line] + cut.drop_last());
    let f = |l: Seq<char>| without_return(l);
    assert((seq![line] + cut.drop_last()).map_values(f) =~= seq![without_return(line)]
        + cut.drop_last().map_values(f));
    assert(lines(s) =~= seq![without_return(line)] + lines(rest));
    assert(pieces(line, '\n') == seq![line]);
    assert(lines(line) =~= if line.len() == 0 {
        Seq::empty()
    } else {
        seq![line]
    });
    let none = Seq::<char>::empty();
    lemma_first_index(none, '\n');
    assert(pieces(none, '\n') == seq![none]);
    assert(lines(none) =~= Seq::<Seq<char>>::empty());
}

/// The words of a text are what stands between white space: a word with white space behind it comes
/// first, the others follow, and white space before them does not count.
pub proof fn words_stand_between_white_space(word: Seq<char>, gap: char, rest: Seq<char>)
    requires
        word.len() > 0,
        forall|i: int| 0 <= i < word.len() ==> !white(#[trigger] word[i]),
        white(gap),
    ensures
        words(word.push(gap) + rest) == seq![word] + words(rest),
        words(seq![gap] + rest) == words(rest),
        words(word) == seq![word],
        words(Seq::<char>::empty()) == Seq::<Seq<char>>::empty(),
{
    let s = word.push(gap) + rest;
    let n = word.len() as int;
    assert(s[0] == word[0]);
    assert forall|i: int| 0 <= i < n implies !white(#[trigger] s[i]) by {
        assert(s[i] == word[i]);
    }
    assert(s[n] == gap);
    lemma_word_end(s, 0, n);
    assert(s.take(n) =~= word);
    assert(s.skip(n)[0] == gap);
    assert(s.skip(n).skip(1) =~= rest);
    assert(words(s.skip(n)) == words(rest));
    assert(words(s) == seq![s.take(n)] + words(s.skip(n)));
    assert((seq![gap] + rest).skip(1) =~= rest);
    lemma_word_end(word, 0, n);
    assert(word.take(n) =~= word);
    assert(word.skip(n) =~= Seq::<char>::empty());
    assert(words(word.skip(n)) == Seq::<Seq<char>>::empty());
    assert(words(word) =~= seq![word]);
}

/// What follows a prefix is what makes the text together with it, and the same holds of what comes
/// before a suffix.
pub proof fn a_prefix_and_the_rest_make_the_text(s: Seq<char>, end: Seq<char>, rest: Seq<char>)
    ensures
        s == end + rest <==> after_prefix(s, end) == Some(rest),
        s == rest + end <==> before_suffix(s, end) == Some(rest),
{
    if s == end + rest {
        assert(s.subrange(0, end.len() as int) =~= end);
        assert(s.skip(end.len() as int) =~= rest);
    }
    if after_prefix(s, end) == Some(rest) {
        assert(s =~= s.subrange(0, end.len() as int) + s.skip(end.len() as int));
    }
    if s == rest + end {
        let at = s.len() - end.len();
        assert(s.subrange(at, at + end.len()) =~= end);
        assert(s.take(at) =~= rest);
    }
    if before_suffix(s, end) == Some(rest) {
        let at = s.len() - end.len();
        assert(s =~= s.take(at) + s.subrange(at, at + end.len()));
    }
}

/// A text is cut at the first place where the needle stands.
pub proof fn a_cut_is_made_at_the_first_place(s: Seq<char>, needle: Seq<char>, i: int)
    requires
        occurs_at(s, needle, i),
        forall|k: int| 0 <= k < i ==> !#[trigger] occurs_at(s, needle, k),
    ensures
        cut(s, needle) == Some((s.take(i), s.skip(i + needle.len()))),
        s == s.take(i) + needle + s.skip(i + needle.len()),
{
    lemma_first_found(s, needle, 0);
    lemma_first_at(s, needle, 0, Some(i));
    assert(s =~= s.take(i) + s.subrange(i, i + needle.len()) + s.skip(i + needle.len()));
}

/// A capital is lowered to the letter thirty-two places on, and everything else stays.
pub proof fn capitals_are_lowered(c: char)
    ensures
        65 <= c as int <= 90 ==> lower(c) as int == c as int + 32,
        (c as int) < 65 || c as int > 90 ==> lower(c) == c,
{
    if 'A' <= c <= 'Z' {
        let n = c as u8;
        assert(n as int == c as int);
        assert((n + 32) as u8 as int == c as int + 32);
    }
}

} // verus!
