//! Reading the fields of a database row. Every reader says in words what it missed.

use vstd::prelude::*;
use crate::json::{Json, JsonView};

verus! {

/// A result agrees with what was to be read: the value, or the refusal in words.
pub open spec fn agrees<T>(r: Result<T, String>, owed: Result<T, Seq<char>>) -> bool {
    match (r, owed) {
        (Ok(v), Ok(w)) => v == w,
        (Err(said), Err(words)) => said@ == words,
        _ => false,
    }
}

/// Said of a field that does not hold what it should.
pub open spec fn invalid(key: Seq<char>) -> Seq<char> {
    "invalid "@ + key
}

fn say(what: &str, key: &str) -> (s: String)
    ensures
        s@ == what@ + key@,
{
    let mut s: String = what.to_owned();
    s.append(key);
    s
}

/// An unsigned field.
pub open spec fn unsigned_field(row: JsonView, key: Seq<char>) -> Result<u64, Seq<char>> {
    match row.field(key).unsigned() {
        Some(n) => Ok(n),
        None => Err(invalid(key)),
    }
}

/// An unsigned field.
pub fn unsigned(row: &Json, key: &str) -> (r: Result<u64, String>)
    ensures
        agrees(r, unsigned_field(row@, key@)),
{
    match row.u64_at(key) {
        Some(n) => Ok(n),
        None => Err(say("invalid ", key)),
    }
}

/// A signed field.
pub open spec fn signed_field(row: JsonView, key: Seq<char>) -> Result<i64, Seq<char>> {
    match row.field(key).signed() {
        Some(n) => Ok(n),
        None => Err(invalid(key)),
    }
}

/// A signed field.
pub fn signed(row: &Json, key: &str) -> (r: Result<i64, String>)
    ensures
        agrees(r, signed_field(row@, key@)),
{
    match row.i64_at(key) {
        Some(n) => Ok(n),
        None => Err(say("invalid ", key)),
    }
}

/// A coordinate: a number that is finite.
pub open spec fn coordinate_field(row: JsonView, key: Seq<char>) -> Result<JsonView, Seq<char>> {
    if row.field(key).finite_number() {
        Ok(row.field(key))
    } else {
        Err(invalid(key))
    }
}

/// The member of a row; null where it has none.
pub fn field(row: &Json, key: &str) -> (v: Json)
    ensures
        v@ == row@.field(key@),
{
    match row.get(key) {
        Some(v) => v.clone(),
        None => Json::Null,
    }
}

/// A coordinate: a number that is finite.
pub fn coordinate(row: &Json, key: &str) -> (r: Result<Json, String>)
    ensures
        match (r, coordinate_field(row@, key@)) {
            (Ok(v), Ok(w)) => v@ == w,
            (Err(said), Err(words)) => said@ == words,
            _ => false,
        },
{
    let v: Json = field(row, key);
    if v.is_finite_number() {
        Ok(v)
    } else {
        Err(say("invalid ", key))
    }
}

/// A value that stands for nothing: an empty list or an empty object.
pub open spec fn unit(v: JsonView) -> bool {
    match v {
        JsonView::Array(items) => items.len() == 0,
        JsonView::Object(members) => members.len() == 0,
        _ => false,
    }
}

/// An option: an object with one member, which is `some` or an empty `none`.
pub open spec fn option_field(row: JsonView, key: Seq<char>) -> Result<
    Option<JsonView>,
    Seq<char>,
> {
    let v = row.field(key);
    match v.members() {
        None => Err("invalid SATS option "@ + key),
        Some(m) => if m.len() != 1 {
            Err("invalid SATS option "@ + key)
        } else {
            match v.get("some"@) {
                Some(inner) => Ok(Some(inner)),
                None => match v.get("none"@) {
                    Some(none) => if unit(none) {
                        Ok(None)
                    } else {
                        Err("unknown SATS option "@ + key)
                    },
                    None => Err("unknown SATS option "@ + key),
                },
            }
        },
    }
}

fn is_unit(v: &Json) -> (yes: bool)
    ensures
        yes == unit(v@),
{
    match v {
        Json::Array(items) => items.len() == 0,
        Json::Object(members) => members.len() == 0,
        _ => false,
    }
}

/// What an optional row holds.
pub open spec fn held(v: Option<Json>) -> Option<JsonView> {
    match v {
        Some(j) => Some(j@),
        None => None,
    }
}

/// An option: an object with one member, which is `some` or an empty `none`.
pub fn optional(row: &Json, key: &str) -> (r: Result<Option<Json>, String>)
    ensures
        match (r, option_field(row@, key@)) {
            (Ok(v), Ok(w)) => held(v) == w,
            (Err(said), Err(words)) => said@ == words,
            _ => false,
        },
{
    let v: Json = field(row, key);
    let one = match &v {
        Json::Object(m) => m.len() == 1,
        _ => false,
    };
    if !one {
        return Err(say("invalid SATS option ", key));
    }
    if let Some(inner) = v.get("some") {
        return Ok(Some(inner.clone()));
    }
    if let Some(none) = v.get("none") {
        if is_unit(none) {
            return Ok(None);
        }
    }
    Err(say("unknown SATS option ", key))
}

/// Whether the observation under `key` is later than the one in an earlier row.
pub open spec fn newer_field(current: JsonView, previous: JsonView, key: Seq<char>) -> Result<
    bool,
    Seq<char>,
> {
    match option_field(current, key) {
        Err(e) => Err(e),
        Ok(None) => Ok(false),
        Ok(Some(now)) => match option_field(previous, key) {
            Err(e) => Err(e),
            Ok(before) => {
                let at = match before {
                    None => Ok(0i64),
                    Some(b) => signed_field(b, "observed_micros"@),
                };
                match at {
                    Err(e) => Err(e),
                    Ok(t) => match signed_field(now, "observed_micros"@) {
                        Err(e) => Err(e),
                        Ok(n) => Ok(n > t),
                    },
                }
            },
        },
    }
}

/// Whether the observation under `key` is later than the one in an earlier row.
pub fn newer(current: &Json, previous: &Json, key: &str) -> (r: Result<bool, String>)
    ensures
        agrees(r, newer_field(current@, previous@, key@)),
{
    let now = match optional(current, key) {
        Err(e) => return Err(e),
        Ok(None) => return Ok(false),
        Ok(Some(now)) => now,
    };
    let before: i64 = match optional(previous, key) {
        Err(e) => return Err(e),
        Ok(None) => 0,
        Ok(Some(b)) => match signed(&b, "observed_micros") {
            Err(e) => return Err(e),
            Ok(t) => t,
        },
    };
    match signed(&now, "observed_micros") {
        Err(e) => Err(e),
        Ok(n) => Ok(n > before),
    }
}

/// An option is read from its one member: `some` gives what it holds, an empty `none` gives
/// nothing, and anything else is refused.
pub proof fn an_option_is_some_or_none(row: JsonView, key: Seq<char>)
    ensures
        match row.field(key) {
            JsonView::Object(m) => if m.len() == 1 && m[0].0 == "some"@ {
                option_field(row, key) == Ok::<Option<JsonView>, Seq<char>>(Some(m[0].1))
            } else if m.len() == 1 && m[0].0 == "none"@ && (m[0].1 == JsonView::Array(Seq::empty())
                || m[0].1 == JsonView::Object(Seq::empty())) {
                option_field(row, key) == Ok::<Option<JsonView>, Seq<char>>(None)
            } else {
                option_field(row, key) is Err
            },
            _ => option_field(row, key) is Err,
        },
{
    reveal_strlit("some");
    reveal_strlit("none");
    assert("some"@[0] == 's' && "none"@[0] == 'n');
    reveal_with_fuel(crate::json::member, 3);
    if let JsonView::Object(m) = row.field(key) {
        if m.len() == 1 {
            match m[0].1 {
                JsonView::Array(v) => {
                    if v.len() == 0 {
                        assert(v =~= Seq::empty());
                    }
                },
                JsonView::Object(v) => {
                    if v.len() == 0 {
                        assert(v =~= Seq::empty());
                    }
                },
                _ => {},
            }
        }
    }
}

/// A field that holds a number that is not negative gives it, and any other is refused.
pub proof fn a_field_gives_its_number(row: JsonView, key: Seq<char>, n: u64)
    ensures
        row.field(key) == JsonView::Unsigned(n) <==> unsigned_field(row, key) == Ok::<u64, Seq<char>>(
            n,
        ),
        row.field(key) == JsonView::Unsigned(n) && n < 0x8000_0000_0000_0000 ==> signed_field(row, key)
            == Ok::<i64, Seq<char>>(n as i64),
        row.field(key) == JsonView::Unsigned(n) && n >= 0x8000_0000_0000_0000 ==> signed_field(row, key)
            is Err,
        forall|k: i64|
            row.field(key) == JsonView::Negative(k) ==> #[trigger] signed_field(row, key) == Ok::<
                i64,
                Seq<char>,
            >(k),
        row.field(key) is Text || row.field(key) is Null || row.field(key) is Bool || row.field(key)
            is Float ==> unsigned_field(row, key) is Err && signed_field(row, key) is Err,
{
}

} // verus!
