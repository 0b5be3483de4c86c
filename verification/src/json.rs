//! A JSON value as the capture reads it: numbers keep their kind, objects keep their order.

use crate::text::same_text;
use vstd::prelude::*;

verus! {

/// A JSON value. A number is unsigned, negative, or a floating-point number held by its bits; an
/// object is its members in key order.
#[derive(Debug)]
pub enum Json {
    Null,
    Bool(bool),
    Unsigned(u64),
    Negative(i64),
    Float(u64),
    Text(String),
    Array(Vec<Json>),
    Object(Vec<(String, Json)>),
}

/// What a [`Json`] holds, without regard to how it is stored.
pub enum JsonView {
    Null,
    Bool(bool),
    Unsigned(u64),
    Negative(i64),
    Float(u64),
    Text(Seq<char>),
    Array(Seq<JsonView>),
    Object(Seq<(Seq<char>, JsonView)>),
}

/// The bits of a floating-point number, those of zero for both of its zeros.
pub open spec fn one_zero(bits: u64) -> u64 {
    if bits == 0x8000_0000_0000_0000 {
        0
    } else {
        bits
    }
}

fn without_sign(bits: u64) -> (n: u64)
    ensures
        n == one_zero(bits),
{
    if bits == 0x8000_0000_0000_0000 {
        0
    } else {
        bits
    }
}

/// What `j` holds. Both zeros of a floating-point number are one.
pub open spec fn json_view(j: Json) -> JsonView
    decreases j,
{
    match j {
        Json::Null => JsonView::Null,
        Json::Bool(b) => JsonView::Bool(b),
        Json::Unsigned(n) => JsonView::Unsigned(n),
        Json::Negative(n) => JsonView::Negative(n),
        Json::Float(n) => JsonView::Float(one_zero(n)),
        Json::Text(s) => JsonView::Text(s@),
        Json::Array(v) => JsonView::Array(
            Seq::new(
                v@.len(),
                |i: int|
                    if 0 <= i < v@.len() {
                        json_view(v@[i])
                    } else {
                        JsonView::Null
                    },
            ),
        ),
        Json::Object(v) => JsonView::Object(
            Seq::new(
                v@.len(),
                |i: int|
                    if 0 <= i < v@.len() {
                        (v@[i].0@, json_view(v@[i].1))
                    } else {
                        (Seq::empty(), JsonView::Null)
                    },
            ),
        ),
    }
}

impl View for Json {
    type V = JsonView;

    open spec fn view(&self) -> JsonView {
        json_view(*self)
    }
}

/// What each value of a list holds.
pub open spec fn json_views(v: Seq<Json>) -> Seq<JsonView> {
    Seq::new(v.len(), |i: int| v[i]@)
}

/// The value of the first member named `key`.
pub open spec fn member(m: Seq<(Seq<char>, JsonView)>, key: Seq<char>) -> Option<JsonView>
    decreases m.len(),
{
    if m.len() == 0 {
        None
    } else if m[0].0 == key {
        Some(m[0].1)
    } else {
        member(m.drop_first(), key)
    }
}

impl JsonView {
    /// The member named `key`; null where there is none or this is no object.
    pub open spec fn field(self, key: Seq<char>) -> JsonView {
        match self.get(key) {
            Some(v) => v,
            None => JsonView::Null,
        }
    }

    /// The member named `key`, where this is an object that has one.
    pub open spec fn get(self, key: Seq<char>) -> Option<JsonView> {
        match self {
            JsonView::Object(m) => member(m, key),
            _ => None,
        }
    }

    /// The number, where this is one that is not negative and has no fraction.
    pub open spec fn unsigned(self) -> Option<u64> {
        match self {
            JsonView::Unsigned(n) => Some(n),
            _ => None,
        }
    }

    /// The number, where this is one without a fraction that fits 64 signed bits.
    pub open spec fn signed(self) -> Option<i64> {
        match self {
            JsonView::Unsigned(n) => if n <= i64::MAX {
                Some(n as i64)
            } else {
                None
            },
            JsonView::Negative(n) => Some(n),
            _ => None,
        }
    }

    /// The truth value, where this is one.
    pub open spec fn truth(self) -> Option<bool> {
        match self {
            JsonView::Bool(b) => Some(b),
            _ => None,
        }
    }

    /// The items, where this is a list.
    pub open spec fn items(self) -> Option<Seq<JsonView>> {
        match self {
            JsonView::Array(v) => Some(v),
            _ => None,
        }
    }

    /// The members, where this is an object.
    pub open spec fn members(self) -> Option<Seq<(Seq<char>, JsonView)>> {
        match self {
            JsonView::Object(v) => Some(v),
            _ => None,
        }
    }

    /// The text, where this is a string.
    pub open spec fn text(self) -> Option<Seq<char>> {
        match self {
            JsonView::Text(s) => Some(s),
            _ => None,
        }
    }

    /// A number of any kind whose value is finite: every integer, and a floating-point number
    /// whose exponent bits are not all set.
    pub open spec fn finite_number(self) -> bool {
        match self {
            JsonView::Unsigned(_) => true,
            JsonView::Negative(_) => true,
            JsonView::Float(bits) => (bits / 0x10_0000_0000_0000) % 0x800 != 0x7ff,
            _ => false,
        }
    }
}

impl Clone for Json {
    fn clone(&self) -> (r: Json)
        ensures
            r@ == self@,
        decreases self,
    {
        match self {
            Json::Null => Json::Null,
            Json::Bool(b) => Json::Bool(*b),
            Json::Unsigned(n) => Json::Unsigned(*n),
            Json::Negative(n) => Json::Negative(*n),
            Json::Float(n) => Json::Float(*n),
            Json::Text(s) => Json::Text(s.clone()),
            Json::Array(v) => {
                let mut out: Vec<Json> = Vec::new();
                let mut i: usize = 0;
                while i < v.len()
                    invariant
                        i <= v@.len(),
                        *self == Json::Array(*v),
                        out@.len() == i,
                        forall|k: int| 0 <= k < i ==> (#[trigger] out@[k])@ == v@[k]@,
                    decreases v.len() - i,
                {
                    let ghost item = v@[i as int];
                    assert(decreases_to!(*self => self->Array_0));
                    assert(decreases_to!(v@ => v@[i as int]));
                    assert(decreases_to!(v => v@));
                    out.push(v[i].clone());
                    i = i + 1;
                }
                let r = Json::Array(out);
                assert(r@->Array_0 =~= self@->Array_0);
                r
            },
            Json::Object(v) => {
                let mut out: Vec<(String, Json)> = Vec::new();
                let mut i: usize = 0;
                while i < v.len()
                    invariant
                        i <= v@.len(),
                        *self == Json::Object(*v),
                        out@.len() == i,
                        forall|k: int|
                            0 <= k < i ==> (#[trigger] out@[k]).0@ == v@[k].0@ && out@[k].1@
                                == v@[k].1@,
                    decreases v.len() - i,
                {
                    let ghost item = v@[i as int];
                    assert(decreases_to!(*self => self->Object_0));
                    assert(decreases_to!(v => v@));
                    assert(decreases_to!(v@ => v@[i as int]));
                    assert(decreases_to!(item => item.1));
                    out.push((v[i].0.clone(), v[i].1.clone()));
                    i = i + 1;
                }
                let r = Json::Object(out);
                assert(r@->Object_0 =~= self@->Object_0);
                r
            },
        }
    }
}

impl Json {
    /// Whether the two hold the same value.
    pub fn same(&self, other: &Json) -> (yes: bool)
        ensures
            yes == (self@ == other@),
        decreases self,
    {
        match (self, other) {
            (Json::Null, Json::Null) => true,
            (Json::Bool(a), Json::Bool(b)) => *a == *b,
            (Json::Unsigned(a), Json::Unsigned(b)) => *a == *b,
            (Json::Negative(a), Json::Negative(b)) => *a == *b,
            (Json::Float(a), Json::Float(b)) => without_sign(*a) == without_sign(*b),
            (Json::Text(a), Json::Text(b)) => *a == *b,
            (Json::Array(a), Json::Array(b)) => {
                if a.len() != b.len() {
                    assert(self@->Array_0.len() != other@->Array_0.len());
                    return false;
                }
                let mut i: usize = 0;
                while i < a.len()
                    invariant
                        a@.len() == b@.len(),
                        i <= a@.len(),
                        *self == Json::Array(*a),
                        *other == Json::Array(*b),
                        forall|k: int| 0 <= k < i ==> (#[trigger] a@[k])@ == b@[k]@,
                    decreases a.len() - i,
                {
                    if !a[i].same(&b[i]) {
                        assert(self@->Array_0[i as int] != other@->Array_0[i as int]);
                        return false;
                    }
                    i = i + 1;
                }
                assert(self@->Array_0 =~= other@->Array_0);
                true
            },
            (Json::Object(a), Json::Object(b)) => {
                if a.len() != b.len() {
                    assert(self@->Object_0.len() != other@->Object_0.len());
                    return false;
                }
                let mut i: usize = 0;
                while i < a.len()
                    invariant
                        a@.len() == b@.len(),
                        i <= a@.len(),
                        *self == Json::Object(*a),
                        *other == Json::Object(*b),
                        forall|k: int|
                            0 <= k < i ==> (#[trigger] a@[k]).0@ == b@[k].0@ && a@[k].1@
                                == b@[k].1@,
                    decreases a.len() - i,
                {
                    if a[i].0 != b[i].0 || !a[i].1.same(&b[i].1) {
                        assert(self@->Object_0[i as int] != other@->Object_0[i as int]);
                        return false;
                    }
                    i = i + 1;
                }
                assert(self@->Object_0 =~= other@->Object_0);
                true
            },
            _ => false,
        }
    }

    /// The member named `key`, where this is an object that has one.
    pub fn get(&self, key: &str) -> (found: Option<&Json>)
        ensures
            match found {
                Some(v) => self@.get(key@) == Some(v@),
                None => self@.get(key@) is None,
            },
    {
        match self {
            Json::Object(m) => {
                let ghost all = self@->Object_0;
                let mut i: usize = 0;
                assert(all.skip(0) =~= all);
                while i < m.len()
                    invariant
                        i <= m@.len(),
                        *self == Json::Object(*m),
                        all == self@->Object_0,
                        all.len() == m@.len(),
                        forall|k: int|
                            0 <= k < m@.len() ==> #[trigger] all[k] == (m@[k].0@, m@[k].1@),
                        member(all, key@) == member(all.skip(i as int), key@),
                    decreases m.len() - i,
                {
                    assert(all.skip(i as int)[0] == all[i as int]);
                    if same_text(m[i].0.as_str(), key) {
                        return Some(&m[i].1);
                    }
                    assert(all.skip(i as int).drop_first() =~= all.skip(i as int + 1));
                    i = i + 1;
                }
                None
            },
            _ => None,
        }
    }

    /// The number, where this is one that is not negative and has no fraction.
    pub fn as_u64(&self) -> (n: Option<u64>)
        ensures
            n == self@.unsigned(),
    {
        match self {
            Json::Unsigned(n) => Some(*n),
            _ => None,
        }
    }

    /// The number, where this is one without a fraction that fits 64 signed bits.
    pub fn as_i64(&self) -> (n: Option<i64>)
        ensures
            n == self@.signed(),
    {
        match self {
            Json::Unsigned(n) => if *n <= i64::MAX as u64 {
                Some(*n as i64)
            } else {
                None
            },
            Json::Negative(n) => Some(*n),
            _ => None,
        }
    }

    /// The truth value, where this is one.
    pub fn as_bool(&self) -> (b: Option<bool>)
        ensures
            b == self@.truth(),
    {
        match self {
            Json::Bool(b) => Some(*b),
            _ => None,
        }
    }

    /// The items, where this is a list.
    pub fn as_array(&self) -> (v: Option<&Vec<Json>>)
        ensures
            match v {
                Some(items) => self@.items() == Some(json_views(items@)),
                None => self@.items() is None,
            },
    {
        match self {
            Json::Array(v) => {
                assert(self@->Array_0 =~= json_views(v@));
                Some(v)
            },
            _ => None,
        }
    }

    /// The text, where this is a string.
    pub fn as_str(&self) -> (s: Option<&str>)
        ensures
            match s {
                Some(t) => self@.text() == Some(t@),
                None => self@.text() is None,
            },
    {
        match self {
            Json::Text(s) => Some(s.as_str()),
            _ => None,
        }
    }

    /// The unsigned number that the member `key` holds.
    pub fn u64_at(&self, key: &str) -> (n: Option<u64>)
        ensures
            n == self@.field(key@).unsigned(),
    {
        match self.get(key) {
            Some(v) => v.as_u64(),
            None => None,
        }
    }

    /// The signed number that the member `key` holds.
    pub fn i64_at(&self, key: &str) -> (n: Option<i64>)
        ensures
            n == self@.field(key@).signed(),
    {
        match self.get(key) {
            Some(v) => v.as_i64(),
            None => None,
        }
    }

    /// The truth value that the member `key` holds.
    pub fn bool_at(&self, key: &str) -> (b: Option<bool>)
        ensures
            b == self@.field(key@).truth(),
    {
        match self.get(key) {
            Some(v) => v.as_bool(),
            None => None,
        }
    }

    /// The list that the member `key` holds.
    pub fn array_at(&self, key: &str) -> (v: Option<&Vec<Json>>)
        ensures
            match v {
                Some(items) => self@.field(key@).items() == Some(json_views(items@)),
                None => self@.field(key@).items() is None,
            },
    {
        match self.get(key) {
            Some(v) => v.as_array(),
            None => None,
        }
    }

    /// Whether this is a number of finite value.
    pub fn is_finite_number(&self) -> (yes: bool)
        ensures
            yes == self@.finite_number(),
    {
        match self {
            Json::Unsigned(_) => true,
            Json::Negative(_) => true,
            Json::Float(bits) => (*bits / 0x10_0000_0000_0000) % 0x800 != 0x7ff,
            _ => false,
        }
    }
}

// ------------------------------------------------------------------------------------------
//  Members
// ------------------------------------------------------------------------------------------

/// A member is found by its name: of several with the same name the first, and none where no member
/// has it. A value that is no object has no members.
pub proof fn a_member_is_found_by_its_name(
    before: Seq<(Seq<char>, JsonView)>,
    key: Seq<char>,
    v: JsonView,
    behind: Seq<(Seq<char>, JsonView)>,
)
    requires
        forall|i: int| 0 <= i < before.len() ==> (#[trigger] before[i]).0 != key,
    ensures
        JsonView::Object(before.push((key, v)) + behind).get(key) == Some(v),
        JsonView::Object(before.push((key, v)) + behind).field(key) == v,
        JsonView::Object(before).get(key) is None,
        JsonView::Object(before).field(key) == JsonView::Null,
        JsonView::Array(behind.map_values(|m: (Seq<char>, JsonView)| m.1)).get(key) is None,
    decreases before.len(),
{
    let all = before.push((key, v)) + behind;
    if before.len() == 0 {
        assert(all[0] == (key, v));
    } else {
        let rest = before.drop_first();
        assert forall|i: int| 0 <= i < rest.len() implies (#[trigger] rest[i]).0 != key by {
            assert(rest[i] == before[i + 1]);
        }
        a_member_is_found_by_its_name(rest, key, v, behind);
        assert(all[0] == before[0]);
        assert(all.drop_first() =~= rest.push((key, v)) + behind);
    }
}

/// A number of a row is what it is: a value that is not negative is both an unsigned and, where it
/// is small enough, a signed number; one that is negative is a signed number only.
pub proof fn a_number_is_what_it_is(n: u64, m: i64)
    ensures
        JsonView::Unsigned(n).unsigned() == Some(n),
        JsonView::Negative(m).unsigned() is None,
        JsonView::Negative(m).signed() == Some(m),
        n <= i64::MAX ==> (JsonView::Unsigned(n).signed() matches Some(x) && x == n),
        n > i64::MAX ==> JsonView::Unsigned(n).signed() is None,
        JsonView::Unsigned(n).finite_number() && JsonView::Negative(m).finite_number(),
{
}

} // verus!
