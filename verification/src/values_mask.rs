//! Updates of object fields, which come as a mask of the fields that are set and their values.

use vstd::prelude::*;
use crate::wire;
use crate::wire::ValuesUpdate;

verus! {

/// The kind of block that carries nothing but fields.
pub const VALUES: u8 = 0;

/// The place of the first block: behind the number of blocks and the mark of a transport.
pub const FIRST_BLOCK: usize = 5;

/// How many of the lowest bits of a number are set.
pub open spec fn ones(v: nat, n: nat) -> nat
    decreases n,
{
    if n == 0 {
        0
    } else {
        v % 2 + ones(v / 2, (n - 1) as nat)
    }
}

/// A bit of a number is set.
pub open spec fn bit(v: nat, k: nat) -> bool
    decreases k,
{
    if k == 0 {
        v % 2 == 1
    } else {
        bit(v / 2, (k - 1) as nat)
    }
}

/// A field is set in a mask, whose bytes come lowest first.
pub open spec fn is_set(mask: Seq<u8>, i: int) -> bool {
    bit(mask[i / 8] as nat, (i % 8) as nat)
}

/// The fields below a number that are set, in order.
pub open spec fn set_fields(mask: Seq<u8>, n: nat) -> Seq<u16>
    decreases n,
{
    if n == 0 {
        Seq::empty()
    } else if is_set(mask, n - 1) {
        set_fields(mask, (n - 1) as nat).push((n - 1) as u16)
    } else {
        set_fields(mask, (n - 1) as nat)
    }
}

/// The four-byte number at a place where there is one.
pub open spec fn word_at(b: Seq<u8>, at: int) -> u32 {
    wire::number_at(b, at, 4)->0 as u32
}

/// Fields, with the values that stand from a place on.
pub open spec fn fields_at(b: Seq<u8>, names: Seq<u16>, at: int) -> Seq<(u16, u32)> {
    Seq::new(names.len(), |k: int| (names[k], word_at(b, at + 4 * k)))
}

/// The fields of an object that a block changes.
#[verifier::ext_equal]
pub struct UpdateView {
    pub guid: nat,
    pub fields: Seq<(u16, u32)>,
}

impl View for ValuesUpdate {
    type V = UpdateView;

    open spec fn view(&self) -> UpdateView {
        UpdateView { guid: self.guid as nat, fields: self.fields@ }
    }
}

/// The block at a place, with the place behind it: its kind, the object's packed guid, the number
/// of words of the mask, the mask, and a value for each field that is set.
pub open spec fn block_at(b: Seq<u8>, at: int) -> Option<(UpdateView, int)> {
    if at + 1 >= b.len() || b[at] != VALUES {
        None
    } else {
        match wire::packed_guid(b.skip(at + 1)) {
            None => None,
            Some(guid) => {
                let count = at + 2 + ones(b[at + 1] as nat, 8);
                let mask = count + 1;
                let values = mask + 4 * b[count];
                if count >= b.len() || values > b.len() {
                    None
                } else {
                    let names = set_fields(b.subrange(mask, values), (32 * b[count]) as nat);
                    let end = values + 4 * names.len();
                    if end > b.len() {
                        None
                    } else {
                        Some((UpdateView { guid, fields: fields_at(b, names, values) }, end))
                    }
                }
            },
        }
    }
}

/// The blocks from a place on, at most so many: up to the first that carries anything else, or that
/// is cut off.
pub open spec fn updates_from(b: Seq<u8>, at: int, most: nat) -> Seq<UpdateView>
    decreases most,
{
    if most == 0 {
        Seq::empty()
    } else {
        match block_at(b, at) {
            None => Seq::empty(),
            Some((u, next)) => seq![u] + updates_from(b, next, (most - 1) as nat),
        }
    }
}

/// The updates that a body carries.
pub open spec fn updates_of(b: Seq<u8>) -> Seq<UpdateView> {
    if b.len() < FIRST_BLOCK {
        Seq::empty()
    } else {
        updates_from(b, FIRST_BLOCK as int, wire::number_at(b, 0, 4)->0)
    }
}

// ------------------------------------------------------------------------------------------
//  Reading
// ------------------------------------------------------------------------------------------

fn count_ones(v: u8, n: u8) -> (c: usize)
    requires
        n <= 8,
    ensures
        c == ones(v as nat, n as nat),
        c <= n,
    decreases n,
{
    if n == 0 {
        0
    } else {
        let rest: usize = count_ones(v / 2, n - 1);
        (v % 2) as usize + rest
    }
}

fn has_bit(v: u8, k: u8) -> (yes: bool)
    ensures
        yes == bit(v as nat, k as nat),
    decreases k,
{
    if k == 0 {
        v % 2 == 1
    } else {
        has_bit(v / 2, k - 1)
    }
}

proof fn lemma_few_fields(mask: Seq<u8>, n: nat)
    ensures
        set_fields(mask, n).len() <= n,
    decreases n,
{
    if n > 0 {
        lemma_few_fields(mask, (n - 1) as nat);
    }
}

fn names_of(b: &Vec<u8>, from: usize, words: u8) -> (names: Vec<u16>)
    requires
        from + 4 * words <= b@.len(),
    ensures
        names@ == set_fields(b@.subrange(from as int, from + 4 * words), (32 * words) as nat),
{
    let ghost mask = b@.subrange(from as int, from + 4 * words);
    let n: u16 = 32 * (words as u16);
    let len: usize = b.len();
    let mut names: Vec<u16> = Vec::new();
    for i in 0..n
        invariant
            n == 32 * words,
            len == b@.len(),
            from + 4 * words <= len,
            mask == b@.subrange(from as int, from + 4 * words),
            names@ == set_fields(mask, i as nat),
    {
        assert(mask[i as int / 8] == b@[from + i as int / 8]);
        if has_bit(b[from + (i / 8) as usize], (i % 8) as u8) {
            names.push(i);
        }
    }
    names
}

fn with_values(b: &Vec<u8>, names: &Vec<u16>, at: usize) -> (fields: Vec<(u16, u32)>)
    requires
        at + 4 * names@.len() <= b@.len(),
    ensures
        fields@ == fields_at(b@, names@, at as int),
{
    let len: usize = b.len();
    let mut fields: Vec<(u16, u32)> = Vec::new();
    for k in 0..names.len()
        invariant
            len == b@.len(),
            at + 4 * names@.len() <= len,
            fields@ == fields_at(b@, names@.take(k as int), at as int),
    {
        let place: usize = at + 4 * k;
        let value: u32 = match wire::u32_at(b, place) {
            Some(v) => v,
            None => 0,
        };
        fields.push((names[k], value));
        assert(fields@ =~= fields_at(b@, names@.take(k + 1), at as int));
    }
    assert(names@.take(names@.len() as int) =~= names@);
    fields
}

fn block(b: &Vec<u8>, at: usize) -> (r: Option<(ValuesUpdate, usize)>)
    requires
        at <= b@.len(),
    ensures
        match r {
            Some((u, next)) => block_at(b@, at as int) == Some((u@, next as int)) && at < next
                <= b@.len(),
            None => block_at(b@, at as int) is None,
        },
{
    let len: usize = b.len();
    if len - at < 2 || b[at] != VALUES {
        return None;
    }
    let guid: u64 = match wire::packed_guid_at(b, at + 1) {
        Some(g) => g,
        None => return None,
    };
    let width: usize = count_ones(b[at + 1], 8);
    if len - at - 2 <= width {
        return None;
    }
    let count: usize = at + 2 + width;
    let words: u8 = b[count];
    let mask: usize = count + 1;
    if len - mask < 4 * (words as usize) {
        return None;
    }
    let values: usize = mask + 4 * (words as usize);
    let names: Vec<u16> = names_of(b, mask, words);
    proof {
        lemma_few_fields(b@.subrange(mask as int, values as int), (32 * words) as nat);
    }
    if (len - values) / 4 < names.len() {
        return None;
    }
    let fields: Vec<(u16, u32)> = with_values(b, &names, values);
    Some((ValuesUpdate { guid, fields }, values + 4 * names.len()))
}

/// The fields that a body of an object update changes, block by block. Blocks behind one that
/// carries anything but fields are not read.
pub fn parse_values_updates(body: &Vec<u8>) -> (updates: Vec<ValuesUpdate>)
    ensures
        updates@.map_values(|u: ValuesUpdate| u@) == updates_of(body@),
{
    let mut updates: Vec<ValuesUpdate> = Vec::new();
    if body.len() < FIRST_BLOCK {
        assert(updates@.map_values(|u: ValuesUpdate| u@) =~= Seq::empty());
        return updates;
    }
    let mut left: u32 = match wire::u32_at(body, 0) {
        Some(n) => n,
        None => 0,
    };
    let mut at: usize = FIRST_BLOCK;
    let ghost owed = updates_of(body@);
    assert(updates@.map_values(|u: ValuesUpdate| u@) + owed =~= owed);
    while left > 0
        invariant
            at <= body@.len(),
            owed == updates_of(body@),
            updates@.map_values(|u: ValuesUpdate| u@) + updates_from(body@, at as int, left as nat)
                == owed,
        decreases left,
    {
        match block(body, at) {
            None => {
                assert(updates@.map_values(|u: ValuesUpdate| u@) =~= owed);
                return updates;
            },
            Some((u, next)) => {
                let ghost seen = updates@.map_values(|u: ValuesUpdate| u@);
                let ghost rest = updates_from(body@, next as int, (left - 1) as nat);
                assert(seen + (seq![u@] + rest) =~= seen.push(u@) + rest);
                updates.push(u);
                assert(updates@.map_values(|u: ValuesUpdate| u@) =~= seen.push(u@));
                at = next;
                left = left - 1;
            },
        }
    }
    assert(updates@.map_values(|u: ValuesUpdate| u@) =~= owed);
    updates
}

// ------------------------------------------------------------------------------------------
//  Laws
// ------------------------------------------------------------------------------------------

/// What a block says: the object, the words of the mask, and a value for each field that is set.
pub struct Written {
    pub guid: u64,
    pub words: u8,
    pub mask: Seq<u8>,
    pub values: Seq<u32>,
}

impl Written {
    /// The mask has its words, and each field that is set has a value.
    pub open spec fn valid(self) -> bool {
        &&& self.mask.len() == 4 * self.words
        &&& self.values.len() == set_fields(self.mask, (32 * self.words) as nat).len()
    }

    /// What it says.
    pub open spec fn said(self) -> UpdateView {
        let names = set_fields(self.mask, (32 * self.words) as nat);
        UpdateView {
            guid: self.guid as nat,
            fields: Seq::new(names.len(), |k: int| (names[k], self.values[k])),
        }
    }

    /// The packed guid.
    pub open spec fn object(self) -> Seq<u8> {
        seq![wire::mask_of(self.guid as nat, 8) as u8] + wire::bytes_of(self.guid as nat, 8)
    }

    /// The bytes of the block.
    pub open spec fn bytes(self) -> Seq<u8> {
        seq![VALUES] + self.object() + seq![self.words] + self.mask + value_bytes(self.values)
    }
}

/// A byte of a number.
pub open spec fn byte_of(v: u32, k: int) -> u8 {
    if k == 0 {
        (v % 256) as u8
    } else if k == 1 {
        (v / 256 % 256) as u8
    } else if k == 2 {
        (v / 65536 % 256) as u8
    } else {
        (v / 16777216) as u8
    }
}

/// The bytes of numbers, four each, lowest first.
pub open spec fn value_bytes(v: Seq<u32>) -> Seq<u8> {
    Seq::new(4 * v.len(), |i: int| byte_of(v[i / 4], i % 4))
}

/// The bytes of blocks.
pub open spec fn blocks(w: Seq<Written>) -> Seq<u8>
    decreases w.len(),
{
    if w.len() == 0 {
        Seq::empty()
    } else {
        w[0].bytes() + blocks(w.skip(1))
    }
}

proof fn lemma_ones(v: nat, n: nat)
    ensures
        ones(wire::mask_of(v, n), n) == wire::bytes_of(v, n).len(),
    decreases n,
{
    if n > 0 {
        let m = (n - 1) as nat;
        lemma_ones(v / 256, m);
        assert(wire::mask_of(v, n) / 2 == wire::mask_of(v / 256, m));
    }
}

proof fn lemma_word(b: Seq<u8>, at: int, v: u32)
    requires
        0 <= at,
        at + 4 <= b.len(),
        forall|k: int| 0 <= k < 4 ==> #[trigger] b[at + k] == byte_of(v, k),
    ensures
        word_at(b, at) == v,
{
    wire::lemma_four(b, at);
    assert(b[at + 0] == byte_of(v, 0));
    assert(b[at + 1] == byte_of(v, 1));
    assert(b[at + 2] == byte_of(v, 2));
    assert(b[at + 3] == byte_of(v, 3));
}

/// A block reads back, wherever it stands.
pub proof fn a_block_reads_back(before: Seq<u8>, w: Written, after: Seq<u8>)
    requires
        w.valid(),
    ensures
        block_at(before + w.bytes() + after, before.len() as int) == Some(
            (w.said(), (before.len() + w.bytes().len()) as int),
        ),
{
    let b = before + w.bytes() + after;
    let at = before.len() as int;
    let tail = seq![w.words] + w.mask + value_bytes(w.values) + after;
    wire::a_packed_guid_reads_back(w.guid, tail);
    assert(b.skip(at + 1) =~= seq![wire::mask_of(w.guid as nat, 8) as u8] + wire::bytes_of(
        w.guid as nat,
        8,
    ) + tail);
    lemma_ones(w.guid as nat, 8);
    let object = w.object();
    assert(b[at + 1] == object[0]);
    let count = at + 1 + object.len();
    assert(b[count] == w.words);
    let mask = count + 1;
    let values = mask + 4 * w.words;
    assert(b.subrange(mask, values) =~= w.mask);
    let names = set_fields(w.mask, (32 * w.words) as nat);
    assert forall|k: int| 0 <= k < names.len() implies word_at(b, values + 4 * k) == w.values[k] by {
        assert forall|j: int| 0 <= j < 4 implies #[trigger] b[values + 4 * k + j] == byte_of(
            w.values[k],
            j,
        ) by {
            assert(b[values + 4 * k + j] == value_bytes(w.values)[4 * k + j]);
            assert((4 * k + j) / 4 == k && (4 * k + j) % 4 == j);
        }
        lemma_word(b, values + 4 * k, w.values[k]);
    }
    assert(fields_at(b, names, values) =~= w.said().fields);
}

proof fn lemma_blocks(before: Seq<u8>, w: Seq<Written>)
    requires
        forall|k: int| 0 <= k < w.len() ==> (#[trigger] w[k]).valid(),
    ensures
        updates_from(before + blocks(w), before.len() as int, w.len()) == w.map_values(
            |x: Written| x.said(),
        ),
    decreases w.len(),
{
    let said = w.map_values(|x: Written| x.said());
    if w.len() > 0 {
        let rest = w.skip(1);
        let b = before + blocks(w);
        a_block_reads_back(before, w[0], blocks(rest));
        assert(b =~= before + w[0].bytes() + blocks(rest));
        assert forall|k: int| 0 <= k < rest.len() implies (#[trigger] rest[k]).valid() by {
            assert(rest[k] == w[k + 1]);
        }
        lemma_blocks(before + w[0].bytes(), rest);
        assert(b =~= before + w[0].bytes() + blocks(rest));
        assert(said =~= seq![w[0].said()] + rest.map_values(|x: Written| x.said()));
    } else {
        assert(said =~= Seq::empty());
    }
}

/// The updates of a message read back: their number, the mark of a transport, and the blocks.
pub proof fn updates_read_back(transport: u8, w: Seq<Written>)
    requires
        w.len() <= u32::MAX,
        forall|k: int| 0 <= k < w.len() ==> (#[trigger] w[k]).valid(),
    ensures
        updates_of(value_bytes(seq![w.len() as u32]) + seq![transport] + blocks(w))
            == w.map_values(|x: Written| x.said()),
{
    let head = value_bytes(seq![w.len() as u32]) + seq![transport];
    let b = head + blocks(w);
    assert forall|k: int| 0 <= k < 4 implies #[trigger] b[0 + k] == byte_of(w.len() as u32, k) by {
        assert(b[k] == value_bytes(seq![w.len() as u32])[k]);
    }
    lemma_word(b, 0, w.len() as u32);
    wire::lemma_four(b, 0);
    lemma_blocks(head, w);
}

// ------------------------------------------------------------------------------------------
//  What ends the reading, and which fields are set
// ------------------------------------------------------------------------------------------

/// A block of any other kind than zero says nothing of fields, whatever it holds.
pub proof fn only_value_blocks_are_read(b: Seq<u8>, at: int)
    requires
        0 <= at < b.len(),
        b[at] != 0,
    ensures
        block_at(b, at) is None,
{
}

proof fn lemma_up_to(before: Seq<u8>, w: Seq<Written>, rest: Seq<u8>, most: nat)
    requires
        forall|k: int| 0 <= k < w.len() ==> (#[trigger] w[k]).valid(),
        most <= w.len() || rest.len() == 0 || rest[0] != 0,
    ensures
        updates_from(before + blocks(w) + rest, before.len() as int, most) == (if most <= w.len() {
            w.take(most as int)
        } else {
            w
        }).map_values(|x: Written| x.said()),
    decreases w.len(),
{
    let b = before + blocks(w) + rest;
    let read = if most <= w.len() {
        w.take(most as int)
    } else {
        w
    };
    let said = read.map_values(|x: Written| x.said());
    if most == 0 {
        assert(said =~= Seq::<UpdateView>::empty());
    } else if w.len() == 0 {
        assert(b =~= before + rest);
        assert(block_at(b, before.len() as int) is None);
        assert(said =~= Seq::<UpdateView>::empty());
    } else {
        let more = w.skip(1);
        a_block_reads_back(before, w[0], blocks(more) + rest);
        assert(b =~= before + w[0].bytes() + (blocks(more) + rest));
        assert forall|k: int| 0 <= k < more.len() implies (#[trigger] more[k]).valid() by {
            assert(more[k] == w[k + 1]);
        }
        lemma_up_to(before + w[0].bytes(), more, rest, (most - 1) as nat);
        assert(b =~= (before + w[0].bytes()) + blocks(more) + rest);
        let tail = if most - 1 <= more.len() {
            more.take(most - 1)
        } else {
            more
        };
        assert(said =~= seq![w[0].said()] + tail.map_values(|x: Written| x.said()));
    }
}

/// A message is read block by block, as many as it announces: up to the first block that is of any
/// other kind than zero, or to the end of the message. What was read before is exactly what those
/// blocks say, whatever follows.
pub proof fn reading_ends_at_another_kind(
    count: u32,
    transport: u8,
    w: Seq<Written>,
    rest: Seq<u8>,
)
    requires
        forall|k: int| 0 <= k < w.len() ==> (#[trigger] w[k]).valid(),
        count <= w.len() || rest.len() == 0 || rest[0] != 0,
    ensures
        updates_of(value_bytes(seq![count]) + seq![transport] + blocks(w) + rest) == (if count
            <= w.len() {
            w.take(count as int)
        } else {
            w
        }).map_values(|x: Written| x.said()),
{
    let head = value_bytes(seq![count]) + seq![transport];
    let b = head + blocks(w) + rest;
    assert forall|k: int| 0 <= k < 4 implies #[trigger] b[0 + k] == byte_of(count, k) by {
        assert(b[k] == value_bytes(seq![count])[k]);
    }
    lemma_word(b, 0, count);
    wire::lemma_four(b, 0);
    lemma_up_to(head, w, rest, count as nat);
}

/// A block begins with a zero.
pub proof fn a_block_of_values_begins_with_zero(w: Written)
    ensures
        w.bytes()[0] == 0,
        w.bytes().len() > 2,
{
}

/// A message without room for its number and the mark says nothing.
pub proof fn a_short_message_says_nothing(b: Seq<u8>)
    requires
        b.len() <= 5,
    ensures
        updates_of(b).len() == 0,
{
    if b.len() == 5 {
        let most = wire::number_at(b, 0, 4)->0;
        assert(block_at(b, 5) is None);
        assert(updates_from(b, 5, most).len() == 0);
    }
}

proof fn lemma_bit(v: u8, k: u8)
    requires
        k < 8,
    ensures
        bit(v as nat, k as nat) == ((v >> k) & 1 == 1),
{
    reveal_with_fuel(bit, 9);
    assert(v as nat / 2 == (v / 2) as nat);
    assert((v >> 0u8) & 1 == v % 2) by (bit_vector);
    assert((v >> 1u8) & 1 == (v / 2) % 2) by (bit_vector);
    assert((v >> 2u8) & 1 == (v / 2 / 2) % 2) by (bit_vector);
    assert((v >> 3u8) & 1 == (v / 2 / 2 / 2) % 2) by (bit_vector);
    assert((v >> 4u8) & 1 == (v / 2 / 2 / 2 / 2) % 2) by (bit_vector);
    assert((v >> 5u8) & 1 == (v / 2 / 2 / 2 / 2 / 2) % 2) by (bit_vector);
    assert((v >> 6u8) & 1 == (v / 2 / 2 / 2 / 2 / 2 / 2) % 2) by (bit_vector);
    assert((v >> 7u8) & 1 == (v / 2 / 2 / 2 / 2 / 2 / 2 / 2) % 2) by (bit_vector);
}

/// The fields that a mask sets are its set bits, from the lowest bit of the first byte on: each
/// once, in ascending order.
pub proof fn the_fields_are_the_set_bits(mask: Seq<u8>, n: nat, field: u16)
    requires
        n <= 8 * mask.len(),
        n <= 65536,
    ensures
        set_fields(mask, n).contains(field) <==> field < n && (mask[field as int / 8] >> (field
            % 8) as u8) & 1 == 1,
        forall|i: int, j: int|
            0 <= i < j < set_fields(mask, n).len() ==> #[trigger] set_fields(mask, n)[i]
                < #[trigger] set_fields(mask, n)[j],
        forall|i: int|
            0 <= i < set_fields(mask, n).len() ==> #[trigger] set_fields(mask, n)[i] < n,
    decreases n,
{
    if n > 0 {
        let m = (n - 1) as nat;
        the_fields_are_the_set_bits(mask, m, field);
        let before = set_fields(mask, m);
        let all = set_fields(mask, n);
        lemma_bit(mask[m as int / 8], (m % 8) as u8);
        if is_set(mask, m as int) {
            assert(all == before.push(m as u16));
            assert(all[all.len() - 1] == m as u16);
            assert(forall|i: int| 0 <= i < before.len() ==> all[i] == before[i]);
            if all.contains(field) {
                let i = choose|i: int| 0 <= i < all.len() && all[i] == field;
                if i < before.len() {
                    assert(before.contains(field));
                }
            }
            if before.contains(field) {
                let i = choose|i: int| 0 <= i < before.len() && before[i] == field;
                assert(all[i] == field);
            }
        }
    }
}

} // verus!
