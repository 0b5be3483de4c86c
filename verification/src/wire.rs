//! Bodies of packets, read byte by byte where no decoder takes them.

use vstd::prelude::*;
use crate::number;
use crate::text;

verus! {

// ------------------------------------------------------------------------------------------
//  Little-endian numbers
// ------------------------------------------------------------------------------------------

/// The number that some bytes are, lowest first.
pub open spec fn little_endian(b: Seq<u8>) -> nat
    decreases b.len(),
{
    if b.len() == 0 {
        0
    } else {
        b[0] as nat + 256 * little_endian(b.skip(1))
    }
}

/// The number at a place in a body, where it has that many bytes there.
pub open spec fn number_at(b: Seq<u8>, at: int, width: int) -> Option<nat> {
    if 0 <= at && at + width <= b.len() {
        Some(little_endian(b.subrange(at, at + width)))
    } else {
        None
    }
}

proof fn lemma_two(b: Seq<u8>, at: int)
    requires
        0 <= at,
        at + 2 <= b.len(),
    ensures
        little_endian(b.subrange(at, at + 2)) == b[at] + 256 * b[at + 1],
{
    let s = b.subrange(at, at + 2);
    assert(s.skip(1)[0] == b[at + 1]);
    assert(s.skip(1).skip(1).len() == 0);
    reveal_with_fuel(little_endian, 3);
}

pub(crate) proof fn lemma_four(b: Seq<u8>, at: int)
    requires
        0 <= at,
        at + 4 <= b.len(),
    ensures
        little_endian(b.subrange(at, at + 4)) == b[at] + 256 * (b[at + 1] + 256 * (b[at + 2] + 256
            * b[at + 3])),
{
    let s = b.subrange(at, at + 4);
    lemma_two(b, at + 2);
    assert(s.skip(1).skip(1) =~= b.subrange(at + 2, at + 4));
    assert(s.skip(1)[0] == b[at + 1]);
    assert(little_endian(s.skip(1)) == b[at + 1] + 256 * little_endian(s.skip(1).skip(1)));
}

/// The two-byte number at a place.
pub fn u16_at(b: &Vec<u8>, at: usize) -> (n: Option<u16>)
    ensures
        match n {
            Some(x) => number_at(b@, at as int, 2) == Some(x as nat),
            None => number_at(b@, at as int, 2) is None,
        },
{
    let len: usize = b.len();
    if len < 2 || at > len - 2 {
        return None;
    }
    proof {
        lemma_two(b@, at as int);
    }
    Some(b[at] as u16 + 256 * b[at + 1] as u16)
}

/// The four-byte number at a place.
pub fn u32_at(b: &Vec<u8>, at: usize) -> (n: Option<u32>)
    ensures
        match n {
            Some(x) => number_at(b@, at as int, 4) == Some(x as nat),
            None => number_at(b@, at as int, 4) is None,
        },
{
    let len: usize = b.len();
    if len < 4 || at > len - 4 {
        return None;
    }
    proof {
        lemma_four(b@, at as int);
    }
    Some(
        b[at] as u32 + 256 * (b[at + 1] as u32 + 256 * (b[at + 2] as u32 + 256 * b[at + 3] as u32)),
    )
}

proof fn lemma_eight(b: Seq<u8>, at: int)
    requires
        0 <= at,
        at + 8 <= b.len(),
    ensures
        little_endian(b.subrange(at, at + 8)) == little_endian(b.subrange(at, at + 4))
            + 0x1_0000_0000 * little_endian(b.subrange(at + 4, at + 8)),
{
    let s = b.subrange(at, at + 8);
    lemma_four(b, at);
    assert(s.skip(1).skip(1).skip(1).skip(1) =~= b.subrange(at + 4, at + 8));
    assert(s.skip(1)[0] == b[at + 1]);
    assert(s.skip(1).skip(1)[0] == b[at + 2]);
    assert(s.skip(1).skip(1).skip(1)[0] == b[at + 3]);
    reveal_with_fuel(little_endian, 5);
}

/// The eight-byte number at a place.
pub fn u64_at(b: &Vec<u8>, at: usize) -> (n: Option<u64>)
    ensures
        match n {
            Some(x) => number_at(b@, at as int, 8) == Some(x as nat),
            None => number_at(b@, at as int, 8) is None,
        },
{
    let len: usize = b.len();
    if len < 8 || at > len - 8 {
        return None;
    }
    proof {
        lemma_eight(b@, at as int);
    }
    match (u32_at(b, at), u32_at(b, at + 4)) {
        (Some(low), Some(high)) => Some(low as u64 + 0x1_0000_0000 * (high as u64)),
        _ => None,
    }
}

/// A four-byte number stands somewhere in a body.
pub open spec fn holds_word(b: Seq<u8>, word: u32) -> bool {
    exists|i: int| #[trigger] number_at(b, i, 4) == Some(word as nat)
}

/// Whether a four-byte number stands somewhere in a body.
pub fn contains_word(b: &Vec<u8>, word: u32) -> (yes: bool)
    ensures
        yes == holds_word(b@, word),
{
    let len: usize = b.len();
    let mut i: usize = 0;
    while i < len
        invariant
            len == b@.len(),
            i <= len,
            forall|j: int| j < i ==> #[trigger] number_at(b@, j, 4) != Some(word as nat),
        decreases len - i,
    {
        match u32_at(b, i) {
            Some(x) => {
                if x == word {
                    assert(number_at(b@, i as int, 4) == Some(word as nat));
                    return true;
                }
            },
            None => {},
        }
        i = i + 1;
    }
    assert forall|j: int| #[trigger] number_at(b@, j, 4) != Some(word as nat) by {
        if j >= len {
            assert(number_at(b@, j, 4) is None);
        }
    }
    false
}

// ------------------------------------------------------------------------------------------
//  Packed guids
// ------------------------------------------------------------------------------------------

/// A number of `n` bytes whose zero bytes are left out: the lowest bit of the mask says whether
/// the lowest byte is there.
pub open spec fn unpacked(mask: nat, rest: Seq<u8>, n: nat) -> Option<nat>
    decreases n,
{
    if n == 0 {
        Some(0)
    } else if mask % 2 == 1 {
        if rest.len() == 0 {
            None
        } else {
            match unpacked(mask / 2, rest.skip(1), (n - 1) as nat) {
                Some(v) => Some(rest[0] as nat + 256 * v),
                None => None,
            }
        }
    } else {
        match unpacked(mask / 2, rest, (n - 1) as nat) {
            Some(v) => Some(256 * v),
            None => None,
        }
    }
}

/// The guid at the head of a body: a mask, then a byte for each bit of it.
pub open spec fn packed_guid(b: Seq<u8>) -> Option<nat> {
    if b.len() == 0 {
        None
    } else {
        unpacked(b[0] as nat, b.skip(1), 8)
    }
}

/// How many numbers there are of so many bytes.
pub open spec fn span_of(n: nat) -> nat
    decreases n,
{
    if n == 0 {
        1
    } else {
        256 * span_of((n - 1) as nat)
    }
}

proof fn lemma_span(n: nat)
    requires
        n <= 7,
    ensures
        span_of(n) <= 0x100_0000_0000_0000,
{
    reveal_with_fuel(span_of, 9);
}

fn unpack(mask: u8, b: &Vec<u8>, at: usize, n: u8) -> (v: Option<u64>)
    requires
        at <= b@.len(),
        n <= 8,
    ensures
        match v {
            Some(x) => unpacked(mask as nat, b@.skip(at as int), n as nat) == Some(x as nat) && x
                < span_of(n as nat),
            None => unpacked(mask as nat, b@.skip(at as int), n as nat) is None,
        },
    decreases n,
{
    if n == 0 {
        return Some(0);
    }
    proof {
        lemma_span((n - 1) as nat);
    }
    if mask % 2 == 1 {
        if at == b.len() {
            return None;
        }
        assert(b@.skip(at as int)[0] == b@[at as int]);
        assert(b@.skip(at as int).skip(1) =~= b@.skip(at + 1));
        match unpack(mask / 2, b, at + 1, n - 1) {
            Some(v) => Some(b[at] as u64 + 256 * v),
            None => None,
        }
    } else {
        match unpack(mask / 2, b, at, n - 1) {
            Some(v) => Some(256 * v),
            None => None,
        }
    }
}

/// Reads the guid at the head of a body.
pub fn read_packed_guid(payload: &Vec<u8>) -> (guid: Option<u64>)
    ensures
        match guid {
            Some(g) => packed_guid(payload@) == Some(g as nat),
            None => packed_guid(payload@) is None,
        },
{
    if payload.len() == 0 {
        return None;
    }
    unpack(payload[0], payload, 1, 8)
}

/// Reads the packed guid at a place.
pub(crate) fn packed_guid_at(b: &Vec<u8>, at: usize) -> (guid: Option<u64>)
    requires
        at <= b@.len(),
    ensures
        match guid {
            Some(g) => packed_guid(b@.skip(at as int)) == Some(g as nat),
            None => packed_guid(b@.skip(at as int)) is None,
        },
{
    if at == b.len() {
        return None;
    }
    assert(b@.skip(at as int)[0] == b@[at as int]);
    assert(b@.skip(at as int).skip(1) =~= b@.skip(at + 1));
    unpack(b[at], b, at + 1, 8)
}

/// The mask of a number of `n` bytes.
pub open spec fn mask_of(v: nat, n: nat) -> nat
    decreases n,
{
    if n == 0 {
        0
    } else {
        (if v % 256 == 0 {
            0nat
        } else {
            1nat
        }) + 2 * mask_of(v / 256, (n - 1) as nat)
    }
}

/// The bytes of a number of `n` bytes that are not zero.
pub open spec fn bytes_of(v: nat, n: nat) -> Seq<u8>
    decreases n,
{
    if n == 0 {
        Seq::empty()
    } else if v % 256 == 0 {
        bytes_of(v / 256, (n - 1) as nat)
    } else {
        seq![(v % 256) as u8] + bytes_of(v / 256, (n - 1) as nat)
    }
}

proof fn lemma_unpacked(v: nat, n: nat, tail: Seq<u8>)
    requires
        v < span_of(n),
    ensures
        unpacked(mask_of(v, n), bytes_of(v, n) + tail, n) == Some(v),
    decreases n,
{
    if n > 0 {
        let m = (n - 1) as nat;
        lemma_unpacked(v / 256, m, tail);
        let mask = mask_of(v, n);
        assert(mask / 2 == mask_of(v / 256, m));
        if v % 256 != 0 {
            assert(mask % 2 == 1);
            assert((bytes_of(v, n) + tail).skip(1) =~= bytes_of(v / 256, m) + tail);
            assert((bytes_of(v, n) + tail)[0] == (v % 256) as u8);
        } else {
            assert(mask % 2 == 0);
        }
    }
}

proof fn lemma_mask(v: nat, n: nat)
    ensures
        mask_of(v, n) < vstd::arithmetic::power2::pow2(n),
    decreases n,
{
    vstd::arithmetic::power2::lemma2_to64();
    if n > 0 {
        lemma_mask(v / 256, (n - 1) as nat);
        vstd::arithmetic::power2::lemma_pow2_unfold(n);
    }
}

/// A packed guid reads back, whatever follows it.
pub proof fn a_packed_guid_reads_back(guid: u64, tail: Seq<u8>)
    ensures
        mask_of(guid as nat, 8) <= 255,
        packed_guid(seq![mask_of(guid as nat, 8) as u8] + bytes_of(guid as nat, 8) + tail) == Some(
            guid as nat,
        ),
{
    lemma_mask(guid as nat, 8);
    vstd::arithmetic::power2::lemma2_to64();
    assert(span_of(8) == 0x1_0000_0000_0000_0000) by {
        reveal_with_fuel(span_of, 9);
    }
    let b = seq![mask_of(guid as nat, 8) as u8] + bytes_of(guid as nat, 8) + tail;
    assert(b.skip(1) =~= bytes_of(guid as nat, 8) + tail);
    lemma_unpacked(guid as nat, 8, tail);
}

// ------------------------------------------------------------------------------------------
//  What the probes look for
// ------------------------------------------------------------------------------------------

/// Objects are updated.
pub const SMSG_UPDATE_OBJECT: u16 = 0x00A9;

/// An object is gone.
pub const SMSG_DESTROY_OBJECT: u16 = 0x00AA;

/// A creature moves.
pub const SMSG_MONSTER_MOVE: u16 = 0x00DD;

/// A player jumps.
pub const MSG_MOVE_JUMP: u16 = 0x00BB;

/// Someone speaks.
pub const SMSG_MESSAGECHAT: u16 = 0x0096;

/// A player speaks.
pub const CMSG_MESSAGECHAT: u32 = 0x0095;

/// Dice are thrown.
pub const MSG_RANDOM_ROLL: u16 = 0x01FB;

/// A gesture in words.
pub const SMSG_TEXT_EMOTE: u16 = 0x0105;

/// An item was gained.
pub const SMSG_ITEM_PUSH_RESULT: u16 = 0x0166;

/// A heal in the log.
pub const SMSG_SPELLHEALLOG: u16 = 0x0150;

/// The language of addons.
pub const LANG_ADDON: u32 = 0xFFFF_FFFF;

/// An opcode relays the movement of a player.
pub open spec fn is_move(opcode: u16) -> bool {
    0x00B5 <= opcode <= 0x00EE
}

/// A guid as a number.
pub open spec fn as_number(g: Option<u64>) -> Option<nat> {
    match g {
        Some(n) => Some(n as nat),
        None => None,
    }
}

/// Who moved, where a frame relays a movement.
pub open spec fn moved_by(opcode: u16, b: Seq<u8>) -> Option<nat> {
    if is_move(opcode) {
        packed_guid(b)
    } else {
        None
    }
}

/// Who is gone, where a frame says that an object is.
pub open spec fn gone(opcode: u16, b: Seq<u8>) -> Option<nat> {
    if opcode == SMSG_DESTROY_OBJECT {
        number_at(b, 0, 8)
    } else {
        None
    }
}

/// Two numbers at two places, where both are there.
pub open spec fn two_at(b: Seq<u8>, first: int, second: int) -> Option<(nat, nat)> {
    match (number_at(b, first, 4), number_at(b, second, 4)) {
        (Some(a), Some(c)) => Some((a, c)),
        _ => None,
    }
}

/// Two numbers without their width.
pub open spec fn two_numbers(w: Option<(u32, u32)>) -> Option<(nat, nat)> {
    match w {
        Some((a, b)) => Some((a as nat, b as nat)),
        None => None,
    }
}

/// What was gained: the item and how many.
pub open spec fn gained(b: Seq<u8>) -> Option<(nat, nat)> {
    two_at(b, 25, 37)
}

/// The first two numbers of a body.
pub open spec fn first_two(b: Seq<u8>) -> Option<(nat, nat)> {
    two_at(b, 0, 4)
}

/// How much was healed.
pub open spec fn healed(b: Seq<u8>) -> Option<nat> {
    number_at(b, b.len() - 5, 4)
}

/// Who moved, where a frame relays a movement.
pub fn mover(opcode: u16, payload: &Vec<u8>) -> (guid: Option<u64>)
    ensures
        as_number(guid) == moved_by(opcode, payload@),
{
    if opcode >= 0x00B5 && opcode <= 0x00EE {
        read_packed_guid(payload)
    } else {
        None
    }
}

/// Who is gone, where a frame says that an object is.
pub fn destroyed(opcode: u16, payload: &Vec<u8>) -> (guid: Option<u64>)
    ensures
        as_number(guid) == gone(opcode, payload@),
{
    if opcode == SMSG_DESTROY_OBJECT {
        u64_at(payload, 0)
    } else {
        None
    }
}

/// What was gained: the item and how many.
pub fn item_push(payload: &Vec<u8>) -> (gained: Option<(u32, u32)>)
    ensures
        two_numbers(gained) == self::gained(payload@),
{
    match (u32_at(payload, 25), u32_at(payload, 37)) {
        (Some(item), Some(count)) => Some((item, count)),
        _ => None,
    }
}

/// How much was healed: the number before the last byte.
pub fn heal_amount(payload: &Vec<u8>) -> (amount: Option<u32>)
    ensures
        match amount {
            Some(n) => healed(payload@) == Some(n as nat),
            None => healed(payload@) is None,
        },
{
    let len: usize = payload.len();
    if len < 5 {
        None
    } else {
        u32_at(payload, len - 5)
    }
}

/// The first two numbers of a body.
pub fn head_words(payload: &Vec<u8>) -> (w: Option<(u32, u32)>)
    ensures
        two_numbers(w) == first_two(payload@),
{
    match (u32_at(payload, 0), u32_at(payload, 4)) {
        (Some(a), Some(b)) => Some((a, b)),
        _ => None,
    }
}

/// Dice as thrown.
#[derive(Clone, Copy, Debug, PartialEq, Eq, Structural)]
pub struct Roll {
    pub minimum: u32,
    pub maximum: u32,
    pub result: u32,
    pub roller: u64,
}

/// Dice, where a frame says how they fell.
pub open spec fn rolled(opcode: u16, b: Seq<u8>) -> Option<Roll> {
    if opcode == MSG_RANDOM_ROLL && number_at(b, 12, 8) is Some {
        Some(
            Roll {
                minimum: number_at(b, 0, 4)->0 as u32,
                maximum: number_at(b, 4, 4)->0 as u32,
                result: number_at(b, 8, 4)->0 as u32,
                roller: number_at(b, 12, 8)->0 as u64,
            },
        )
    } else {
        None
    }
}

/// Dice, where a frame says how they fell.
pub fn roll_of(opcode: u16, payload: &Vec<u8>) -> (r: Option<Roll>)
    ensures
        r == rolled(opcode, payload@),
{
    if opcode != MSG_RANDOM_ROLL {
        return None;
    }
    match (u32_at(payload, 0), u32_at(payload, 4), u32_at(payload, 8), u64_at(payload, 12)) {
        (Some(minimum), Some(maximum), Some(result), Some(roller)) => Some(
            Roll { minimum, maximum, result, roller },
        ),
        _ => None,
    }
}

/// A guid in hexadecimal.
pub open spec fn guid_text(g: u64) -> Seq<char> {
    "0x"@ + number::hex(g as nat, false)
}

/// Appends a guid in hexadecimal.
pub fn push_guid(out: &mut String, g: u64)
    ensures
        final(out)@ == old(out)@ + guid_text(g),
{
    let ghost start = out@;
    out.append("0x");
    number::push_hex(out, g, false);
    assert(out@ =~= start + guid_text(g));
}

/// Why a throw is not the one that was asked for, if so.
pub open spec fn roll_fault(r: Roll, min: u32, max: u32, own: u64) -> Option<Seq<char>> {
    if r.roller != own {
        Some(
            "roll: roller_guid="@ + guid_text(r.roller) + " but self_guid="@ + guid_text(own)
                + " (mismatch)"@,
        )
    } else if r.minimum != min || r.maximum != max {
        Some(
            "roll: echoed range ["@ + number::decimal(r.minimum as nat) + ","@ + number::decimal(
                r.maximum as nat,
            ) + "], want ["@ + number::decimal(min as nat) + ","@ + number::decimal(max as nat)
                + "]"@,
        )
    } else if r.result < min || r.result > max {
        Some(
            "roll: result="@ + number::decimal(r.result as nat) + " outside range ["@
                + number::decimal(r.minimum as nat) + ","@ + number::decimal(r.maximum as nat)
                + "]"@,
        )
    } else {
        None
    }
}

impl Roll {
    /// Whether the throw is the one that was asked for.
    pub fn check(&self, min: u32, max: u32, own: u64) -> (fault: Option<String>)
        ensures
            text::text_of(fault) == roll_fault(*self, min, max, own),
    {
        let mut s: String = String::new();
        if self.roller != own {
            s.append("roll: roller_guid=");
            push_guid(&mut s, self.roller);
            s.append(" but self_guid=");
            push_guid(&mut s, own);
            s.append(" (mismatch)");
            assert(s@ =~= roll_fault(*self, min, max, own)->0);
            return Some(s);
        }
        if self.minimum != min || self.maximum != max {
            s.append("roll: echoed range [");
            number::push_decimal(&mut s, self.minimum as u64);
            s.append(",");
            number::push_decimal(&mut s, self.maximum as u64);
            s.append("], want [");
            number::push_decimal(&mut s, min as u64);
            s.append(",");
            number::push_decimal(&mut s, max as u64);
            s.append("]");
            assert(s@ =~= roll_fault(*self, min, max, own)->0);
            return Some(s);
        }
        if self.result < min || self.result > max {
            s.append("roll: result=");
            number::push_decimal(&mut s, self.result as u64);
            s.append(" outside range [");
            number::push_decimal(&mut s, self.minimum as u64);
            s.append(",");
            number::push_decimal(&mut s, self.maximum as u64);
            s.append("]");
            assert(s@ =~= roll_fault(*self, min, max, own)->0);
            return Some(s);
        }
        None
    }
}

// ------------------------------------------------------------------------------------------
//  Text in packets
// ------------------------------------------------------------------------------------------

/// The text that `String::from_utf8_lossy` makes of some bytes.
pub uninterp spec fn lossy(bytes: Seq<u8>) -> Seq<char>;

/// Trusted: `String::from_utf8_lossy` makes a text of any bytes. Where they are UTF-8 it is the
/// text that they encode; what stands in the place of other bytes is not said here.
#[verifier::external_body]
pub(crate) fn lossy_text(bytes: &Vec<u8>) -> (s: String)
    ensures
        s@ == lossy(bytes@),
        vstd::utf8::valid_utf8(bytes@) ==> s@ == vstd::utf8::decode_utf8(bytes@),
{
    String::from_utf8_lossy(bytes).into_owned()
}

/// The bytes of a body between two places.
pub(crate) fn slice_of(b: &Vec<u8>, from: usize, to: usize) -> (v: Vec<u8>)
    requires
        from <= to <= b@.len(),
    ensures
        v@ == b@.subrange(from as int, to as int),
{
    let mut v: Vec<u8> = Vec::new();
    for i in from..to
        invariant
            from <= to <= b@.len(),
            v@ == b@.subrange(from as int, i as int),
    {
        v.push(b[i]);
        assert(b@.subrange(from as int, i + 1) =~= b@.subrange(from as int, i as int).push(
            b@[i as int],
        ));
    }
    v
}

/// A text without the NULs at its end.
pub open spec fn without_nuls(s: Seq<char>) -> Seq<char>
    decreases s.len(),
{
    if s.len() > 0 && s.last() == '\0' {
        without_nuls(s.drop_last())
    } else {
        s
    }
}

/// A text without the NULs at its beginning.
pub open spec fn past_nuls(s: Seq<char>) -> Seq<char>
    decreases s.len(),
{
    if s.len() > 0 && s[0] == '\0' {
        past_nuls(s.skip(1))
    } else {
        s
    }
}

/// A text without the NULs at its end.
pub fn drop_nuls(s: &str) -> (r: String)
    ensures
        r@ == without_nuls(s@),
{
    let v = text::chars_of(s);
    let mut end: usize = v.len();
    assert(v@.take(end as int) =~= v@);
    while end > 0 && v[end - 1] == '\0'
        invariant
            end <= v@.len(),
            without_nuls(v@.take(end as int)) == without_nuls(v@),
        decreases end,
    {
        assert(v@.take(end as int).drop_last() =~= v@.take(end - 1));
        end = end - 1;
    }
    if end > 0 {
        assert(v@.take(end as int).last() == v@[end - 1]);
    }
    assert(v@.subrange(0, end as int) =~= v@.take(end as int));
    text::string_of(&v, 0, end)
}

/// A text without the NULs around it.
pub fn trim_nuls(s: &str) -> (r: String)
    ensures
        r@ == without_nuls(past_nuls(s@)),
{
    let v = text::chars_of(s);
    let mut from: usize = 0;
    assert(v@.skip(0) =~= v@);
    while from < v.len() && v[from] == '\0'
        invariant
            from <= v@.len(),
            past_nuls(v@.skip(from as int)) == past_nuls(v@),
        decreases v.len() - from,
    {
        assert(v@.skip(from as int).skip(1) =~= v@.skip(from + 1));
        from = from + 1;
    }
    if from < v.len() {
        assert(v@.skip(from as int)[0] == v@[from as int]);
    }
    let rest: String = text::string_of(&v, from, v.len());
    assert(rest@ =~= v@.skip(from as int));
    drop_nuls(rest.as_str())
}

/// The bytes of the name in a gesture: as many as it says, or as there are.
pub open spec fn emote_bytes(b: Seq<u8>) -> Option<Seq<u8>> {
    match number_at(b, 16, 4) {
        None => None,
        Some(n) => Some(
            b.subrange(
                20,
                if n <= b.len() - 20 {
                    20 + n as int
                } else {
                    b.len() as int
                },
            ),
        ),
    }
}

/// The name in a gesture, where a frame is one: none where the frame is too short for a name.
pub fn emote_name(opcode: u16, payload: &Vec<u8>) -> (r: Option<Option<String>>)
    ensures
        match r {
            None => opcode != SMSG_TEXT_EMOTE,
            Some(name) => opcode == SMSG_TEXT_EMOTE && text::text_of(name) == match emote_bytes(
                payload@,
            ) {
                Some(bytes) => Some(without_nuls(lossy(bytes))),
                None => None,
            },
        },
{
    if opcode != SMSG_TEXT_EMOTE {
        return None;
    }
    match u32_at(payload, 16) {
        None => Some(None),
        Some(n) => {
            let room: usize = payload.len() - 20;
            let end: usize = if n as u64 <= room as u64 {
                20 + n as usize
            } else {
                payload.len()
            };
            let bytes: Vec<u8> = slice_of(payload, 20, end);
            let name: String = lossy_text(&bytes);
            Some(Some(drop_nuls(name.as_str())))
        },
    }
}

// ------------------------------------------------------------------------------------------
//  The addon channel
// ------------------------------------------------------------------------------------------

/// An envelope of the addon channel.
pub open spec fn envelope(what: Seq<char>, payload: Seq<char>) -> Seq<char> {
    "STC\tv1|"@ + what + "|0|1/1|"@ + payload
}

fn envelope_of(what: &str, payload: &str) -> (s: String)
    ensures
        s@ == envelope(what@, payload@),
{
    let mut s: String = "STC\tv1|".to_owned();
    s.append(what);
    s.append("|0|1/1|");
    s.append(payload);
    s
}

/// The body of a whisper to oneself in the addon language.
pub open spec fn ping_bytes(payload: Seq<char>) -> Seq<u8> {
    seq![6u8, 0, 0, 0, 255, 255, 255, 255] + seq![83u8, 101, 108, 102, 0]
        + vstd::utf8::encode_utf8(envelope("ping"@, payload)) + seq![0u8]
}

/// The body of the ping that a payload goes out with.
pub fn ping_body(payload: &str) -> (body: Vec<u8>)
    ensures
        body@ == ping_bytes(payload@),
{
    let mut body: Vec<u8> = vec![6, 0, 0, 0, 255, 255, 255, 255, 83, 101, 108, 102, 0];
    let t: String = envelope_of("ping", payload);
    let bytes = t.as_str().as_bytes();
    let ghost start = body@;
    for i in 0..bytes.len()
        invariant
            body@ == start + bytes@.take(i as int),
    {
        body.push(bytes[i]);
        assert(bytes@.take(i + 1) =~= bytes@.take(i as int).push(bytes@[i as int]));
    }
    assert(bytes@.take(bytes@.len() as int) =~= bytes@);
    body.push(0);
    assert(body@ =~= ping_bytes(payload@));
    body
}

/// The bytes of a text in the addon language, where a frame carries one.
pub open spec fn addon_bytes(opcode: u16, b: Seq<u8>) -> Option<Seq<u8>> {
    if opcode == SMSG_MESSAGECHAT && b.len() >= 17 && number_at(b, 1, 4) == Some(
        LANG_ADDON as nat,
    ) {
        Some(b.skip(17))
    } else {
        None
    }
}

/// The text of a frame in the addon language.
pub fn addon_text(opcode: u16, payload: &Vec<u8>) -> (t: Option<String>)
    ensures
        text::text_of(t) == match addon_bytes(opcode, payload@) {
            Some(bytes) => Some(lossy(bytes)),
            None => None,
        },
{
    if opcode != SMSG_MESSAGECHAT || payload.len() < 17 {
        return None;
    }
    match u32_at(payload, 1) {
        Some(lang) => if lang == LANG_ADDON {
            let bytes: Vec<u8> = slice_of(payload, 17, payload.len());
            assert(bytes@ =~= payload@.skip(17));
            Some(lossy_text(&bytes))
        } else {
            None
        },
        None => None,
    }
}

/// A text answers the ping that a payload went out with.
pub open spec fn answers_ping(said: Seq<char>, payload: Seq<char>) -> bool {
    text::has_text(said, envelope("pong"@, payload))
}

/// Whether a text answers the ping that a payload went out with.
pub fn is_pong(said: &str, payload: &str) -> (yes: bool)
    ensures
        yes == answers_ping(said@, payload@),
{
    let want: String = envelope_of("pong", payload);
    text::contains(said, want.as_str())
}

/// A text split at most so often, the last piece unsplit.
pub open spec fn split_first(s: Seq<char>, c: char, n: nat) -> Seq<Seq<char>>
    decreases n,
{
    let i = text::first_index(s, c);
    if n <= 1 || !(0 <= i < s.len()) {
        seq![s]
    } else {
        seq![s.take(i)] + split_first(s.skip(i + 1), c, (n - 1) as nat)
    }
}

/// A text split at most so often, the last piece unsplit.
pub fn splitn(v: &Vec<char>, c: char, n: usize) -> (out: Vec<String>)
    requires
        n >= 1,
    ensures
        text::texts(out@) == split_first(v@, c, n as nat),
{
    let mut out: Vec<String> = Vec::new();
    let mut from: usize = 0;
    let mut left: usize = n;
    let len: usize = v.len();
    assert(v@.skip(0) =~= v@);
    assert(text::texts(out@) + split_first(v@, c, n as nat) =~= split_first(v@, c, n as nat));
    loop
        invariant
            len == v@.len(),
            from <= len,
            1 <= left <= n,
            text::texts(out@) + split_first(v@.skip(from as int), c, left as nat) == split_first(
                v@,
                c,
                n as nat,
            ),
        decreases left,
    {
        let i: usize = text::index_of(v, c, from);
        let ghost rest = v@.skip(from as int);
        assert(v@.subrange(from as int, len as int) =~= rest);
        let ghost before = out@;
        if left <= 1 || i == len {
            let last: String = text::string_of(v, from, len);
            assert(last@ =~= rest);
            out.push(last);
            assert(text::texts(out@) =~= text::texts(before) + seq![rest]);
            return out;
        }
        let piece: String = text::string_of(v, from, i);
        assert(piece@ =~= rest.take(i - from));
        out.push(piece);
        assert(rest.skip(i - from + 1) =~= v@.skip(i + 1));
        assert(text::texts(out@) =~= text::texts(before).push(rest.take(i - from)));
        assert(text::texts(out@) + split_first(v@.skip(i + 1), c, (left - 1) as nat)
            =~= text::texts(before) + (seq![rest.take(i - from)] + split_first(
            v@.skip(i + 1),
            c,
            (left - 1) as nat,
        )));
        from = i + 1;
        left = left - 1;
    }
}

/// What an envelope says: its command and its payload.
pub open spec fn opened(said: Seq<char>) -> Option<(Seq<char>, Seq<char>)> {
    let t = without_nuls(past_nuls(said));
    match text::first_at(t, "STC\tv1|"@, 0) {
        None => None,
        Some(at) => {
            let f = split_first(t.skip(at + 4), '|', 5);
            Some(
                (
                    if f.len() > 1 {
                        f[1]
                    } else {
                        Seq::empty()
                    },
                    if f.len() > 4 {
                        f[4]
                    } else {
                        Seq::empty()
                    },
                ),
            )
        },
    }
}

fn field_of(f: &Vec<String>, i: usize) -> (s: String)
    ensures
        s@ == if i < f@.len() {
            f@[i as int]@
        } else {
            Seq::empty()
        },
{
    if i < f.len() {
        f[i].clone()
    } else {
        String::new()
    }
}

/// Opens an envelope of the addon channel.
pub fn open_envelope(said: &str) -> (r: Option<(String, String)>)
    ensures
        match (r, opened(said@)) {
            (Some((a, b)), Some((c, d))) => a@ == c && b@ == d,
            (None, None) => true,
            _ => false,
        },
{
    let t: String = trim_nuls(said);
    let v = text::chars_of(t.as_str());
    let mark = text::chars_of("STC\tv1|");
    let found: Option<usize> = text::find_from(&v, &mark, 0);
    let len: usize = v.len();
    proof {
        reveal_strlit("STC\tv1|");
        let f: Option<int> = match found {
            Some(i) => Some(i as int),
            None => None,
        };
        text::lemma_first_at(v@, mark@, 0, f);
    }
    match found {
        None => None,
        Some(at) => {
            let rest: String = text::string_of(&v, at + 4, len);
            assert(rest@ =~= v@.skip(at + 4));
            let f: Vec<String> = splitn(&text::chars_of(rest.as_str()), '|', 5);
            let ghost spec_f = split_first(rest@, '|', 5);
            assert(spec_f.len() == f@.len()) by {
                assert(text::texts(f@).len() == f@.len());
            }
            if f.len() > 1 {
                assert(text::texts(f@)[1] == f@[1]@);
            }
            if f.len() > 4 {
                assert(text::texts(f@)[4] == f@[4]@);
            }
            Some((field_of(&f, 1), field_of(&f, 4)))
        },
    }
}

/// A payload is of an event.
pub open spec fn of_event(cmd: Seq<char>, payload: Seq<char>, def: u32) -> bool {
    (cmd == "event.state"@ || cmd == "event.start"@) && text::begins_with(
        payload,
        number::decimal(def as nat) + "|"@,
    )
}

/// The states of an event seen so far, once one more text of the addon channel was seen: a state
/// counts where it differs from the one before.
pub open spec fn states_after(seen: Seq<Seq<char>>, said: Seq<char>, def: u32) -> Seq<Seq<char>> {
    match opened(said) {
        Some((cmd, payload)) => if of_event(cmd, payload, def) && (seen.len() == 0 || seen.last()
            != payload) {
            seen.push(payload)
        } else {
            seen
        },
        None => seen,
    }
}

/// Notes a text of the addon channel among the states of an event.
pub fn note_state(seen: &mut Vec<String>, said: &str, def: u32)
    ensures
        text::texts(final(seen)@) == states_after(text::texts(old(seen)@), said@, def),
{
    match open_envelope(said) {
        None => {},
        Some((cmd, payload)) => {
            let prefix: String = number::number_between("", def as u64, "|");
            proof {
                reveal_strlit("");
                assert(prefix@ =~= number::decimal(def as nat) + "|"@);
            }
            let n: usize = seen.len();
            if n > 0 {
                assert(text::texts(seen@).last() == seen@[n - 1]@);
            }
            if (text::same_text(cmd.as_str(), "event.state") || text::same_text(
                cmd.as_str(),
                "event.start",
            )) && text::starts_with(payload.as_str(), prefix.as_str()) && (n == 0
                || !text::same_text(seen[n - 1].as_str(), payload.as_str())) {
                let ghost before = seen@;
                let ghost p = payload@;
                seen.push(payload);
                assert(text::texts(seen@) =~= text::texts(before).push(p));
            }
        },
    }
}

/// The states of an event after some texts of the addon channel.
pub open spec fn states_of(said: Seq<Seq<char>>, def: u32) -> Seq<Seq<char>>
    decreases said.len(),
{
    if said.len() == 0 {
        Seq::empty()
    } else {
        states_after(states_of(said.drop_last(), def), said.last(), def)
    }
}

/// No two states in a row are the same: two states show that the feed is alive and changes.
pub proof fn two_states_differ(said: Seq<Seq<char>>, def: u32)
    ensures
        forall|i: int|
            0 < i < states_of(said, def).len() ==> #[trigger] states_of(said, def)[i] != states_of(
                said,
                def,
            )[i - 1],
    decreases said.len(),
{
    if said.len() > 0 {
        two_states_differ(said.drop_last(), def);
        let before = states_of(said.drop_last(), def);
        let s = states_of(said, def);
        assert forall|i: int| 0 < i < s.len() implies #[trigger] s[i] != s[i - 1] by {
            if s.len() > before.len() && i == before.len() {
                assert(s[i - 1] == before.last());
            } else {
                assert(s[i] == before[i] && s[i - 1] == before[i - 1]);
            }
        }
    }
}

// ------------------------------------------------------------------------------------------
//  Fields of objects
// ------------------------------------------------------------------------------------------

/// The fields of one object that an update changes.
pub struct ValuesUpdate {
    pub guid: u64,
    pub fields: Vec<(u16, u32)>,
}

/// An update carries a field of an object, with a value where one is expected.
pub open spec fn carries(u: ValuesUpdate, guid: u64, field: u16, expect: Option<u32>) -> bool {
    u.guid == guid && exists|i: int|
        0 <= i < u.fields@.len() && (#[trigger] u.fields@[i]).0 == field && match expect {
            Some(want) => u.fields@[i].1 == want,
            None => true,
        }
}

fn carries_field(u: &ValuesUpdate, guid: u64, field: u16, expect: Option<u32>) -> (yes: bool)
    ensures
        yes == carries(*u, guid, field, expect),
{
    if u.guid != guid {
        return false;
    }
    for i in 0..u.fields.len()
        invariant
            u.guid == guid,
            forall|j: int|
                0 <= j < i ==> !((#[trigger] u.fields@[j]).0 == field && match expect {
                    Some(want) => u.fields@[j].1 == want,
                    None => true,
                }),
    {
        let wanted: bool = match expect {
            Some(want) => u.fields[i].1 == want,
            None => true,
        };
        if u.fields[i].0 == field && wanted {
            assert(u.fields@[i as int].0 == field);
            return true;
        }
    }
    false
}

/// Some update carries a field of an object, with a value where one is expected.
pub open spec fn any_carries(
    updates: Seq<ValuesUpdate>,
    guid: u64,
    field: u16,
    expect: Option<u32>,
) -> bool {
    exists|k: int| 0 <= k < updates.len() && carries(#[trigger] updates[k], guid, field, expect)
}

/// Some update names a skill.
pub open spec fn any_names(updates: Seq<ValuesUpdate>, line: u32) -> bool {
    exists|k: int| 0 <= k < updates.len() && names_skill(#[trigger] updates[k], line)
}

/// Whether some update carries a field of an object, with a value where one is expected.
pub fn values_arrived(
    updates: &Vec<ValuesUpdate>,
    guid: u64,
    field: u16,
    expect: Option<u32>,
) -> (yes: bool)
    ensures
        yes == any_carries(updates@, guid, field, expect),
{
    for k in 0..updates.len()
        invariant
            forall|j: int| 0 <= j < k ==> !carries(#[trigger] updates@[j], guid, field, expect),
    {
        if carries_field(&updates[k], guid, field, expect) {
            assert(carries(updates@[k as int], guid, field, expect));
            return true;
        }
    }
    false
}

/// The first field of a player's skills.
pub const SKILL_INFO_BASE: u16 = 718;

/// The field behind a player's skills.
pub const SKILL_INFO_END: u16 = 1102;

/// The line of fishing.
pub const FISHING: u32 = 356;

/// An update names a skill.
pub open spec fn names_skill(u: ValuesUpdate, line: u32) -> bool {
    exists|i: int|
        0 <= i < u.fields@.len() && SKILL_INFO_BASE <= (#[trigger] u.fields@[i]).0 < SKILL_INFO_END
            && u.fields@[i].1 % 0x1_0000 == line
}

fn names_line(u: &ValuesUpdate, line: u32) -> (yes: bool)
    ensures
        yes == names_skill(*u, line),
{
    for i in 0..u.fields.len()
        invariant
            forall|j: int|
                0 <= j < i ==> !(SKILL_INFO_BASE <= (#[trigger] u.fields@[j]).0 < SKILL_INFO_END
                    && u.fields@[j].1 % 0x1_0000 == line),
    {
        let (idx, v) = u.fields[i];
        if SKILL_INFO_BASE <= idx && idx < SKILL_INFO_END && v % 0x1_0000 == line {
            assert(u.fields@[i as int].0 == idx);
            return true;
        }
    }
    false
}

/// Whether some update names a skill in a field of a player's skills.
pub fn skill_arrived(updates: &Vec<ValuesUpdate>, line: u32) -> (yes: bool)
    ensures
        yes == any_names(updates@, line),
{
    for k in 0..updates.len()
        invariant
            forall|j: int| 0 <= j < k ==> !names_skill(#[trigger] updates@[j], line),
    {
        if names_line(&updates[k], line) {
            assert(names_skill(updates@[k as int], line));
            return true;
        }
    }
    false
}

// ------------------------------------------------------------------------------------------
//  What is written reads back
// ------------------------------------------------------------------------------------------

/// The lowest bytes of a number, lowest first.
pub open spec fn low_bytes(v: nat, n: nat) -> Seq<u8>
    decreases n,
{
    if n == 0 {
        Seq::empty()
    } else {
        seq![(v % 256) as u8] + low_bytes(v / 256, (n - 1) as nat)
    }
}

/// The least number that does not fit so many bytes.
pub open spec fn room(n: nat) -> nat
    decreases n,
{
    if n == 0 {
        1
    } else {
        256 * room((n - 1) as nat)
    }
}

proof fn lemma_low_bytes(v: nat, n: nat)
    requires
        v < room(n),
    ensures
        low_bytes(v, n).len() == n,
        little_endian(low_bytes(v, n)) == v,
    decreases n,
{
    if n > 0 {
        lemma_low_bytes(v / 256, (n - 1) as nat);
        let rest = low_bytes(v / 256, (n - 1) as nat);
        assert(low_bytes(v, n).skip(1) =~= rest);
        assert(low_bytes(v, n)[0] == v % 256);
    }
}

/// A number that is written lowest byte first, wherever it stands, reads back.
pub proof fn a_number_reads_back(before: Seq<u8>, v: nat, width: nat, after: Seq<u8>)
    requires
        v < room(width),
    ensures
        number_at(before + low_bytes(v, width) + after, before.len() as int, width as int) == Some(v),
{
    lemma_low_bytes(v, width);
    let b = before + low_bytes(v, width) + after;
    assert(b.subrange(before.len() as int, (before.len() + width) as int) =~= low_bytes(v, width));
}

/// A number is read only where all of its bytes are there.
pub proof fn a_number_needs_its_bytes(b: Seq<u8>, at: int, width: int)
    requires
        0 <= at,
        0 <= width,
    ensures
        number_at(b, at, width) is None <==> b.len() < at + width,
{
}

proof fn lemma_rooms()
    ensures
        room(4) == 0x1_0000_0000,
        room(8) == 0x1_0000_0000_0000_0000,
{
    reveal_with_fuel(room, 9);
}

/// Dice read back: the range, what fell and who threw, in that order, and only from their opcode.
pub proof fn dice_read_back(roll: Roll, opcode: u16, after: Seq<u8>)
    ensures
        rolled(
            0x01FB,
            low_bytes(roll.minimum as nat, 4) + low_bytes(roll.maximum as nat, 4) + low_bytes(
                roll.result as nat,
                4,
            ) + low_bytes(roll.roller as nat, 8) + after,
        ) == Some(roll),
        opcode != 0x01FB ==> rolled(opcode, after) is None,
        after.len() < 20 ==> rolled(opcode, after) is None,
{
    lemma_rooms();
    let a = low_bytes(roll.minimum as nat, 4);
    let b = low_bytes(roll.maximum as nat, 4);
    let c = low_bytes(roll.result as nat, 4);
    let d = low_bytes(roll.roller as nat, 8);
    lemma_low_bytes(roll.minimum as nat, 4);
    lemma_low_bytes(roll.maximum as nat, 4);
    lemma_low_bytes(roll.result as nat, 4);
    lemma_low_bytes(roll.roller as nat, 8);
    let body = a + b + c + d + after;
    a_number_reads_back(Seq::empty(), roll.minimum as nat, 4, b + c + d + after);
    assert(body =~= Seq::empty() + a + (b + c + d + after));
    a_number_reads_back(a, roll.maximum as nat, 4, c + d + after);
    assert(body =~= a + b + (c + d + after));
    a_number_reads_back(a + b, roll.result as nat, 4, d + after);
    assert(body =~= (a + b) + c + (d + after));
    a_number_reads_back(a + b + c, roll.roller as nat, 8, after);
}

/// A mover reads back from the opcodes of movement alone, and an object that is gone from its own.
pub proof fn movers_and_the_gone_read_back(guid: u64, opcode: u16, after: Seq<u8>)
    ensures
        181 <= opcode && opcode <= 238 ==> moved_by(opcode, after) == packed_guid(after),
        opcode < 181 || opcode > 238 ==> moved_by(opcode, after) is None,
        gone(0x00AA, low_bytes(guid as nat, 8) + after) == Some(guid as nat),
        opcode != 0x00AA ==> gone(opcode, after) is None,
        after.len() < 8 ==> gone(opcode, after) is None,
{
    lemma_rooms();
    a_number_reads_back(Seq::empty(), guid as nat, 8, after);
    assert(low_bytes(guid as nat, 8) + after =~= Seq::empty() + low_bytes(guid as nat, 8) + after);
}

/// A gained item and its number read back from behind the first twenty-five bytes, with eight more
/// between them; what was healed from before the last byte; the head of a body from its beginning.
pub proof fn bodies_read_back(
    first: u32,
    second: u32,
    head: Seq<u8>,
    middle: Seq<u8>,
    after: Seq<u8>,
    last: u8,
)
    requires
        head.len() == 25,
        middle.len() == 8,
    ensures
        gained(
            head + low_bytes(first as nat, 4) + middle + low_bytes(second as nat, 4) + after,
        ) == Some((first as nat, second as nat)),
        first_two(low_bytes(first as nat, 4) + low_bytes(second as nat, 4) + after) == Some(
            (first as nat, second as nat),
        ),
        healed((after + low_bytes(first as nat, 4)).push(last)) == Some(first as nat),
        after.len() < 41 ==> gained(after) is None,
        after.len() < 8 ==> first_two(after) is None,
        after.len() < 5 ==> healed(after) is None,
{
    lemma_rooms();
    let a = low_bytes(first as nat, 4);
    let b = low_bytes(second as nat, 4);
    lemma_low_bytes(first as nat, 4);
    lemma_low_bytes(second as nat, 4);
    a_number_reads_back(head, first as nat, 4, middle + b + after);
    assert(head + a + middle + b + after =~= head + a + (middle + b + after));
    a_number_reads_back(head + a + middle, second as nat, 4, after);
    a_number_reads_back(Seq::empty(), first as nat, 4, b + after);
    assert(a + b + after =~= Seq::empty() + a + (b + after));
    a_number_reads_back(a, second as nat, 4, after);
    a_number_reads_back(after, first as nat, 4, seq![last]);
    assert((after + a).push(last) =~= after + a + seq![last]);
}

/// The NULs around a text are taken off, all of them, and nothing else: a text that neither begins
/// nor ends with one comes out of any number of them.
pub proof fn nuls_are_taken_off(before: nat, s: Seq<char>, after: nat)
    requires
        s.len() > 0 && s[0] != '\0' && s.last() != '\0',
    ensures
        past_nuls(Seq::new(before, |i: int| '\0') + s) == s,
        without_nuls(s + Seq::new(after, |i: int| '\0')) == s,
    decreases before + after,
{
    let f = |i: int| '\0';
    if before > 0 {
        nuls_are_taken_off((before - 1) as nat, s, after);
        let t = Seq::new(before, f) + s;
        assert(t.skip(1) =~= Seq::new((before - 1) as nat, f) + s);
    } else {
        assert(Seq::new(before, f) + s =~= s);
    }
    if after > 0 {
        nuls_are_taken_off(0, s, (after - 1) as nat);
        let t = s + Seq::new(after, f);
        assert(t.drop_last() =~= s + Seq::new((after - 1) as nat, f));
    } else {
        assert(s + Seq::new(after, f) =~= s);
    }
}

/// What an envelope carries reads back: its command, where that holds no bar, and its payload, where
/// that does not end with a NUL.
pub proof fn an_envelope_reads_back(what: Seq<char>, payload: Seq<char>)
    requires
        !what.contains('|'),
        payload.len() > 0 ==> payload.last() != '\0',
    ensures
        opened(envelope(what, payload)) == Some((what, payload)),
{
    reveal_strlit("STC\tv1|");
    reveal_strlit("|0|1/1|");
    let mark = "STC\tv1|"@;
    let tail = "|0|1/1|"@;
    let e = envelope(what, payload);
    assert(e[0] == 'S');
    if payload.len() > 0 {
        assert(e.last() == payload.last());
    } else {
        assert(e.last() == tail[6]);
    }
    assert(past_nuls(e) == e);
    assert(without_nuls(e) == e);
    assert(e.subrange(0, mark.len() as int) =~= mark);
    assert(text::occurs_at(e, mark, 0));
    assert(text::first_at(e, mark, 0) == Some(0int));
    let r = e.skip(4);
    let v1 = seq!['v', '1'];
    let zero = seq!['0'];
    let one = seq!['1', '/', '1'];
    let r1 = what + tail + payload;
    assert(r =~= v1.push('|') + r1);
    lemma_split_first(v1, '|', r1, 5);
    let r2 = zero.push('|') + (one.push('|') + payload);
    assert(r1 =~= what.push('|') + r2);
    lemma_split_first(what, '|', r2, 4);
    lemma_split_first(zero, '|', one.push('|') + payload, 3);
    lemma_split_first(one, '|', payload, 2);
    assert(split_first(payload, '|', 1) == seq![payload]);
    let f = split_first(r, '|', 5);
    assert(f =~= seq![v1, what, zero, one, payload]);
}

proof fn lemma_split_first(a: Seq<char>, c: char, rest: Seq<char>, n: nat)
    requires
        !a.contains(c),
        n > 1,
    ensures
        split_first(a.push(c) + rest, c, n) == seq![a] + split_first(rest, c, (n - 1) as nat),
{
    let s = a.push(c) + rest;
    text::lemma_first_index(s, c);
    let i = text::first_index(s, c);
    assert(s[a.len() as int] == c);
    if i < a.len() {
        assert(a[i] == s[i]);
        assert(a.contains(c));
    }
    assert(s.take(i) =~= a);
    assert(s.skip(i + 1) =~= rest);
}

/// Splitting takes the text apart at the first places only: with the character between them again the
/// pieces are the text, there are at most so many, and none but the last holds the character.
pub proof fn a_split_keeps_the_text(s: Seq<char>, c: char, n: nat)
    requires
        n >= 1,
    ensures
        text::glued(split_first(s, c, n), c) == s,
        1 <= split_first(s, c, n).len() <= n,
        split_first(s, c, n).len() < n ==> !split_first(s, c, n).last().contains(c),
        forall|i: int|
            0 <= i < split_first(s, c, n).len() - 1 ==> !(#[trigger] split_first(s, c, n)[i]).contains(
                c,
            ),
    decreases n,
{
    text::lemma_first_index(s, c);
    let i = text::first_index(s, c);
    if n > 1 && i < s.len() {
        let rest = s.skip(i + 1);
        let m = (n - 1) as nat;
        a_split_keeps_the_text(rest, c, m);
        let all = split_first(s, c, n);
        assert(all.drop_first() =~= split_first(rest, c, m));
        assert(s =~= s.take(i).push(c) + rest);
        assert(all.last() == split_first(rest, c, m).last());
        assert forall|k: int| 0 <= k < all.len() - 1 implies !(#[trigger] all[k]).contains(c) by {
            if k > 0 {
                assert(all[k] == split_first(rest, c, m)[k - 1]);
            } else if s.take(i).contains(c) {
                let j = choose|j: int| 0 <= j < i && s.take(i)[j] == c;
                assert(s[j] == c);
            }
        }
    }
}

/// A state of an event is noted where the envelope says so in its command, the payload begins with
/// the event's number and a bar, and the state differs from the last that was noted.
pub proof fn an_event_notes_its_states(
    seen: Seq<Seq<char>>,
    start: bool,
    def: u32,
    state: Seq<char>,
)
    requires
        state.len() > 0 ==> state.last() != '\0',
    ensures
        ({
            let payload = number::decimal(def as nat).push('|') + state;
            let said = envelope(
                if start {
                    "event.start"@
                } else {
                    "event.state"@
                },
                payload,
            );
            &&& seen.len() == 0 || seen.last() != payload ==> states_after(seen, said, def)
                == seen.push(payload)
            &&& seen.len() > 0 && seen.last() == payload ==> states_after(seen, said, def) == seen
        }),
{
    let payload = number::decimal(def as nat).push('|') + state;
    reveal_strlit("event.start");
    reveal_strlit("event.state");
    reveal_strlit("|");
    let what = if start {
        "event.start"@
    } else {
        "event.state"@
    };
    assert(!what.contains('|'));
    an_envelope_reads_back(what, payload);
    let prefix = number::decimal(def as nat) + "|"@;
    assert(payload.subrange(0, prefix.len() as int) =~= prefix);
}

/// A text in the addon language is what follows the first seventeen bytes of a chat message in that
/// language, and of no other frame.
pub proof fn an_addon_text_follows_its_head(
    kind: u8,
    speaker: Seq<u8>,
    body: Seq<u8>,
    opcode: u16,
    lang: u32,
)
    requires
        speaker.len() == 12,
    ensures
        addon_bytes(0x0096, seq![kind] + low_bytes(0xFFFF_FFFF, 4) + speaker + body) == Some(body),
        lang != 0xFFFF_FFFF ==> addon_bytes(
            opcode,
            seq![kind] + low_bytes(lang as nat, 4) + speaker + body,
        ) is None,
        opcode != 0x0096 ==> addon_bytes(opcode, body) is None,
{
    lemma_rooms();
    lemma_low_bytes(0xFFFF_FFFF, 4);
    lemma_low_bytes(lang as nat, 4);
    let h = seq![kind];
    a_number_reads_back(h, 0xFFFF_FFFF, 4, speaker + body);
    a_number_reads_back(h, lang as nat, 4, speaker + body);
    let b = h + low_bytes(0xFFFF_FFFF, 4) + speaker + body;
    assert(b =~= h + low_bytes(0xFFFF_FFFF, 4) + (speaker + body));
    assert(b.skip(17) =~= body);
    let c = h + low_bytes(lang as nat, 4) + speaker + body;
    assert(c =~= h + low_bytes(lang as nat, 4) + (speaker + body));
}

/// The name in a gesture is as long as the number before it says, and no longer than what is there.
pub proof fn a_gesture_names_its_target(head: Seq<u8>, name: Seq<u8>, after: Seq<u8>, n: u32)
    requires
        head.len() == 16,
        name.len() <= u32::MAX,
        n >= name.len(),
    ensures
        emote_bytes(head + low_bytes(name.len(), 4) + name + after) == Some(name),
        emote_bytes(head + low_bytes(n as nat, 4) + name) == Some(name),
{
    lemma_rooms();
    lemma_low_bytes(name.len(), 4);
    lemma_low_bytes(n as nat, 4);
    let b = head + low_bytes(name.len(), 4) + name + after;
    a_number_reads_back(head, name.len(), 4, name + after);
    assert(b =~= head + low_bytes(name.len(), 4) + (name + after));
    assert(b.subrange(20, (20 + name.len()) as int) =~= name);
    let c = head + low_bytes(n as nat, 4) + name;
    a_number_reads_back(head, n as nat, 4, name);
    assert(c.subrange(20, (20 + name.len()) as int) =~= name);
}

/// A ping goes out as a whisper to oneself, in the addon language, with its envelope and a NUL at its
/// end; its answer is any text that holds the same payload in a pong.
pub proof fn a_ping_is_answered_in_kind(payload: Seq<char>, before: Seq<char>, after: Seq<char>)
    ensures
        number_at(ping_bytes(payload), 0, 4) == Some(6nat),
        number_at(ping_bytes(payload), 4, 4) == Some(0xFFFF_FFFFnat),
        ping_bytes(payload).subrange(8, 13) == seq![0x53u8, 0x65, 0x6C, 0x66, 0],
        ping_bytes(payload).last() == 0,
        ping_bytes(payload).subrange(13, ping_bytes(payload).len() - 1) == vstd::utf8::encode_utf8(
            envelope("ping"@, payload),
        ),
        answers_ping(before + envelope("pong"@, payload) + after, payload),
{
    let b = ping_bytes(payload);
    lemma_four(b, 0);
    lemma_four(b, 4);
    assert(b.subrange(8, 13) =~= seq![0x53u8, 0x65, 0x6C, 0x66, 0]);
    assert(b.subrange(13, b.len() - 1) =~= vstd::utf8::encode_utf8(envelope("ping"@, payload)));
    let e = envelope("pong"@, payload);
    let said = before + e + after;
    let at = before.len() as int;
    assert(said.subrange(at, at + e.len()) =~= e);
    assert(text::occurs_at(said, e, at));
}

/// Updates carry a field exactly where one of them is of the object and has the field among its own,
/// with the expected value where there is one.
pub proof fn a_field_arrives_in_an_update(
    updates: Seq<ValuesUpdate>,
    k: int,
    i: int,
    guid: u64,
    field: u16,
    value: u32,
)
    requires
        0 <= k < updates.len(),
        0 <= i < updates[k].fields@.len(),
    ensures
        updates[k].guid == guid && updates[k].fields@[i] == (field, value) ==> any_carries(
            updates,
            guid,
            field,
            None,
        ) && any_carries(updates, guid, field, Some(value)),
        (forall|j: int| 0 <= j < updates.len() ==> (#[trigger] updates[j]).guid != guid)
            ==> !any_carries(updates, guid, field, None) && !any_carries(
            updates,
            guid,
            field,
            Some(value),
        ),
        (forall|j: int, h: int|
            0 <= j < updates.len() && 0 <= h < updates[j].fields@.len() ==> #[trigger] updates[j].fields@[h]
                != (field, value)) ==> !any_carries(updates, guid, field, Some(value)),
        updates[k].fields@[i].0 >= 718 && updates[k].fields@[i].0 < 1102
            && updates[k].fields@[i].1 % 65536 == value ==> any_names(updates, value),
        (forall|j: int, h: int|
            0 <= j < updates.len() && 0 <= h < updates[j].fields@.len() ==> (
            #[trigger] updates[j].fields@[h]).0 < 718 || updates[j].fields@[h].0 >= 1102
                || updates[j].fields@[h].1 % 65536 != value) ==> !any_names(updates, value),
{
    if updates[k].guid == guid && updates[k].fields@[i] == (field, value) {
        assert(carries(updates[k], guid, field, None));
        assert(carries(updates[k], guid, field, Some(value)));
    }
    if any_carries(updates, guid, field, Some(value)) {
        let j = choose|j: int|
            0 <= j < updates.len() && carries(#[trigger] updates[j], guid, field, Some(value));
        let h = choose|h: int|
            0 <= h < updates[j].fields@.len() && (#[trigger] updates[j].fields@[h]).0 == field
                && updates[j].fields@[h].1 == value;
        assert(updates[j].fields@[h] == (field, value));
    }
    if updates[k].fields@[i].0 >= 718 && updates[k].fields@[i].0 < 1102
        && updates[k].fields@[i].1 % 65536 == value {
        assert(names_skill(updates[k], value));
    }
    if any_names(updates, value) {
        let j = choose|j: int| 0 <= j < updates.len() && names_skill(#[trigger] updates[j], value);
        let h = choose|h: int|
            0 <= h < updates[j].fields@.len() && SKILL_INFO_BASE <= (
            #[trigger] updates[j].fields@[h]).0 < SKILL_INFO_END && updates[j].fields@[h].1 % 0x1_0000
                == value;
        assert(updates[j].fields@[h].0 >= 718);
    }
}

/// A throw is the one that was asked for exactly where the thrower is the player, the range is the
/// one that was sent, and what fell lies in it.
pub proof fn a_throw_is_the_one_that_was_asked_for(r: Roll, min: u32, max: u32, own: u64)
    ensures
        roll_fault(r, min, max, own) is None <==> r.roller == own && r.minimum == min && r.maximum
            == max && min <= r.result && r.result <= max,
{
}

} // verus!
