//! The header cipher: a running key that only ever advances, one byte at a time.
//!
//! The cipher itself is `wow_srp`'s. Its state is viewed as a [`Keystream`], and the contracts of
//! the calls into it say how they move that state.

use vstd::prelude::*;
use wow_srp::error::NormalizedStringError;
use wow_srp::normalized_string::NormalizedString;
use wow_srp::vanilla_header::{DecrypterHalf, EncrypterHalf, ProofSeed};

verus! {

/// The length of a session key.
pub const KEY_BYTES: usize = 40;

/// Where a half of the cipher stands: the session key, the position in it, and the last byte that
/// went over the wire.
pub struct Keystream {
    pub key: Seq<u8>,
    pub index: int,
    pub previous: u8,
}

impl Keystream {
    /// The state before the first byte.
    pub open spec fn fresh(key: Seq<u8>) -> Keystream {
        Keystream { key, index: 0, previous: 0 }
    }

    /// The state after `wire` went over the wire.
    pub open spec fn next(self, wire: u8) -> Keystream {
        Keystream { key: self.key, index: (self.index + 1) % (KEY_BYTES as int), previous: wire }
    }

    /// The byte that `wire` stands for.
    pub open spec fn plain(self, wire: u8) -> u8 {
        (((wire - self.previous) % 256) as u8) ^ self.key[self.index]
    }

    /// The byte that stands for `plain` on the wire.
    pub open spec fn sealed(self, plain: u8) -> u8 {
        (((plain ^ self.key[self.index]) + self.previous) % 256) as u8
    }

    /// The state after several bytes went over the wire.
    pub open spec fn after(self, wire: Seq<u8>) -> Keystream
        decreases wire.len(),
    {
        if wire.len() == 0 {
            self
        } else {
            self.after(wire.drop_last()).next(wire.last())
        }
    }

    /// The bytes that `wire` stands for.
    pub open spec fn opened(self, wire: Seq<u8>) -> Seq<u8>
        decreases wire.len(),
    {
        if wire.len() == 0 {
            Seq::empty()
        } else {
            self.opened(wire.drop_last()).push(self.after(wire.drop_last()).plain(wire.last()))
        }
    }

    /// The bytes that stand for `text` on the wire.
    pub open spec fn closed_up(self, text: Seq<u8>) -> Seq<u8>
        decreases text.len(),
    {
        if text.len() == 0 {
            Seq::empty()
        } else {
            let before = self.closed_up(text.drop_last());
            before.push(self.after(before).sealed(text.last()))
        }
    }

    /// A state that a cipher can be in.
    pub open spec fn valid(self) -> bool {
        self.key.len() == KEY_BYTES && 0 <= self.index < KEY_BYTES
    }
}

/// The size and opcode of a server frame's header in the clear: size big-endian, opcode
/// little-endian.
pub open spec fn server_header(plain: Seq<u8>) -> (u16, u16) {
    ((plain[0] * 256 + plain[1]) as u16, (plain[2] + plain[3] * 256) as u16)
}

/// A server frame's header in the clear.
pub open spec fn server_header_bytes(size: u16, opcode: u16) -> Seq<u8> {
    seq![
        (size / 256) as u8,
        (size % 256) as u8,
        (opcode % 256) as u8,
        (opcode / 256) as u8,
    ]
}

/// Opening what was sealed gives the text back, and both halves end in the same state: the two
/// ends of a connection stay in step.
pub proof fn opening_undoes_sealing(k: Keystream, text: Seq<u8>)
    requires
        k.valid(),
    ensures
        k.opened(k.closed_up(text)) == text,
        k.closed_up(text).len() == text.len(),
        k.after(k.closed_up(text)).valid(),
    decreases text.len(),
{
    if text.len() > 0 {
        let rest = text.drop_last();
        opening_undoes_sealing(k, rest);
        let before = k.closed_up(rest);
        let s = k.after(before);
        let wire = s.sealed(text.last());
        let all = k.closed_up(text);
        assert(all.drop_last() =~= before);
        assert(all.last() == wire);
        lemma_byte(text.last(), s.key[s.index], s.previous);
        assert(k.opened(all) =~= text);
    } else {
        assert(k.opened(k.closed_up(text)) =~= text);
    }
}

proof fn lemma_byte(plain: u8, key: u8, previous: u8)
    ensures
        ((((((plain ^ key) + previous) % 256) as u8 - previous) % 256) as u8) ^ key == plain,
{
    let x = plain ^ key;
    let w = ((x + previous) % 256) as u8;
    assert(((w - previous) % 256) as u8 == x);
    assert((plain ^ key) ^ key == plain) by (bit_vector);
}

/// Reading a stretch of the stream in two pieces leaves the same state and gives the same bytes
/// as reading it in one.
pub proof fn pieces_read_alike(k: Keystream, a: Seq<u8>, b: Seq<u8>)
    ensures
        k.after(a + b) == k.after(a).after(b),
        k.opened(a + b) == k.opened(a) + k.after(a).opened(b),
    decreases b.len(),
{
    if b.len() == 0 {
        assert(a + b =~= a);
        assert(k.opened(a) + k.after(a).opened(b) =~= k.opened(a));
    } else {
        pieces_read_alike(k, a, b.drop_last());
        assert((a + b).drop_last() =~= a + b.drop_last());
        assert(k.opened(a + b) =~= k.opened(a) + k.after(a).opened(b));
    }
}

/// A client frame's header in the clear: size big-endian, opcode little-endian.
pub open spec fn client_header_bytes(size: u16, opcode: u32) -> Seq<u8> {
    seq![
        (size / 256) as u8,
        (size % 256) as u8,
        (opcode % 256) as u8,
        (opcode / 256 % 256) as u8,
        (opcode / 65536 % 256) as u8,
        (opcode / 16777216) as u8,
    ]
}

/// A server frame's header is read back from the bytes that carry it.
pub proof fn server_header_reads_back(size: u16, opcode: u16)
    ensures
        server_header(server_header_bytes(size, opcode)) == (size, opcode),
{
}

/// `wow_srp`'s decrypting half of a header cipher, which only carries its state along.
#[verifier::external_type_specification]
#[verifier::external_body]
pub struct ExDecrypterHalf(DecrypterHalf);

/// `wow_srp`'s encrypting half of a header cipher, which only carries its state along.
#[verifier::external_type_specification]
#[verifier::external_body]
pub struct ExEncrypterHalf(EncrypterHalf);

/// `wow_srp`'s random seed of a world handshake.
#[verifier::external_type_specification]
#[verifier::external_body]
pub struct ExProofSeed(ProofSeed);

/// `wow_srp`'s upper-cased account name.
#[verifier::external_type_specification]
#[verifier::external_body]
pub struct ExNormalizedString(NormalizedString);

/// `DecrypterHalf::clone` copies the key, the position and the last byte.
pub assume_specification[ <DecrypterHalf as Clone>::clone ](half: &DecrypterHalf) -> (copy:
    DecrypterHalf)
    ensures
        copy == *half,
;

/// The half of the header cipher that reads the server's frames.
pub struct HeaderDecrypter {
    half: DecrypterHalf,
    state: Ghost<Keystream>,
}

impl View for HeaderDecrypter {
    type V = Keystream;

    closed spec fn view(&self) -> Keystream {
        self.state@
    }
}

impl HeaderDecrypter {
    /// Calls `DecrypterHalf::decrypt_server_header`: the four bytes are opened one after the
    /// other, the size is read from the first two, the opcode from the last two, and the cipher
    /// has moved past the four bytes.
    #[verifier::external_body]
    pub(crate) fn decrypt_server_header(&mut self, raw: [u8; 4]) -> (header: (u16, u16))
        ensures
            header == server_header(old(self)@.opened(raw@)),
            final(self)@ == old(self)@.after(raw@),
    {
        let header = self.half.decrypt_server_header(raw);
        (header.size, header.opcode)
    }

    /// A second reader that stands where this one stands.
    pub fn copy(&self) -> (c: HeaderDecrypter)
        ensures
            c@ == self@,
            c.inner() == self.inner(),
    {
        HeaderDecrypter { half: self.half.clone(), state: self.state }
    }

    /// The half that `wow_srp` works with.
    pub closed spec fn inner(&self) -> DecrypterHalf {
        self.half
    }

    /// Hands the half over to a decoder that opens the header on its own.
    pub fn into_half(self) -> (half: DecrypterHalf)
        ensures
            half == self.inner(),
    {
        self.half
    }
}

/// The half of the header cipher that writes this client's frames.
pub struct HeaderEncrypter {
    half: EncrypterHalf,
    state: Ghost<Keystream>,
}

impl View for HeaderEncrypter {
    type V = Keystream;

    closed spec fn view(&self) -> Keystream {
        self.state@
    }
}

impl HeaderEncrypter {
    /// Calls `EncrypterHalf::encrypt_client_header`: the six bytes of the header are sealed one
    /// after the other, and the cipher has moved past them.
    #[verifier::external_body]
    pub(crate) fn encrypt_client_header(&mut self, size: u16, opcode: u32) -> (raw: [u8; 6])
        ensures
            raw@ == old(self)@.closed_up(client_header_bytes(size, opcode)),
            final(self)@ == old(self)@.after(raw@),
    {
        self.half.encrypt_client_header(size, opcode)
    }
}

/// Why a text cannot be an account name or a password.
#[derive(Clone, Copy, Debug, PartialEq, Eq, Structural)]
pub enum NameFault {
    /// It is empty or takes more than sixteen bytes.
    Length,
    /// It holds a character that is not printable ASCII.
    Character(char),
}

/// A character that an account name may hold.
pub open spec fn printable(c: char) -> bool {
    ' ' <= c <= '~'
}

/// The first character that an account name may not hold.
pub open spec fn first_unprintable(s: Seq<char>) -> Option<char>
    decreases s.len(),
{
    if s.len() == 0 {
        None
    } else if !printable(s[0]) {
        Some(s[0])
    } else {
        first_unprintable(s.skip(1))
    }
}

/// What is wrong with a name: its length in bytes is looked at first.
pub open spec fn name_fault(s: Seq<char>) -> Option<NameFault> {
    if s.len() == 0 || vstd::utf8::encode_utf8(s).len() > 16 {
        Some(NameFault::Length)
    } else {
        match first_unprintable(s) {
            Some(c) => Some(NameFault::Character(c)),
            None => None,
        }
    }
}

/// An ASCII letter in upper case; any other character as it is.
pub open spec fn upper(c: char) -> char {
    if 'a' <= c <= 'z' {
        (c as u32 - 32) as char
    } else {
        c
    }
}

/// A name as the handshake hashes it: in upper case.
pub struct AccountName {
    inner: NormalizedString,
    text: Ghost<Seq<char>>,
}

impl View for AccountName {
    type V = Seq<char>;

    closed spec fn view(&self) -> Seq<char> {
        self.text@
    }
}

impl AccountName {
    /// Calls `NormalizedString::new`: an empty text, or one of more than sixteen bytes, is
    /// refused for its length, any other for its first character that is not printable ASCII;
    /// the rest is put in upper case.
    #[verifier::external_body]
    pub(crate) fn normalized(s: &str) -> (r: Result<AccountName, NameFault>)
        ensures
            match r {
                Ok(name) => name_fault(s@) is None && name@ == s@.map_values(
                    |c: char| upper(c),
                ),
                Err(fault) => name_fault(s@) == Some(fault),
            },
    {
        match NormalizedString::new(s) {
            Ok(inner) => Ok(
                AccountName { inner, text: Ghost(s@.map_values(|c: char| upper(c))) },
            ),
            Err(NormalizedStringError::StringTooLong) => Err(NameFault::Length),
            Err(NormalizedStringError::CharacterNotAllowed(c)) => Err(NameFault::Character(c)),
        }
    }

    /// The text that `wow_srp` works with.
    pub closed spec fn inner(&self) -> NormalizedString {
        self.inner
    }

    /// Hands the text over to the proof of a password.
    pub fn into_inner(self) -> (inner: NormalizedString)
        ensures
            inner == self.inner(),
    {
        self.inner
    }
}

/// The proof that a client knows the session key: SHA-1 over the name in upper case, the two
/// seeds and the key.
pub uninterp spec fn world_proof(
    name: Seq<char>,
    key: Seq<u8>,
    server_seed: u32,
    client_seed: u32,
) -> Seq<u8>;

/// A seed drawn for one handshake.
pub struct ClientSeed {
    inner: ProofSeed,
    value: Ghost<u32>,
}

impl View for ClientSeed {
    type V = u32;

    closed spec fn view(&self) -> u32 {
        self.value@
    }
}

impl ClientSeed {
    /// Calls `ProofSeed::new`, which draws the seed at random.
    #[verifier::external_body]
    pub(crate) fn draw() -> ClientSeed {
        ClientSeed { inner: ProofSeed::new(), value: Ghost(0) }
    }

    /// Calls `ProofSeed::seed`: the number that was drawn.
    #[verifier::external_body]
    pub(crate) fn number(&self) -> (n: u32)
        ensures
            n == self@,
    {
        self.inner.seed()
    }

    /// Calls `ProofSeed::into_client_header_crypto` and splits what it returns: the proof over
    /// the name, the key and both seeds, and the two halves of a cipher that has not moved yet.
    #[verifier::external_body]
    pub(crate) fn into_header_crypto(
        self,
        name: &AccountName,
        key: [u8; 40],
        server_seed: u32,
    ) -> (r: ([u8; 20], HeaderEncrypter, HeaderDecrypter))
        ensures
            r.0@ == world_proof(name@, key@, server_seed, self@),
            r.1@ == Keystream::fresh(key@),
            r.2@ == Keystream::fresh(key@),
    {
        let (proof, crypto) = self.inner.into_client_header_crypto(&name.inner, key, server_seed);
        let (enc, dec) = crypto.split();
        let state = Ghost(Keystream::fresh(key@));
        (proof, HeaderEncrypter { half: enc, state }, HeaderDecrypter { half: dec, state })
    }
}

/// A server's header gives its size with the high byte first and its opcode with the low byte first; a
/// client's header likewise, with an opcode of four bytes.
pub proof fn headers_have_their_byte_order(size: u16, opcode: u16, wide: u32, plain: Seq<u8>)
    requires
        plain.len() == 4,
    ensures
        server_header(plain).0 == 256 * plain[0] + plain[1],
        server_header(plain).1 == plain[2] + 256 * plain[3],
        server_header_bytes(size, opcode).len() == 4,
        256 * server_header_bytes(size, opcode)[0] + server_header_bytes(size, opcode)[1] == size,
        client_header_bytes(size, wide).len() == 6,
        256 * client_header_bytes(size, wide)[0] + client_header_bytes(size, wide)[1] == size,
        client_header_bytes(size, wide)[2] + 256 * (client_header_bytes(size, wide)[3] + 256 * (
        client_header_bytes(size, wide)[4] + 256 * client_header_bytes(size, wide)[5])) == wide,
{
}

/// What a byte on the wire stands for goes with the key and the byte before it: the difference of the
/// two, combined with the key's byte, which moves on by one and begins anew behind the fortieth.
pub proof fn the_cipher_runs_through_its_key(k: Keystream, wire: u8)
    requires
        k.valid(),
    ensures
        k.key.len() == 40,
        k.next(wire).previous == wire,
        k.next(wire).key == k.key,
        k.index < 39 ==> k.next(wire).index == k.index + 1,
        k.index == 39 ==> k.next(wire).index == 0,
        k.plain(wire) ^ k.key[k.index] == (wire - k.previous) % 256,
        k.sealed(k.plain(wire)) == wire,
        Keystream::fresh(k.key).index == 0 && Keystream::fresh(k.key).previous == 0 && Keystream::fresh(
            k.key,
        ).key == k.key,
{
    let d = ((wire - k.previous) % 256) as u8;
    let x = k.key[k.index];
    assert((d ^ x) ^ x == d) by (bit_vector);
    assert((d + k.previous) % 256 == wire);
}

/// A name is refused for its length where it is empty or takes more than sixteen bytes, and otherwise
/// for its first character that is not printable ASCII; nothing else is refused.
pub proof fn a_name_is_short_and_printable(s: Seq<char>, i: int)
    requires
        0 <= i < s.len(),
    ensures
        name_fault(Seq::<char>::empty()) == Some(NameFault::Length),
        vstd::utf8::encode_utf8(s).len() > 16 ==> name_fault(s) == Some(NameFault::Length),
        vstd::utf8::encode_utf8(s).len() <= 16 ==> (name_fault(s) is None <==> forall|k: int|
            0 <= k < s.len() ==> 32 <= (#[trigger] s[k]) as int <= 126),
        (vstd::utf8::encode_utf8(s).len() <= 16 && !(32 <= s[i] as int <= 126) && forall|k: int|
            0 <= k < i ==> 32 <= (#[trigger] s[k]) as int <= 126) ==> name_fault(s) == Some(
            NameFault::Character(s[i]),
        ),
{
    lemma_unprintable(s, i);
}

proof fn lemma_unprintable(s: Seq<char>, i: int)
    requires
        0 <= i < s.len(),
    ensures
        first_unprintable(s) is None <==> forall|k: int|
            0 <= k < s.len() ==> 32 <= (#[trigger] s[k]) as int <= 126,
        (!(32 <= s[i] as int <= 126) && forall|k: int|
            0 <= k < i ==> 32 <= (#[trigger] s[k]) as int <= 126) ==> first_unprintable(s) == Some(
            s[i],
        ),
    decreases s.len(),
{
    let t = s.skip(1);
    assert(forall|k: int| 0 <= k < t.len() ==> t[k] == s[k + 1]);
    if printable(s[0]) {
        if t.len() > 0 {
            lemma_unprintable(t, if i > 0 {
                i - 1
            } else {
                0
            });
        }
        if forall|k: int| 0 <= k < t.len() ==> 32 <= (#[trigger] t[k]) as int <= 126 {
            assert forall|k: int| 0 <= k < s.len() implies 32 <= (#[trigger] s[k]) as int <= 126 by {
                if k > 0 {
                    assert(t[k - 1] == s[k]);
                }
            }
        }
    }
}

/// A small letter is raised to the letter thirty-two places before, and everything else stays.
pub proof fn small_letters_are_raised(c: char)
    ensures
        97 <= c as int <= 122 ==> upper(c) as int == c as int - 32,
        (c as int) < 97 || c as int > 122 ==> upper(c) == c,
{
}

} // verus!
