//! What a logon server's challenge is answered from.

use vstd::prelude::*;
use wow_srp::error::InvalidPublicKeyError;
use wow_srp::PublicKey;
use crate::cipher;
use crate::cipher::AccountName;
use crate::cipher::NameFault;
use crate::session;

verus! {

/// `wow_srp`'s public key of a server.
#[verifier::external_type_specification]
#[verifier::external_body]
pub struct ExPublicKey(PublicKey);

/// The prime that every 1.12 server uses, lowest byte first.
pub open spec fn standard_prime() -> Seq<u8> {
    seq![
        0xb7u8, 0x9b, 0x3e, 0x2a, 0x87, 0x82, 0x3c, 0xab, 0x8f, 0x5e, 0xbf, 0xbf, 0x8e, 0xb1, 0x01,
        0x08, 0x53, 0x50, 0x06, 0x29, 0x8b, 0x5b, 0xad, 0xbd, 0x5b, 0x53, 0xe1, 0x89, 0x5e, 0x64,
        0x4b, 0x89,
    ]
}

/// What is wrong with a server's public key.
#[derive(Clone, Copy, Debug, PartialEq, Eq, Structural)]
pub enum KeyFault {
    /// It is zero.
    Zero,
    /// It is the prime.
    Prime,
}

/// A byte of a key is neither zero nor that of the prime.
pub open spec fn own_byte(key: Seq<u8>, i: int) -> bool {
    key[i] != 0 && key[i] != standard_prime()[i]
}

/// What is wrong with a key, if anything is: no byte of it is its own.
pub open spec fn key_fault(key: Seq<u8>) -> Option<KeyFault> {
    if exists|i: int| 0 <= i < key.len() && own_byte(key, i) {
        None
    } else if key[0] == 0 {
        Some(KeyFault::Zero)
    } else {
        Some(KeyFault::Prime)
    }
}

/// A server's public key that can be answered.
pub struct ServerKey {
    inner: PublicKey,
    bytes: Ghost<Seq<u8>>,
}

impl View for ServerKey {
    type V = Seq<u8>;

    closed spec fn view(&self) -> Seq<u8> {
        self.bytes@
    }
}

impl ServerKey {
    /// Calls `PublicKey::from_le_bytes`: a key is refused where each of its bytes is zero or that
    /// of the standard prime, as zero where the first is zero and as the prime otherwise.
    #[verifier::external_body]
    pub(crate) fn read(key: [u8; 32]) -> (r: Result<ServerKey, KeyFault>)
        ensures
            match r {
                Ok(k) => key_fault(key@) is None && k@ == key@,
                Err(fault) => key_fault(key@) == Some(fault),
            },
    {
        match PublicKey::from_le_bytes(key) {
            Ok(inner) => Ok(ServerKey { inner, bytes: Ghost(key@) }),
            Err(InvalidPublicKeyError::PublicKeyIsZero) => Err(KeyFault::Zero),
            Err(InvalidPublicKeyError::PublicKeyModLargeSafePrimeIsZero) => Err(KeyFault::Prime),
        }
    }

    /// The key that `wow_srp` works with.
    pub closed spec fn inner(&self) -> PublicKey {
        self.inner
    }

    /// Hands the key over to the proof of a password.
    pub fn into_inner(self) -> (inner: PublicKey)
        ensures
            inner == self.inner(),
    {
        self.inner
    }
}

/// Why a challenge cannot be answered.
#[derive(Clone, Copy, Debug, PartialEq, Eq, Structural)]
pub enum LogonFault {
    /// The prime does not take thirty-two bytes.
    Prime,
    Account(NameFault),
    Password(NameFault),
    /// There is no generator.
    Generator,
    Key(KeyFault),
}

/// What is wrong with a challenge, if anything is; the first of several.
pub open spec fn logon_fault(
    account: Seq<char>,
    password: Seq<char>,
    generator: Seq<u8>,
    prime: Seq<u8>,
    key: Seq<u8>,
) -> Option<LogonFault> {
    if prime.len() != 32 {
        Some(LogonFault::Prime)
    } else if cipher::name_fault(account) is Some {
        Some(LogonFault::Account(cipher::name_fault(account)->0))
    } else if cipher::name_fault(password) is Some {
        Some(LogonFault::Password(cipher::name_fault(password)->0))
    } else if generator.len() == 0 {
        Some(LogonFault::Generator)
    } else if key_fault(key) is Some {
        Some(LogonFault::Key(key_fault(key)->0))
    } else {
        None
    }
}

/// What the proof of a password is made from.
pub struct Challenge {
    pub account: AccountName,
    pub password: AccountName,
    pub generator: u8,
    pub prime: [u8; 32],
    pub server_key: ServerKey,
}

/// Takes a server's challenge apart: the account and the password in upper case, the first byte of
/// the generator, the prime and the server's key.
pub fn challenge_of(
    account: &str,
    password: &str,
    generator: &Vec<u8>,
    prime: &Vec<u8>,
    key: [u8; 32],
) -> (r: Result<Challenge, LogonFault>)
    ensures
        match r {
            Ok(c) => {
                &&& logon_fault(account@, password@, generator@, prime@, key@) is None
                &&& c.account@ == session::upper_name(account@)
                &&& c.password@ == session::upper_name(password@)
                &&& c.generator == generator@[0]
                &&& c.prime@ == prime@
                &&& c.server_key@ == key@
            },
            Err(fault) => logon_fault(account@, password@, generator@, prime@, key@) == Some(fault),
        },
{
    let prime = match session::prime_of(prime) {
        Some(p) => p,
        None => return Err(LogonFault::Prime),
    };
    let account = match AccountName::normalized(account) {
        Ok(name) => name,
        Err(fault) => return Err(LogonFault::Account(fault)),
    };
    let password = match AccountName::normalized(password) {
        Ok(name) => name,
        Err(fault) => return Err(LogonFault::Password(fault)),
    };
    if generator.len() == 0 {
        return Err(LogonFault::Generator);
    }
    let server_key = match ServerKey::read(key) {
        Ok(k) => k,
        Err(fault) => return Err(LogonFault::Key(fault)),
    };
    Ok(Challenge { account, password, generator: generator[0], prime, server_key })
}

/// A key is refused exactly where none of its bytes is its own: where each is zero or the prime's. The key
/// that is all zero, and the prime itself, are such keys.
pub proof fn a_key_has_a_byte_of_its_own(key: Seq<u8>, i: int)
    requires
        key.len() == 32,
        0 <= i < 32,
    ensures
        key[i] != 0 && key[i] != standard_prime()[i] ==> key_fault(key) is None,
        key_fault(standard_prime()) == Some(KeyFault::Prime),
        (forall|k: int| 0 <= k < 32 ==> key[k] == 0) ==> key_fault(key) == Some(KeyFault::Zero),
        standard_prime().len() == 32,
{
    if key[i] != 0 && key[i] != standard_prime()[i] {
        assert(own_byte(key, i));
    }
    if key_fault(standard_prime()) is None {
        let k = choose|k: int| 0 <= k < standard_prime().len() && own_byte(standard_prime(), k);
        assert(own_byte(standard_prime(), k));
    }
}

/// A challenge can be answered exactly where its prime takes thirty-two bytes, the account and the password
/// are names, there is a generator, and the key has a byte of its own.
pub proof fn a_challenge_is_answered_in_full(
    account: Seq<char>,
    password: Seq<char>,
    generator: Seq<u8>,
    prime: Seq<u8>,
    key: Seq<u8>,
)
    ensures
        logon_fault(account, password, generator, prime, key) is None <==> prime.len() == 32
            && cipher::name_fault(account) is None && cipher::name_fault(password) is None
            && generator.len() > 0 && key_fault(key) is None,
        prime.len() != 32 ==> logon_fault(account, password, generator, prime, key) == Some(
            LogonFault::Prime,
        ),
{
}

} // verus!
