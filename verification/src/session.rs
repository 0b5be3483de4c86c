//! A session with the server: whom it connects to, how it greets, how the wait for admission
//! goes, and what it keeps of what it sees.

use vstd::prelude::*;
use crate::cipher;
use crate::cipher::{AccountName, ClientSeed, HeaderDecrypter, HeaderEncrypter, NameFault};
use crate::text;

verus! {

/// The client build that this client speaks for.
pub const BUILD: u32 = 5875;

/// The world server that this client asks for.
pub const SERVER_ID: u32 = 1;

/// The world server, where the realm list names none.
pub const DEFAULT_WORLD_ADDR: &'static str = "127.0.0.1:8085";

/// The logon server, where none is given.
pub const DEFAULT_LOGON_ADDR: &'static str = "127.0.0.1:3724";

/// What a logon needs to know before it connects.
pub struct LogonPlan {
    pub address: String,
    pub account: String,
    pub password: String,
}

/// A logon address with the standard port, where it has none.
pub open spec fn with_port(address: Seq<char>) -> Seq<char> {
    if text::has_text(address, ":"@) {
        address
    } else {
        address + ":3724"@
    }
}

/// A logon at the given address.
pub fn logon_at(address: &str, account: &str, password: &str) -> (plan: LogonPlan)
    ensures
        plan.address@ == with_port(address@),
        plan.account@ == account@,
        plan.password@ == password@,
{
    let mut with_port: String = address.to_owned();
    if !text::contains(address, ":") {
        with_port.append(":3724");
    }
    LogonPlan { address: with_port, account: account.to_owned(), password: password.to_owned() }
}

/// A logon at the standard address.
pub fn logon(account: &str, password: &str) -> (plan: LogonPlan)
    ensures
        plan.address@ == DEFAULT_LOGON_ADDR@,
        plan.account@ == account@,
        plan.password@ == password@,
{
    proof {
        reveal_strlit("127.0.0.1:3724");
        reveal_strlit(":");
        assert(DEFAULT_LOGON_ADDR@.subrange(9, 10) =~= ":"@);
        assert(text::occurs_at(DEFAULT_LOGON_ADDR@, ":"@, 9));
    }
    logon_at(DEFAULT_LOGON_ADDR, account, password)
}

/// The address of the first realm, or the standard one where the list is empty.
pub open spec fn first_address(realms: Seq<Seq<char>>) -> Seq<char> {
    if realms.len() == 0 {
        DEFAULT_WORLD_ADDR@
    } else {
        realms[0]
    }
}

/// The world server that a realm list sends its reader to.
pub fn realm_address(realms: &Vec<String>) -> (address: String)
    ensures
        address@ == first_address(text::texts(realms@)),
{
    if realms.len() == 0 {
        DEFAULT_WORLD_ADDR.to_owned()
    } else {
        realms[0].clone()
    }
}

/// The safe prime of a logon challenge, which takes exactly thirty-two bytes.
pub fn prime_of(bytes: &Vec<u8>) -> (prime: Option<[u8; 32]>)
    ensures
        match prime {
            Some(p) => p@ == bytes@,
            None => bytes@.len() != 32,
        },
{
    if bytes.len() != 32 {
        return None;
    }
    let mut prime: [u8; 32] = [0u8; 32];
    for i in 0..32usize
        invariant
            bytes.len() == 32,
            forall|j: int| 0 <= j < i ==> prime@[j] == bytes@[j],
    {
        prime[i] = bytes[i];
    }
    assert(prime@ =~= bytes@);
    Some(prime)
}

/// What this client answers to a world server's challenge.
pub struct Greeting {
    pub build: u32,
    pub server_id: u32,
    pub username: String,
    pub client_seed: u32,
    pub client_proof: [u8; 20],
}

/// A world session as it opens: the greeting to send, and the cipher for what follows it.
pub struct Opened {
    pub greeting: Greeting,
    pub enc: HeaderEncrypter,
    pub dec: HeaderDecrypter,
}

/// A name as the handshake hashes it.
pub open spec fn upper_name(account: Seq<char>) -> Seq<char> {
    account.map_values(|c: char| cipher::upper(c))
}

/// Answers the challenge of a world server. The seed in the greeting is drawn anew each time; the
/// proof is made from it.
pub fn open_session(account: &str, key: [u8; 40], server_seed: u32) -> (r: Result<
    Opened,
    NameFault,
>)
    ensures
        match r {
            Ok(o) => {
                &&& cipher::name_fault(account@) is None
                &&& o.greeting.build == BUILD
                &&& o.greeting.server_id == SERVER_ID
                &&& o.greeting.username@ == account@
                &&& o.greeting.client_proof@ == cipher::world_proof(
                    upper_name(account@),
                    key@,
                    server_seed,
                    o.greeting.client_seed,
                )
                &&& o.enc@ == cipher::Keystream::fresh(key@)
                &&& o.dec@ == cipher::Keystream::fresh(key@)
            },
            Err(fault) => cipher::name_fault(account@) == Some(fault),
        },
{
    let seed = ClientSeed::draw();
    let client_seed: u32 = seed.number();
    let name = match AccountName::normalized(account) {
        Ok(name) => name,
        Err(fault) => return Err(fault),
    };
    let (client_proof, enc, dec) = seed.into_header_crypto(&name, key, server_seed);
    let greeting = Greeting {
        build: BUILD,
        server_id: SERVER_ID,
        username: account.to_owned(),
        client_seed,
        client_proof,
    };
    Ok(Opened { greeting, enc, dec })
}

/// What a world server says to a greeting.
#[derive(Clone, Copy, Debug, PartialEq, Eq, Structural)]
pub enum AuthReply {
    Accepted,
    WaitQueue(u32),
    Rejected,
    OtherMessage,
}

/// What to do after a reply.
#[derive(Clone, Copy, Debug, PartialEq, Eq, Structural)]
pub enum AdmissionStep {
    /// Read on; at the first place in the queue, stop timing out.
    Wait { lift_timeout: bool },
    /// The session is open; after a wait, time out again.
    Admitted { restore_timeout: bool },
    /// The server refused the session.
    Rejected,
    /// The server sent something else.
    Unexpected,
}

/// The wait for admission, with every place in the queue that was announced, in order.
pub struct Admission {
    pub positions: Vec<u32>,
}

/// The step that a reply leads to, with the queue places seen before it.
pub open spec fn admission_step(seen: Seq<u32>, reply: AuthReply) -> AdmissionStep {
    match reply {
        AuthReply::Accepted => AdmissionStep::Admitted { restore_timeout: seen.len() > 0 },
        AuthReply::WaitQueue(_) => AdmissionStep::Wait { lift_timeout: seen.len() == 0 },
        AuthReply::Rejected => AdmissionStep::Rejected,
        AuthReply::OtherMessage => AdmissionStep::Unexpected,
    }
}

/// The queue places seen after a reply.
pub open spec fn places_after(seen: Seq<u32>, reply: AuthReply) -> Seq<u32> {
    match reply {
        AuthReply::WaitQueue(position) => seen.push(position),
        _ => seen,
    }
}

impl Admission {
    pub fn new() -> (a: Admission)
        ensures
            a.positions@ == Seq::<u32>::empty(),
    {
        Admission { positions: Vec::new() }
    }

    /// Takes a reply in.
    pub fn answer(&mut self, reply: AuthReply) -> (step: AdmissionStep)
        ensures
            step == admission_step(old(self).positions@, reply),
            final(self).positions@ == places_after(old(self).positions@, reply),
    {
        match reply {
            AuthReply::Accepted => AdmissionStep::Admitted { restore_timeout: self.positions.len() > 0 },
            AuthReply::WaitQueue(position) => {
                let lift_timeout = self.positions.len() == 0;
                self.positions.push(position);
                AdmissionStep::Wait { lift_timeout }
            },
            AuthReply::Rejected => AdmissionStep::Rejected,
            AuthReply::OtherMessage => AdmissionStep::Unexpected,
        }
    }
}

/// The queue places that a run of replies announces.
pub open spec fn announced(replies: Seq<AuthReply>) -> Seq<u32>
    decreases replies.len(),
{
    if replies.len() == 0 {
        Seq::empty()
    } else {
        places_after(announced(replies.drop_last()), replies.last())
    }
}

/// The read timeout is lifted at most once: at the first place in the queue and at no later one.
pub proof fn the_timeout_is_lifted_once(replies: Seq<AuthReply>, i: int, j: int)
    requires
        0 <= i < j < replies.len(),
        admission_step(announced(replies.take(i)), replies[i]) == (AdmissionStep::Wait {
            lift_timeout: true,
        }),
    ensures
        admission_step(announced(replies.take(j)), replies[j]) != (AdmissionStep::Wait {
            lift_timeout: true,
        }),
        replies[j] is Accepted ==> admission_step(announced(replies.take(j)), replies[j]) == (
        AdmissionStep::Admitted { restore_timeout: true }),
{
    lemma_announced_stays(replies, i, j);
}

proof fn lemma_announced_stays(replies: Seq<AuthReply>, i: int, j: int)
    requires
        0 <= i < j <= replies.len(),
        replies[i] is WaitQueue,
    ensures
        announced(replies.take(j)).len() > 0,
    decreases j - i,
{
    let s = replies.take(j);
    assert(s.drop_last() =~= replies.take(j - 1));
    if j > i + 1 {
        lemma_announced_stays(replies, i, j - 1);
    }
}

proof fn lemma_size(n: int)
    requires
        0 <= n,
    ensures
        (n % 65536 + 4) % 65536 == (n + 4) % 65536,
{
}

fn join(head: &[u8; 6], body: &Vec<u8>) -> (frame: Vec<u8>)
    ensures
        frame@ == head@ + body@,
{
    let mut frame: Vec<u8> = Vec::new();
    for i in 0..6usize
        invariant
            frame@ == head@.take(i as int),
    {
        frame.push(head[i]);
        assert(head@.take(i + 1) =~= head@.take(i as int).push(head@[i as int]));
    }
    assert(head@.take(6) =~= head@);
    for i in 0..body.len()
        invariant
            frame@ == head@ + body@.take(i as int),
    {
        frame.push(body[i]);
        assert(head@ + body@.take(i + 1) =~= (head@ + body@.take(i as int)).push(
            body@[i as int],
        ));
    }
    assert(body@.take(body@.len() as int) =~= body@);
    frame
}

/// The frame that carries a message, and the cipher behind it.
pub open spec fn framed(k: cipher::Keystream, opcode: u32, body: Seq<u8>) -> (
    Seq<u8>,
    cipher::Keystream,
) {
    let head = k.closed_up(
        cipher::client_header_bytes(((body.len() + 4) % 65536) as u16, opcode),
    );
    (head + body, k.after(head))
}

/// The frame that carries a message which only its bytes describe: a sealed header, whose size
/// counts the four bytes of the opcode, and the body.
pub fn raw_frame(enc: &mut HeaderEncrypter, opcode: u32, body: &Vec<u8>) -> (frame: Vec<u8>)
    ensures
        (frame@, final(enc)@) == framed(old(enc)@, opcode, body@),
{
    let size: u16 = ((body.len() % 65536 + 4) % 65536) as u16;
    proof {
        lemma_size(body@.len() as int);
    }
    let header: [u8; 6] = enc.encrypt_client_header(size, opcode);
    join(&header, body)
}

/// An object that an update created.
#[derive(Clone, Copy, Debug, PartialEq, Eq, Structural)]
pub struct Created {
    pub guid: u64,
    /// Whether it is an item or a bag.
    pub item: bool,
}

/// A list with one more entry, unless it has it already.
pub open spec fn with_one(list: Seq<u64>, guid: u64) -> Seq<u64> {
    if list.contains(guid) {
        list
    } else {
        list.push(guid)
    }
}

/// The objects seen so far, and those of them that are items, each in the order of its first
/// appearance.
pub struct SightingsView {
    pub seen: Seq<u64>,
    pub items: Seq<u64>,
}

impl SightingsView {
    /// After one more object.
    pub open spec fn with(self, o: Created) -> SightingsView {
        SightingsView {
            seen: with_one(self.seen, o.guid),
            items: if o.item {
                with_one(self.items, o.guid)
            } else {
                self.items
            },
        }
    }

    /// After several more objects.
    pub open spec fn after(self, created: Seq<Created>) -> SightingsView
        decreases created.len(),
    {
        if created.len() == 0 {
            self
        } else {
            self.after(created.drop_last()).with(created.last())
        }
    }

    /// After an object was forgotten.
    pub open spec fn forgotten(self, guid: u64) -> SightingsView {
        SightingsView { seen: without(self.seen, guid), ..self }
    }

    /// Nothing is listed twice, and every item is listed among the objects too.
    pub open spec fn valid(self) -> bool {
        self.seen.no_duplicates() && self.items.no_duplicates() && forall|i: int|
            0 <= i < self.items.len() ==> self.seen.contains(#[trigger] self.items[i])
    }
}

/// What a session has seen of the objects around it.
pub struct Sightings {
    pub seen: Vec<u64>,
    pub items: Vec<u64>,
}

impl View for Sightings {
    type V = SightingsView;

    open spec fn view(&self) -> SightingsView {
        SightingsView { seen: self.seen@, items: self.items@ }
    }
}

fn add_once(list: &mut Vec<u64>, guid: u64)
    ensures
        final(list)@ == with_one(old(list)@, guid),
{
    let mut i: usize = 0;
    while i < list.len()
        invariant
            i <= list.len(),
            list@ == old(list)@,
            forall|j: int| 0 <= j < i ==> list@[j] != guid,
        decreases list.len() - i,
    {
        if list[i] == guid {
            return;
        }
        i = i + 1;
    }
    list.push(guid);
}

impl Sightings {
    pub fn new() -> (s: Sightings)
        ensures
            s@ == (SightingsView { seen: Seq::empty(), items: Seq::empty() }),
    {
        Sightings { seen: Vec::new(), items: Vec::new() }
    }

    /// Takes in the objects that an update created.
    pub fn note(&mut self, created: &Vec<Created>)
        ensures
            final(self)@ == old(self)@.after(created@),
    {
        let ghost start = self@;
        for i in 0..created.len()
            invariant
                self@ == start.after(created@.take(i as int)),
        {
            let o: Created = created[i];
            add_once(&mut self.seen, o.guid);
            if o.item {
                add_once(&mut self.items, o.guid);
            }
            assert(created@.take(i + 1).drop_last() =~= created@.take(i as int));
        }
        assert(created@.take(created@.len() as int) =~= created@);
    }

    /// Forgets that an object was seen, so that it can be seen anew.
    pub fn forget(&mut self, guid: u64)
        ensures
            final(self)@ == old(self)@.forgotten(guid),
    {
        let mut kept: Vec<u64> = Vec::new();
        let ghost seen = self.seen@;
        assert(seen.take(0) =~= Seq::<u64>::empty());
        for i in 0..self.seen.len()
            invariant
                seen == self.seen@,
                kept@ == without(seen.take(i as int), guid),
        {
            assert(seen.take(i + 1).drop_last() =~= seen.take(i as int));
            if self.seen[i] != guid {
                kept.push(self.seen[i]);
            }
        }
        assert(seen.take(seen.len() as int) =~= seen);
        self.seen = kept;
    }
}

/// A list without a guid.
pub open spec fn without(list: Seq<u64>, guid: u64) -> Seq<u64>
    decreases list.len(),
{
    if list.len() == 0 {
        list
    } else if list.last() == guid {
        without(list.drop_last(), guid)
    } else {
        without(list.drop_last(), guid).push(list.last())
    }
}

/// What is forgotten is no longer listed, and everything else is.
pub proof fn only_the_forgotten_is_gone(list: Seq<u64>, guid: u64, other: u64)
    ensures
        !without(list, guid).contains(guid),
        other != guid ==> without(list, guid).contains(other) == list.contains(other),
    decreases list.len(),
{
    if list.len() > 0 {
        let rest = list.drop_last();
        only_the_forgotten_is_gone(rest, guid, other);
        let w = without(rest, guid);
        assert(list.contains(other) == (rest.contains(other) || list.last() == other)) by {
            if list.contains(other) {
                let i = choose|i: int| 0 <= i < list.len() && list[i] == other;
                if i < rest.len() {
                    assert(rest[i] == other);
                }
            }
            if rest.contains(other) {
                let i = choose|i: int| 0 <= i < rest.len() && rest[i] == other;
                assert(list[i] == other);
            }
            if list.last() == other {
                assert(list[list.len() - 1] == other);
            }
        }
        if list.last() != guid {
            let all = w.push(list.last());
            assert(all.contains(other) == (w.contains(other) || list.last() == other)) by {
                if all.contains(other) {
                    let i = choose|i: int| 0 <= i < all.len() && all[i] == other;
                    if i < w.len() {
                        assert(w[i] == other);
                    }
                }
                if w.contains(other) {
                    let i = choose|i: int| 0 <= i < w.len() && w[i] == other;
                    assert(all[i] == other);
                }
                if list.last() == other {
                    assert(all[w.len() as int] == other);
                }
            }
            assert(!all.contains(guid)) by {
                if all.contains(guid) {
                    let i = choose|i: int| 0 <= i < all.len() && all[i] == guid;
                    if i < w.len() {
                        assert(w[i] == guid);
                        assert(w.contains(guid));
                    }
                }
            }
        }
    }
}

/// However updates come, no object is listed twice and every item is among the objects.
pub proof fn sightings_stay_valid(s: SightingsView, created: Seq<Created>)
    requires
        s.valid(),
    ensures
        s.after(created).valid(),
    decreases created.len(),
{
    if created.len() > 0 {
        sightings_stay_valid(s, created.drop_last());
        let before = s.after(created.drop_last());
        let o = created.last();
        let after = before.with(o);
        assert forall|i: int| 0 <= i < after.items.len() implies after.seen.contains(
            #[trigger] after.items[i],
        ) by {
            let g = after.items[i];
            if i < before.items.len() {
                assert(before.items[i] == g);
                let j = choose|j: int| 0 <= j < before.seen.len() && before.seen[j] == g;
                assert(after.seen[j] == g);
            } else {
                assert(g == o.guid);
                if !before.seen.contains(g) {
                    assert(after.seen.last() == g);
                }
            }
        }
    }
}

/// Every object that an update creates is listed afterwards, and what was listed stays.
pub proof fn created_objects_are_seen(s: SightingsView, created: Seq<Created>, i: int)
    requires
        0 <= i < created.len(),
    ensures
        s.after(created).seen.contains(created[i].guid),
        created[i].item ==> s.after(created).items.contains(created[i].guid),
        s.seen.is_prefix_of(s.after(created).seen),
    decreases created.len(),
{
    let rest = created.drop_last();
    let before = s.after(rest);
    let o = created.last();
    let after = before.with(o);
    lemma_seen_grows(s, rest);
    if before.seen.contains(o.guid) {
        assert(after.seen == before.seen);
    } else {
        assert(after.seen.last() == o.guid);
        assert(before.seen.is_prefix_of(after.seen));
    }
    if o.item && !before.items.contains(o.guid) {
        assert(after.items.last() == o.guid);
    }
    if i < rest.len() {
        created_objects_are_seen(s, rest, i);
        let g = created[i].guid;
        let j = choose|j: int| 0 <= j < before.seen.len() && before.seen[j] == g;
        assert(after.seen[j] == g);
        if created[i].item {
            let k = choose|k: int| 0 <= k < before.items.len() && before.items[k] == g;
            assert(after.items[k] == g);
        }
    }
}

proof fn lemma_seen_grows(s: SightingsView, created: Seq<Created>)
    ensures
        s.seen.is_prefix_of(s.after(created).seen),
    decreases created.len(),
{
    if created.len() > 0 {
        lemma_seen_grows(s, created.drop_last());
    }
}

/// A character as the character list gives it.
pub struct Listed {
    pub guid: u64,
    pub name: String,
}

/// The position of the first character of that name, whatever its letters' case.
pub open spec fn named_at(list: Seq<Listed>, name: Seq<char>, i: int) -> bool {
    &&& 0 <= i < list.len()
    &&& text::lowered(list[i].name@) == text::lowered(name)
    &&& forall|j: int|
        0 <= j < i ==> text::lowered((#[trigger] list[j]).name@) != text::lowered(name)
}

/// Whether no character has that name.
pub open spec fn unnamed(list: Seq<Listed>, name: Seq<char>) -> bool {
    forall|j: int|
        0 <= j < list.len() ==> text::lowered((#[trigger] list[j]).name@) != text::lowered(name)
}

/// A guid is that of the first character of that name, where there is one.
pub open spec fn finds(list: Seq<Listed>, name: Seq<char>, guid: Option<u64>) -> bool {
    match guid {
        Some(g) => exists|i: int| named_at(list, name, i) && list[i].guid == g,
        None => unnamed(list, name),
    }
}

/// The guid of the first character of that name.
pub fn find_char(list: &Vec<Listed>, name: &str) -> (guid: Option<u64>)
    ensures
        finds(list@, name@, guid),
{
    for i in 0..list.len()
        invariant
            forall|j: int|
                0 <= j < i ==> text::lowered((#[trigger] list@[j]).name@) != text::lowered(name@),
    {
        if text::eq_ignore_ascii_case(list[i].name.as_str(), name) {
            assert(named_at(list@, name@, i as int));
            return Some(list[i].guid);
        }
    }
    None
}

/// What a server answers to a request to create a character.
#[derive(Clone, Copy, Debug, PartialEq, Eq, Structural)]
pub enum CreateReply {
    Success,
    NameInUse,
    Other,
}

/// The character list is worth asking for again after such an answer.
pub open spec fn settles(reply: CreateReply) -> bool {
    reply == CreateReply::Success || reply == CreateReply::NameInUse
}

/// Whether the character list is worth asking for again after such an answer.
pub fn create_settled(reply: CreateReply) -> (yes: bool)
    ensures
        yes == settles(reply),
{
    match reply {
        CreateReply::Success | CreateReply::NameInUse => true,
        CreateReply::Other => false,
    }
}

/// Whether an update created the object with that guid.
pub fn created_self(created: &Vec<Created>, guid: u64) -> (yes: bool)
    ensures
        yes == crate::observer::created(created@, guid),
{
    for i in 0..created.len()
        invariant
            forall|j: int| 0 <= j < i ==> (#[trigger] created@[j]).guid != guid,
    {
        if created[i].guid == guid {
            return true;
        }
    }
    false
}

/// An address without a port gets the standard one, and one with a port keeps its own.
pub proof fn an_address_has_a_port(host: Seq<char>, port: Seq<char>)
    ensures
        with_port(host + seq![':'] + port) == host + seq![':'] + port,
        !host.contains(':') ==> with_port(host) == host + seq![':', '3', '7', '2', '4'],
{
    reveal_strlit(":");
    reveal_strlit(":3724");
    assert(":3724"@ =~= seq![':', '3', '7', '2', '4']);
    assert(":"@ =~= seq![':']);
    let full = host + seq![':'] + port;
    let at = host.len() as int;
    assert(full.subrange(at, at + 1) =~= ":"@);
    assert(text::occurs_at(full, ":"@, at));
    if text::has_text(host, ":"@) {
        let i = choose|i: int| #[trigger] text::occurs_at(host, ":"@, i);
        assert(host.subrange(i, i + 1)[0] == ':');
        assert(host[i] == ':');
    }
}

/// The reader of a realm list is sent to its first realm.
pub proof fn the_first_realm_is_entered(first: Seq<char>, others: Seq<Seq<char>>)
    ensures
        first_address(seq![first] + others) == first,
        first_address(Seq::empty()) == "127.0.0.1:8085"@,
{
}

/// Waiting in a queue lifts the timeout at the first place and restores it at the end: a session that
/// never waited keeps it. Every place is kept, in order, and nothing else is.
pub proof fn a_queue_is_waited_out(seen: Seq<u32>, place: u32)
    ensures
        admission_step(Seq::empty(), AuthReply::Accepted) == (AdmissionStep::Admitted {
            restore_timeout: false,
        }),
        admission_step(seen.push(place), AuthReply::Accepted) == (AdmissionStep::Admitted {
            restore_timeout: true,
        }),
        admission_step(Seq::empty(), AuthReply::WaitQueue(place)) == (AdmissionStep::Wait {
            lift_timeout: true,
        }),
        admission_step(seen.push(place), AuthReply::WaitQueue(place)) == (AdmissionStep::Wait {
            lift_timeout: false,
        }),
        admission_step(seen, AuthReply::Rejected) == AdmissionStep::Rejected,
        admission_step(seen, AuthReply::OtherMessage) == AdmissionStep::Unexpected,
        places_after(seen, AuthReply::WaitQueue(place)) == seen.push(place),
        places_after(seen, AuthReply::Accepted) == seen,
        places_after(seen, AuthReply::Rejected) == seen,
{
}

/// A frame is read back by the one who has the key: six bytes of header that give the size of the
/// opcode and the body, high byte first, and the opcode, low byte first, and then the body itself.
pub proof fn a_frame_reads_back(k: cipher::Keystream, opcode: u32, body: Seq<u8>)
    requires
        k.valid(),
        body.len() + 4 < 65536,
    ensures
        ({
            let (frame, after) = framed(k, opcode, body);
            let head = k.opened(frame.take(6));
            &&& frame.len() == 6 + body.len()
            &&& frame.skip(6) == body
            &&& 256 * head[0] + head[1] == body.len() + 4
            &&& head[2] + 256 * (head[3] + 256 * (head[4] + 256 * head[5])) == opcode
            &&& after == k.after(frame.take(6))
        }),
{
    let size = ((body.len() + 4) % 65536) as u16;
    let plain = cipher::client_header_bytes(size, opcode);
    let head = k.closed_up(plain);
    cipher::opening_undoes_sealing(k, plain);
    cipher::headers_have_their_byte_order(size, 0, opcode, seq![0u8, 0, 0, 0]);
    let frame = framed(k, opcode, body).0;
    assert(frame.take(6) =~= head);
    assert(frame.skip(6) =~= body);
}

/// A character is found by its name, whatever the case of its letters: the first of that name, and none
/// where there is none.
pub proof fn a_character_is_found_by_its_name(
    list: Seq<Listed>,
    name: Seq<char>,
    guid: Option<u64>,
    k: int,
)
    requires
        finds(list, name, guid),
        0 <= k < list.len(),
        text::lowered(list[k].name@) == text::lowered(name),
    ensures
        guid is Some,
        exists|i: int|
            0 <= i <= k && (#[trigger] list[i]).guid == guid->0 && text::lowered(list[i].name@)
                == text::lowered(name),
        (forall|j: int|
            0 <= j < k ==> text::lowered((#[trigger] list[j]).name@) != text::lowered(name)) ==> guid
            == Some(list[k].guid),
{
    if guid is None {
        assert(text::lowered(list[k].name@) != text::lowered(name));
    }
    let i = choose|i: int| named_at(list, name, i) && list[i].guid == guid->0;
    if k < i {
        assert(text::lowered(list[k].name@) != text::lowered(name));
    }
    assert(list[i].guid == guid->0);
}

/// An object that is noted is seen, and is an item where it is one; what was forgotten is seen anew at
/// the end of the list. An object that was already seen is not listed again.
pub proof fn an_object_is_noted_once(s: SightingsView, o: Created)
    ensures
        s.with(o).seen.contains(o.guid),
        o.item ==> s.with(o).items.contains(o.guid),
        !o.item ==> s.with(o).items == s.items,
        s.with(o).with(o) == s.with(o),
        s.seen.contains(o.guid) ==> s.with(o).seen == s.seen,
        !s.seen.contains(o.guid) ==> s.with(o).seen == s.seen.push(o.guid),
        s.forgotten(o.guid).with(o).seen.last() == o.guid,
        s.forgotten(o.guid).items == s.items,
{
    assert(s.seen.push(o.guid)[s.seen.len() as int] == o.guid);
    assert(s.items.push(o.guid)[s.items.len() as int] == o.guid);
    only_the_forgotten_is_gone(s.seen, o.guid, o.guid);
}

/// A request to create a character is settled by success and by a name that is taken, and by nothing
/// else.
pub proof fn a_creation_is_settled_by_two_answers()
    ensures
        settles(CreateReply::Success),
        settles(CreateReply::NameInUse),
        !settles(CreateReply::Other),
{
}

} // verus!
