//! Observers of other players: the commands they are given, what satisfies them, and walks across
//! a seam that nobody is to notice.

use vstd::prelude::*;
use crate::number;
use crate::session::Created;
use crate::text;
use crate::wire;

verus! {

/// How long a command is waited for, in seconds.
pub const WINDOW_SECS: u64 = 30;

/// What an observer waits for.
#[derive(Clone, Copy, Debug, PartialEq, Eq, Structural)]
pub enum Sight {
    /// The peer was seen, or is seen now.
    Seen,
    /// The peer appears anew.
    Created,
    /// The peer moves.
    Moved,
    /// The peer is gone.
    Destroyed,
}

/// What an observer is told.
#[derive(Debug)]
pub enum Order {
    /// All is done.
    Done,
    /// It walks itself, from the place that these words give.
    Walk(Vec<String>),
    /// It waits for something of someone; the word is the command's own.
    Expect { sight: Sight, peer: u64, word: String },
    /// No such command.
    Unknown(String),
}

/// What an observer is told.
pub enum OrderView {
    Done,
    Walk(Seq<Seq<char>>),
    Expect { sight: Sight, peer: nat, word: Seq<char> },
    Unknown(Seq<char>),
}

impl View for Order {
    type V = OrderView;

    open spec fn view(&self) -> OrderView {
        match *self {
            Order::Done => OrderView::Done,
            Order::Walk(words) => OrderView::Walk(text::texts(words@)),
            Order::Expect { sight, peer, word } => OrderView::Expect {
                sight,
                peer: peer as nat,
                word: word@,
            },
            Order::Unknown(word) => OrderView::Unknown(word@),
        }
    }
}

/// What a word waits for.
pub open spec fn sight_of(word: Seq<char>) -> Option<Sight> {
    if word == "expect-seen"@ {
        Some(Sight::Seen)
    } else if word == "expect-create"@ {
        Some(Sight::Created)
    } else if word == "expect-move"@ {
        Some(Sight::Moved)
    } else if word == "expect-destroy"@ {
        Some(Sight::Destroyed)
    } else {
        None
    }
}

/// The command and whom it is about: another than the peer where the command names one.
pub open spec fn about(cmd: Seq<char>, peer: u64) -> (Seq<char>, nat) {
    match text::cut(cmd, " "@) {
        Some((word, rest)) => (
            word,
            match number::unsigned_value(text::trimmed(rest), u64::MAX as nat) {
                Some(g) => g,
                None => peer as nat,
            },
        ),
        None => (cmd, peer as nat),
    }
}

/// What a command says.
pub open spec fn order(cmd: Seq<char>, peer: u64) -> OrderView {
    if cmd == "done"@ {
        OrderView::Done
    } else {
        match text::after_prefix(cmd, "walk "@) {
            Some(rest) => OrderView::Walk(text::words(rest)),
            None => {
                let (word, whom) = about(cmd, peer);
                match sight_of(word) {
                    Some(sight) => OrderView::Expect { sight, peer: whom, word },
                    None => OrderView::Unknown(word),
                }
            },
        }
    }
}

fn sight_named(word: &str) -> (s: Option<Sight>)
    ensures
        s == sight_of(word@),
{
    if text::same_text(word, "expect-seen") {
        Some(Sight::Seen)
    } else if text::same_text(word, "expect-create") {
        Some(Sight::Created)
    } else if text::same_text(word, "expect-move") {
        Some(Sight::Moved)
    } else if text::same_text(word, "expect-destroy") {
        Some(Sight::Destroyed)
    } else {
        None
    }
}

/// Reads a command.
pub fn order_of(cmd: &str, peer: u64) -> (o: Order)
    ensures
        o@ == order(cmd@, peer),
{
    if text::same_text(cmd, "done") {
        return Order::Done;
    }
    if let Some(rest) = text::past(cmd, "walk ") {
        let v = text::chars_of(rest.as_str());
        assert(v@.skip(0) =~= v@);
        let words: Vec<String> = text::words_from(&v, 0);
        return Order::Walk(words);
    }
    let (word, whom): (String, u64) = match text::split_once(cmd, " ") {
        Some((word, rest)) => {
            let bare: String = text::trim(rest.as_str());
            let whom: u64 = match number::parse_unsigned(bare.as_str(), u64::MAX) {
                Some(g) => g,
                None => peer,
            };
            (word, whom)
        },
        None => (cmd.to_owned(), peer),
    };
    match sight_named(word.as_str()) {
        Some(sight) => Order::Expect { sight, peer: whom, word },
        None => Order::Unknown(word),
    }
}

/// Whether a guid is among some.
pub fn has_guid(guids: &Vec<u64>, guid: u64) -> (yes: bool)
    ensures
        yes == guids@.contains(guid),
{
    for i in 0..guids.len()
        invariant
            forall|j: int| 0 <= j < i ==> guids@[j] != guid,
    {
        if guids[i] == guid {
            assert(guids@[i as int] == guid);
            return true;
        }
    }
    false
}

/// A frame shows that a peer moves or is gone.
pub open spec fn shows(sight: Sight, opcode: u16, payload: Seq<u8>, peer: u64) -> bool {
    match sight {
        Sight::Moved => wire::is_move(opcode) && wire::packed_guid(payload) == Some(peer as nat),
        Sight::Destroyed => opcode == wire::SMSG_DESTROY_OBJECT && wire::number_at(payload, 0, 8)
            == Some(peer as nat),
        _ => false,
    }
}

/// Whether a frame shows that a peer moves or is gone.
pub fn frame_shows(sight: Sight, opcode: u16, payload: &Vec<u8>, peer: u64) -> (yes: bool)
    ensures
        yes == shows(sight, opcode, payload@, peer),
{
    match sight {
        Sight::Moved => match wire::mover(opcode, payload) {
            Some(g) => g == peer,
            None => false,
        },
        Sight::Destroyed => match wire::destroyed(opcode, payload) {
            Some(g) => g == peer,
            None => false,
        },
        _ => false,
    }
}

/// What an observer answers.
pub open spec fn answer(ok: bool, word: Seq<char>) -> Seq<char> {
    (if ok {
        "OK "@
    } else {
        "FAIL "@
    }) + word
}

/// What an observer answers.
pub fn acknowledgement(ok: bool, word: &str) -> (s: String)
    ensures
        s@ == answer(ok, word@),
{
    let mut s: String = if ok {
        "OK ".to_owned()
    } else {
        "FAIL ".to_owned()
    };
    s.append(word);
    s
}

/// A watch for something of someone.
#[derive(Clone, Copy, Debug, PartialEq, Eq, Structural)]
pub struct Watch {
    pub sight: Sight,
    pub peer: u64,
    /// When it began, in milliseconds.
    pub from: u64,
    /// Whether it was satisfied, once that is known.
    pub settled: Option<bool>,
}

/// What a watch takes note of.
pub enum Notice {
    /// Nothing is read yet: only the time is looked at.
    Tick(u64),
    /// A message created those objects.
    Created(Vec<Created>),
    /// A frame came.
    Frame(u16, Vec<u8>),
    /// A frame could not be taken.
    Unsafe,
}

/// What a watch takes note of.
pub enum NoticeView {
    Tick(u64),
    Created(Seq<Created>),
    Frame(u16, Seq<u8>),
    Unsafe,
}

impl View for Notice {
    type V = NoticeView;

    open spec fn view(&self) -> NoticeView {
        match *self {
            Notice::Tick(now) => NoticeView::Tick(now),
            Notice::Created(objects) => NoticeView::Created(objects@),
            Notice::Frame(opcode, payload) => NoticeView::Frame(opcode, payload@),
            Notice::Unsafe => NoticeView::Unsafe,
        }
    }
}

/// An object is among those created.
pub open spec fn created(objects: Seq<Created>, guid: u64) -> bool {
    exists|i: int| 0 <= i < objects.len() && (#[trigger] objects[i]).guid == guid
}

impl Watch {
    /// A watch that begins.
    pub open spec fn begun(sight: Sight, peer: u64, seen: Seq<u64>, now: u64) -> Watch {
        Watch {
            sight,
            peer,
            from: now,
            settled: if sight == Sight::Seen && seen.contains(peer) {
                Some(true)
            } else {
                None
            },
        }
    }

    /// Whether messages are read for it, rather than bare frames.
    pub open spec fn by_messages(self) -> bool {
        self.sight == Sight::Seen || self.sight == Sight::Created
    }

    /// A notice is what it waits for.
    pub open spec fn satisfied_by(self, n: NoticeView) -> bool {
        match n {
            NoticeView::Created(objects) => self.by_messages() && created(objects, self.peer),
            NoticeView::Frame(opcode, payload) => shows(self.sight, opcode, payload, self.peer),
            _ => false,
        }
    }

    /// A notice ends it in vain.
    pub open spec fn ended_by(self, n: NoticeView) -> bool {
        match n {
            NoticeView::Tick(now) => now >= self.from + WINDOW_SECS * 1000,
            NoticeView::Unsafe => self.by_messages(),
            _ => false,
        }
    }

    /// Once something more is noticed.
    pub open spec fn after(self, n: NoticeView) -> Watch {
        if self.settled is Some {
            self
        } else if self.satisfied_by(n) {
            Watch { settled: Some(true), ..self }
        } else if self.ended_by(n) {
            Watch { settled: Some(false), ..self }
        } else {
            self
        }
    }

    /// A watch that begins. What was seen before satisfies a watch for someone who may have been.
    pub fn new(sight: Sight, peer: u64, seen: &Vec<u64>, now: u64) -> (w: Watch)
        ensures
            w == Watch::begun(sight, peer, seen@, now),
    {
        let known: bool = match sight {
            Sight::Seen => has_guid(seen, peer),
            _ => false,
        };
        Watch {
            sight,
            peer,
            from: now,
            settled: if known {
                Some(true)
            } else {
                None
            },
        }
    }

    /// Whether messages are read for it, rather than bare frames.
    pub fn reads_messages(&self) -> (yes: bool)
        ensures
            yes == self.by_messages(),
    {
        match self.sight {
            Sight::Seen | Sight::Created => true,
            _ => false,
        }
    }

    /// Takes note of something.
    pub fn observe(&mut self, n: &Notice)
        ensures
            *final(self) == old(self).after(n@),
    {
        if self.settled.is_some() {
            return;
        }
        match n {
            Notice::Tick(now) => {
                if *now >= self.from && *now - self.from >= WINDOW_SECS * 1000 {
                    self.settled = Some(false);
                }
            },
            Notice::Created(objects) => {
                if self.reads_messages() && has_created(objects, self.peer) {
                    self.settled = Some(true);
                }
            },
            Notice::Frame(opcode, payload) => {
                if frame_shows(self.sight, *opcode, payload, self.peer) {
                    self.settled = Some(true);
                }
            },
            Notice::Unsafe => {
                if self.reads_messages() {
                    self.settled = Some(false);
                }
            },
        }
    }
}

fn has_created(objects: &Vec<Created>, guid: u64) -> (yes: bool)
    ensures
        yes == created(objects@, guid),
{
    for i in 0..objects.len()
        invariant
            forall|j: int| 0 <= j < i ==> (#[trigger] objects@[j]).guid != guid,
    {
        if objects[i].guid == guid {
            assert(objects@[i as int].guid == guid);
            return true;
        }
    }
    false
}

/// Where a watch stands after all that was noticed.
pub open spec fn watch_after(start: Watch, seen: Seq<NoticeView>) -> Watch
    decreases seen.len(),
{
    if seen.len() == 0 {
        start
    } else {
        watch_after(start, seen.drop_last()).after(seen.last())
    }
}

/// A watch is satisfied exactly where something was noticed that satisfies it, before anything
/// that ends it.
pub proof fn a_satisfied_watch_was_shown_in_time(start: Watch, seen: Seq<NoticeView>)
    requires
        start.settled is None,
    ensures
        watch_after(start, seen).settled == Some(true) <==> exists|i: int|
            #![trigger start.satisfied_by(seen[i])]
            0 <= i < seen.len() && start.satisfied_by(seen[i]) && forall|j: int|
                0 <= j < i ==> !start.ended_by(#[trigger] seen[j]),
{
    lemma_watch(start, seen);
}

proof fn lemma_watch(start: Watch, seen: Seq<NoticeView>)
    requires
        start.settled is None,
    ensures
        ({
            let w = watch_after(start, seen);
            let shown = exists|i: int|
                #![trigger start.satisfied_by(seen[i])]
                0 <= i < seen.len() && start.satisfied_by(seen[i]) && forall|j: int|
                    0 <= j < i ==> !start.ended_by(#[trigger] seen[j]);
            let ended = exists|j: int| 0 <= j < seen.len() && start.ended_by(#[trigger] seen[j]);
            &&& w == (Watch { settled: w.settled, ..start })
            &&& w.settled == Some(true) <==> shown
            &&& w.settled is None <==> !shown && !ended
        }),
    decreases seen.len(),
{
    if seen.len() > 0 {
        let before = seen.drop_last();
        let n = before.len() as int;
        lemma_watch(start, before);
        let was = watch_after(start, before);
        assert(forall|i: int| 0 <= i < n ==> before[i] == #[trigger] seen[i]);
        assert(seen.last() == seen[n]);
        assert(was.satisfied_by(seen[n]) == start.satisfied_by(seen[n]));
        assert(was.ended_by(seen[n]) == start.ended_by(seen[n]));
        if was.settled == Some(true) {
            let i = choose|i: int|
                #![trigger start.satisfied_by(before[i])]
                0 <= i < before.len() && start.satisfied_by(before[i]) && forall|j: int|
                    0 <= j < i ==> !start.ended_by(#[trigger] before[j]);
            assert(start.satisfied_by(seen[i]));
        } else if was.settled is None {
            assert forall|j: int| 0 <= j < n implies !start.ended_by(#[trigger] seen[j]) by {
                assert(!start.ended_by(before[j]));
            }
            if start.satisfied_by(seen[n]) {
            } else {
                assert forall|i: int| 0 <= i < seen.len() implies !#[trigger] start.satisfied_by(
                    seen[i],
                ) by {
                    if i < n {
                        assert(start.satisfied_by(before[i]) == start.satisfied_by(seen[i]));
                    }
                }
            }
        } else {
            let j = choose|j: int| 0 <= j < before.len() && start.ended_by(#[trigger] before[j]);
            assert(start.ended_by(seen[j]));
            assert forall|i: int|
                0 <= i < seen.len() && #[trigger] start.satisfied_by(seen[i]) implies exists|k: int|
                0 <= k < i && start.ended_by(#[trigger] seen[k]) by {
                if i < n {
                    assert(start.satisfied_by(before[i]));
                    let k = choose|k: int| 0 <= k < i && start.ended_by(#[trigger] before[k]);
                    assert(start.ended_by(seen[k]));
                } else {
                    assert(start.ended_by(seen[j]));
                }
            }
        }
    }
}

/// What a mover is told.
#[derive(Debug)]
pub enum MoverOrder {
    /// It leaves without a word.
    Exit,
    /// It steps around the place that these words give.
    Burst(Vec<String>),
    /// Nothing.
    Ignore,
}

/// What a mover is told.
pub enum MoverOrderView {
    Exit,
    Burst(Seq<Seq<char>>),
    Ignore,
}

impl View for MoverOrder {
    type V = MoverOrderView;

    open spec fn view(&self) -> MoverOrderView {
        match *self {
            MoverOrder::Exit => MoverOrderView::Exit,
            MoverOrder::Burst(words) => MoverOrderView::Burst(text::texts(words@)),
            MoverOrder::Ignore => MoverOrderView::Ignore,
        }
    }
}

/// What a command of a mover says, blanks around it aside.
pub open spec fn mover_told(cmd: Seq<char>) -> MoverOrderView {
    let bare = text::trimmed(cmd);
    if bare == "exit"@ {
        MoverOrderView::Exit
    } else {
        match text::after_prefix(bare, "burst "@) {
            Some(rest) => MoverOrderView::Burst(text::words(rest)),
            None => MoverOrderView::Ignore,
        }
    }
}

/// Reads a command of a mover, blanks around it aside.
pub fn mover_order(cmd: &str) -> (o: MoverOrder)
    ensures
        o@ == mover_told(cmd@),
{
    let bare: String = text::trim(cmd);
    if text::same_text(bare.as_str(), "exit") {
        return MoverOrder::Exit;
    }
    match text::past(bare.as_str(), "burst ") {
        Some(rest) => {
            let v = text::chars_of(rest.as_str());
            assert(v@.skip(0) =~= v@);
            MoverOrder::Burst(text::words_from(&v, 0))
        },
        None => MoverOrder::Ignore,
    }
}

// ------------------------------------------------------------------------------------------
//  Seams
// ------------------------------------------------------------------------------------------

/// How a seam is walked.
#[derive(Clone, Copy, Debug, PartialEq, Eq, Structural)]
pub enum SeamMode {
    /// There and back.
    RoundTrip,
    /// There.
    OneWay,
    /// There, and a few steps on the other side.
    Handoff,
}

/// How a word says that a seam is walked.
pub open spec fn seam_mode(word: Option<Seq<char>>) -> SeamMode {
    match word {
        Some(w) => if w == "expect-handoff"@ {
            SeamMode::Handoff
        } else if w == "oneway"@ {
            SeamMode::OneWay
        } else {
            SeamMode::RoundTrip
        },
        None => SeamMode::RoundTrip,
    }
}

/// How a word says that a seam is walked.
pub fn seam_mode_of(word: &Option<String>) -> (m: SeamMode)
    ensures
        m == seam_mode(text::text_of(*word)),
{
    match word {
        Some(w) => if text::same_text(w.as_str(), "expect-handoff") {
            SeamMode::Handoff
        } else if text::same_text(w.as_str(), "oneway") {
            SeamMode::OneWay
        } else {
            SeamMode::RoundTrip
        },
        None => SeamMode::RoundTrip,
    }
}

/// A part of a walk, between the near end, the far end and a place a little further.
#[derive(Clone, Copy, Debug, PartialEq, Eq, Structural)]
pub enum Leg {
    There,
    Back,
    Further,
    Return,
}

/// The parts of a walk.
pub open spec fn legs(m: SeamMode) -> Seq<Leg> {
    match m {
        SeamMode::RoundTrip => seq![Leg::There, Leg::Back],
        SeamMode::OneWay => seq![Leg::There],
        SeamMode::Handoff => seq![Leg::There, Leg::Further, Leg::Return],
    }
}

/// The parts of a walk.
pub fn legs_of(m: SeamMode) -> (v: Vec<Leg>)
    ensures
        v@ == legs(m),
{
    let mut v: Vec<Leg> = Vec::new();
    v.push(Leg::There);
    match m {
        SeamMode::RoundTrip => {
            v.push(Leg::Back);
        },
        SeamMode::OneWay => {},
        SeamMode::Handoff => {
            v.push(Leg::Further);
            v.push(Leg::Return);
        },
    }
    assert(v@ =~= legs(m));
    v
}

/// What was read while walking.
#[derive(Clone, Copy, Debug, PartialEq, Eq, Structural)]
pub enum SeamRead {
    /// A transfer is announced.
    Pending,
    /// Another world is entered.
    NewWorld,
    /// Anything else.
    Other,
}

/// What a walk across a seam brought.
pub struct SeamWalk {
    pub transfers: Vec<SeamRead>,
    pub drained: u32,
}

/// Why a walk across a seam fails.
#[derive(Clone, Copy, Debug, PartialEq, Eq, Structural)]
pub enum SeamFault {
    /// Both ends lie in one cell: there is no seam between them.
    NoSeam,
    /// A transfer was seen on the wire.
    Transferred,
}

impl View for SeamWalk {
    type V = (Seq<SeamRead>, u32);

    open spec fn view(&self) -> (Seq<SeamRead>, u32) {
        (self.transfers@, self.drained)
    }
}

/// What a walk brought once something more is read.
pub open spec fn walked(w: (Seq<SeamRead>, u32), r: SeamRead) -> (Seq<SeamRead>, u32) {
    match r {
        SeamRead::Other => (
            w.0,
            if w.1 < u32::MAX {
                (w.1 + 1) as u32
            } else {
                w.1
            },
        ),
        _ => (w.0.push(r), w.1),
    }
}

/// What a walk brought after all that was read.
pub open spec fn walk_of(reads: Seq<SeamRead>) -> (Seq<SeamRead>, u32)
    decreases reads.len(),
{
    if reads.len() == 0 {
        (Seq::empty(), 0)
    } else {
        walked(walk_of(reads.drop_last()), reads.last())
    }
}

/// Why a walk between two cells fails, if it does.
pub open spec fn seam_fault(
    w: (Seq<SeamRead>, u32),
    from: (i32, i32),
    to: (i32, i32),
) -> Option<SeamFault> {
    if from == to {
        Some(SeamFault::NoSeam)
    } else if w.0.len() > 0 {
        Some(SeamFault::Transferred)
    } else {
        None
    }
}

impl SeamWalk {
    /// A walk that begins.
    pub fn new() -> (w: SeamWalk)
        ensures
            w@ == (Seq::<SeamRead>::empty(), 0u32),
    {
        let w = SeamWalk { transfers: Vec::new(), drained: 0 };
        assert(w.transfers@ =~= Seq::<SeamRead>::empty());
        w
    }

    /// Notes what is read.
    pub fn read(&mut self, r: SeamRead)
        ensures
            final(self)@ == walked(old(self)@, r),
    {
        match r {
            SeamRead::Other => {
                if self.drained < u32::MAX {
                    self.drained = self.drained + 1;
                }
            },
            _ => {
                self.transfers.push(r);
            },
        }
    }

    /// Concludes a walk between two cells: nothing on the wire may tell of a transfer, handed over
    /// or not.
    pub fn verdict(&self, from: (i32, i32), to: (i32, i32)) -> (f: Option<SeamFault>)
        ensures
            f == seam_fault(self@, from, to),
    {
        if from.0 == to.0 && from.1 == to.1 {
            Some(SeamFault::NoSeam)
        } else if self.transfers.len() > 0 {
            Some(SeamFault::Transferred)
        } else {
            None
        }
    }
}

/// A walk across a seam passes exactly where its ends lie in two cells and nothing that was read told
/// of a transfer; every transfer is kept, and everything else is counted.
pub proof fn a_walk_across_a_seam_is_quiet(reads: Seq<SeamRead>, from: (i32, i32), to: (i32, i32))
    requires
        reads.len() < u32::MAX,
    ensures
        seam_fault(walk_of(reads), from, to) is None <==> (from.0 != to.0 || from.1 != to.1) && forall|
            i: int,
        |
            0 <= i < reads.len() ==> #[trigger] reads[i] == SeamRead::Other,
        walk_of(reads).0 == reads.filter(|r: SeamRead| r != SeamRead::Other),
        walk_of(reads).0.len() + walk_of(reads).1 == reads.len(),
    decreases reads.len(),
{
    reveal(Seq::filter);
    if reads.len() > 0 {
        let rest = reads.drop_last();
        a_walk_across_a_seam_is_quiet(rest, from, to);
        a_walk_across_a_seam_is_quiet(rest, (0, 0), (0, 1));
        assert(forall|i: int| 0 <= i < rest.len() ==> rest[i] == reads[i]);
        assert(reads[reads.len() - 1] == reads.last());
    }
}

/// The words of a command are read back: what is awaited, of the peer or of another who is named.
pub proof fn a_command_says_what_to_await(sight: Sight, peer: u64, other: u64)
    ensures
        ({
            let word = match sight {
                Sight::Seen => "expect-seen"@,
                Sight::Created => "expect-create"@,
                Sight::Moved => "expect-move"@,
                Sight::Destroyed => "expect-destroy"@,
            };
            &&& order(word, peer) == (OrderView::Expect { sight, peer: peer as nat, word })
            &&& order(word + " "@ + number::decimal(other as nat), peer) == (OrderView::Expect {
                sight,
                peer: other as nat,
                word,
            })
        }),
        order("done"@, peer) == OrderView::Done,
{
    reveal_strlit("expect-seen");
    reveal_strlit("expect-create");
    reveal_strlit("expect-move");
    reveal_strlit("expect-destroy");
    reveal_strlit("done");
    reveal_strlit("walk ");
    reveal_strlit(" ");
    let word = match sight {
        Sight::Seen => "expect-seen"@,
        Sight::Created => "expect-create"@,
        Sight::Moved => "expect-move"@,
        Sight::Destroyed => "expect-destroy"@,
    };
    assert(word[0] == 'e' && word.len() > 10);
    assert("done"@[0] == 'd');
    assert("walk "@[0] == 'w');
    assert("expect-seen"@[7] == 's' && "expect-create"@[7] == 'c' && "expect-move"@[7] == 'm'
        && "expect-destroy"@[7] == 'd');
    assert(sight_of(word) == Some(sight));
    assert forall|i: int| 0 <= i < word.len() implies word[i] != ' ' by {}
    assert(!text::begins_with(word, "walk "@)) by {
        if text::begins_with(word, "walk "@) {
            assert(word.subrange(0, 5)[0] == "walk "@[0]);
        }
    }
    text::lemma_first_found(word, " "@, 0);
    assert(text::cut(word, " "@) is None) by {
        if let Some(i) = text::first_at(word, " "@, 0) {
            assert(word.subrange(i, i + 1)[0] == ' ');
        }
    }
    let n = number::decimal(other as nat);
    let cmd = word + " "@ + n;
    let at = word.len() as int;
    assert(cmd.subrange(at, at + 1) =~= " "@);
    assert(text::occurs_at(cmd, " "@, at));
    assert forall|k: int| 0 <= k < at implies !#[trigger] text::occurs_at(cmd, " "@, k) by {
        if text::occurs_at(cmd, " "@, k) {
            assert(cmd.subrange(k, k + 1)[0] == ' ');
            assert(cmd[k] == word[k]);
        }
    }
    text::a_cut_is_made_at_the_first_place(cmd, " "@, at);
    assert(cmd.take(at) =~= word);
    assert(cmd.skip(at + 1) =~= n);
    assert(cmd[0] == 'e');
    assert(!text::begins_with(cmd, "walk "@)) by {
        if text::begins_with(cmd, "walk "@) {
            assert(cmd.subrange(0, 5)[0] == "walk "@[0]);
        }
    }
    number::decimal_reads_back(other as nat);
    number::a_written_number_reads_back(other as nat, u64::MAX as nat);
    assert(number::is_digit(n[0]) && number::is_digit(n[n.len() - 1]));
    assert(text::trim_left(n) == n);
    assert(text::trim_right(n) == n);
}

/// A watch for someone who may have been seen is settled at once where that one was; any other begins
/// open. It waits half a minute and no longer.
pub proof fn a_watch_lasts_half_a_minute(sight: Sight, peer: u64, seen: Seq<u64>, now: u64, later: u64)
    requires
        now + 30_000 <= u64::MAX,
    ensures
        ({
            let w = Watch::begun(sight, peer, seen, now);
            &&& w.settled is Some <==> sight == Sight::Seen && seen.contains(peer)
            &&& w.settled is Some ==> w.settled == Some(true)
            &&& w.settled is None ==> (w.after(NoticeView::Tick(later)).settled == Some(false) <==> later
                >= now + 30_000)
            &&& w.settled is None && later < now + 30_000 ==> w.after(NoticeView::Tick(later)) == w
            &&& w.settled is None ==> w.after(NoticeView::Unsafe).settled == if sight == Sight::Seen
                || sight == Sight::Created {
                Some(false)
            } else {
                None
            }
        }),
{
}

/// A watch is satisfied by what it is for, and by nothing else: an appearance by a created object of
/// the peer, a movement by a relayed one of the peer, a disappearance by its own frame.
pub proof fn a_watch_is_satisfied_by_its_own(
    w: Watch,
    objects: Seq<Created>,
    opcode: u16,
    payload: Seq<u8>,
)
    requires
        w.settled is None,
    ensures
        w.after(NoticeView::Created(objects)).settled == Some(true) <==> (w.sight == Sight::Seen
            || w.sight == Sight::Created) && exists|i: int|
            0 <= i < objects.len() && (#[trigger] objects[i]).guid == w.peer,
        w.after(NoticeView::Frame(opcode, payload)).settled == Some(true) <==> (w.sight == Sight::Moved
            && wire::moved_by(opcode, payload) == Some(w.peer as nat)) || (w.sight == Sight::Destroyed
            && wire::gone(opcode, payload) == Some(w.peer as nat)),
        w.after(NoticeView::Frame(opcode, payload)).settled != Some(false),
        w.after(NoticeView::Created(objects)).settled != Some(false),
{
}

/// An answer begins with the word for success or failure and ends with the command's own; the two differ.
pub proof fn an_answer_names_its_command(word: Seq<char>)
    ensures
        answer(true, word) == seq!['O', 'K', ' '] + word,
        answer(false, word) == seq!['F', 'A', 'I', 'L', ' '] + word,
{
    reveal_strlit("OK ");
    reveal_strlit("FAIL ");
    assert("OK "@ =~= seq!['O', 'K', ' ']);
    assert("FAIL "@ =~= seq!['F', 'A', 'I', 'L', ' ']);
}

/// A mover leaves on one word, steps on another that is followed by the words of a place, and ignores
/// anything else.
pub proof fn a_mover_leaves_or_steps(rest: Seq<char>, other: Seq<char>)
    requires
        rest.len() > 0 && !text::white(rest.last()),
    ensures
        mover_told("exit"@) == MoverOrderView::Exit,
        mover_told("burst "@ + rest) == MoverOrderView::Burst(text::words(rest)),
        mover_told(other) == MoverOrderView::Ignore <==> text::trimmed(other) != "exit"@
            && !text::begins_with(text::trimmed(other), "burst "@),
{
    reveal_strlit("exit");
    reveal_strlit("burst ");
    let cmd = "burst "@ + rest;
    assert(cmd[0] == 'b');
    assert(cmd.last() == rest.last());
    assert(text::trim_left(cmd) == cmd);
    assert(text::trim_right(cmd) == cmd);
    assert(cmd.subrange(0, 6) =~= "burst "@);
    assert(cmd.skip(6) =~= rest);
    assert(cmd != "exit"@) by {
        assert("exit"@[0] == 'e');
    }
    let e = "exit"@;
    assert(text::trim_left(e) == e);
    assert(text::trim_right(e) == e);
}

/// Every walk goes there first; a round trip ends where it began, a handoff goes on and comes back to
/// the far end.
pub proof fn a_walk_goes_there_first(m: SeamMode)
    ensures
        legs(m).len() > 0 && legs(m)[0] == Leg::There,
        legs(m).contains(Leg::Back) <==> m == SeamMode::RoundTrip,
        legs(m).contains(Leg::Further) <==> m == SeamMode::Handoff,
        m == SeamMode::Handoff ==> legs(m) == seq![Leg::There, Leg::Further, Leg::Return],
        legs(m).len() == 1 <==> m == SeamMode::OneWay,
{
    let v = legs(m);
    if m == SeamMode::RoundTrip {
        assert(v[1] == Leg::Back);
    }
    if m == SeamMode::Handoff {
        assert(v[1] == Leg::Further);
    }
}

/// A word says how a seam is walked; any other, or none, means there and back.
pub proof fn a_seam_is_walked_as_its_word_says(w: Seq<char>)
    ensures
        w == "expect-handoff"@ <==> seam_mode(Some(w)) == SeamMode::Handoff,
        w == "oneway"@ <==> seam_mode(Some(w)) == SeamMode::OneWay,
        seam_mode(None) == SeamMode::RoundTrip,
{
    reveal_strlit("expect-handoff");
    reveal_strlit("oneway");
    assert("expect-handoff"@.len() == 14 && "oneway"@.len() == 6);
}

} // verus!
