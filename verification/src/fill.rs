//! Filling a buffer from a stream whose reads may bring little, break off or fail: whatever was
//! delivered is kept, so that a read which fails only pauses.

use vstd::prelude::*;

verus! {

/// What one read of a stream brings. No bytes at all mean that the stream is closed.
#[derive(Debug)]
pub enum Delivery {
    Bytes(Vec<u8>),
    /// The read fails, in these words.
    Failed(String),
}

/// What one read of a stream brings.
pub enum DeliveryView {
    Bytes(Seq<u8>),
    Failed(Seq<char>),
}

impl View for Delivery {
    type V = DeliveryView;

    open spec fn view(&self) -> DeliveryView {
        match *self {
            Delivery::Bytes(b) => DeliveryView::Bytes(b@),
            Delivery::Failed(said) => DeliveryView::Failed(said@),
        }
    }
}

impl DeliveryView {
    /// The bytes that it brings.
    pub open spec fn bytes(self) -> Seq<u8> {
        match self {
            DeliveryView::Bytes(b) => b,
            DeliveryView::Failed(_) => Seq::empty(),
        }
    }
}

/// Why a buffer is not filled.
#[derive(Debug)]
pub enum FillFault {
    /// The stream ended before the buffer was full.
    UnexpectedEof,
    /// A read failed, in these words.
    Failed(String),
}

/// Why a buffer is not filled.
pub enum FillFaultView {
    UnexpectedEof,
    Failed(Seq<char>),
}

impl View for FillFault {
    type V = FillFaultView;

    open spec fn view(&self) -> FillFaultView {
        match *self {
            FillFault::UnexpectedEof => FillFaultView::UnexpectedEof,
            FillFault::Failed(said) => FillFaultView::Failed(said@),
        }
    }
}

/// A fault in words, behind what was being filled.
pub open spec fn fault_words(what: Seq<char>, fault: FillFaultView) -> Seq<char> {
    what + ": "@ + match fault {
        FillFaultView::UnexpectedEof => "connection closed mid-frame"@,
        FillFaultView::Failed(said) => said,
    }
}

impl FillFault {
    /// The fault in words, behind what was being filled.
    pub fn message(&self, what: &str) -> (s: String)
        ensures
            s@ == fault_words(what@, self@),
    {
        let mut s: String = what.to_owned();
        s.append(": ");
        match self {
            FillFault::UnexpectedEof => s.append("connection closed mid-frame"),
            FillFault::Failed(said) => s.append(said.as_str()),
        }
        s
    }
}

/// How a read ends the filling, if it does.
pub open spec fn broken(read: DeliveryView) -> Option<FillFaultView> {
    match read {
        DeliveryView::Bytes(b) => if b.len() == 0 {
            Some(FillFaultView::UnexpectedEof)
        } else {
            None
        },
        DeliveryView::Failed(said) => Some(FillFaultView::Failed(said)),
    }
}

/// A fault, if there is one.
pub open spec fn fault_of(f: Option<FillFault>) -> Option<FillFaultView> {
    match f {
        Some(f) => Some(f@),
        None => None,
    }
}

/// Takes one read into a buffer that is not full yet. What it brings is appended, whatever the
/// read was; a fault says that no more came.
pub fn fill(acc: &mut Vec<u8>, target: usize, read: &Delivery) -> (f: Option<FillFault>)
    requires
        old(acc)@.len() < target,
        read@.bytes().len() <= target - old(acc)@.len(),
    ensures
        final(acc)@ == old(acc)@ + read@.bytes(),
        fault_of(f) == broken(read@),
        final(acc)@.len() <= target,
{
    match read {
        Delivery::Bytes(b) => {
            for i in 0..b.len()
                invariant
                    acc@ == old(acc)@ + b@.take(i as int),
            {
                acc.push(b[i]);
                assert(b@.take(i + 1) =~= b@.take(i as int).push(b@[i as int]));
            }
            assert(b@.take(b@.len() as int) =~= b@);
            if b.len() == 0 {
                Some(FillFault::UnexpectedEof)
            } else {
                None
            }
        },
        Delivery::Failed(said) => {
            assert(old(acc)@ + Seq::<u8>::empty() =~= old(acc)@);
            Some(FillFault::Failed(said.clone()))
        },
    }
}

// ------------------------------------------------------------------------------------------
//  A run of reads
// ------------------------------------------------------------------------------------------

/// Where a run of reads leaves a buffer.
pub struct FilledView {
    pub acc: Seq<u8>,
    /// How many of the reads were made.
    pub made: nat,
    /// `None` while the reads made so far have neither filled the buffer nor failed.
    pub end: Option<Result<(), FillFaultView>>,
}

/// A buffer that is read into until it holds as much as it should, or a read ends it.
pub open spec fn filled(acc: Seq<u8>, target: nat, reads: Seq<DeliveryView>) -> FilledView
    decreases reads.len(),
{
    if acc.len() >= target {
        FilledView { acc, made: 0, end: Some(Ok(())) }
    } else if reads.len() == 0 {
        FilledView { acc, made: 0, end: None }
    } else {
        let now = acc + reads[0].bytes();
        match broken(reads[0]) {
            Some(fault) => FilledView { acc: now, made: 1, end: Some(Err(fault)) },
            None => {
                let rest = filled(now, target, reads.skip(1));
                FilledView { made: rest.made + 1, ..rest }
            },
        }
    }
}

/// The bytes that reads deliver, one after the other.
pub open spec fn delivered(reads: Seq<DeliveryView>) -> Seq<u8>
    decreases reads.len(),
{
    if reads.len() == 0 {
        Seq::empty()
    } else {
        reads[0].bytes() + delivered(reads.skip(1))
    }
}

/// No read brings more than it is asked for: what the buffer still lacks.
pub open spec fn within(lacking: int, reads: Seq<DeliveryView>) -> bool
    decreases reads.len(),
{
    reads.len() > 0 && lacking > 0 ==> reads[0].bytes().len() <= lacking && within(
        lacking - reads[0].bytes().len(),
        reads.skip(1),
    )
}

/// Whether it ends well or not, a buffer holds what it held and exactly the bytes that were
/// delivered. One that was full is left alone, without a read; one that gets full holds just as
/// much as it should. It ends badly only by its last read: where that brought nothing, the stream
/// has ended early, and where it failed, its own words are passed on.
pub proof fn a_fill_keeps_what_was_delivered(
    acc: Seq<u8>,
    target: nat,
    reads: Seq<DeliveryView>,
)
    requires
        within(target - acc.len(), reads),
    ensures
        ({
            let r = filled(acc, target, reads);
            &&& r.made <= reads.len()
            &&& r.acc == acc + delivered(reads.take(r.made as int))
            &&& acc.len() >= target ==> r == (FilledView { acc, made: 0, end: Some(Ok(())) })
            &&& acc.len() <= target ==> r.acc.len() <= target
            &&& acc.len() <= target && r.end == Some(Ok::<(), FillFaultView>(())) ==> r.acc.len()
                == target
            &&& (r.end matches Some(Err(fault)) ==> r.made > 0 && broken(reads[r.made - 1]) == Some(
                fault,
            ))
            &&& r.end is None ==> r.made == reads.len()
            &&& r.end != Some(Ok::<(), FillFaultView>(())) ==> r.acc.len() < target
            &&& forall|i: int|
                0 <= i < r.made - 1 ==> broken(#[trigger] reads[i]) is None
        }),
    decreases reads.len(),
{
    let r = filled(acc, target, reads);
    if acc.len() >= target || reads.len() == 0 {
        assert(reads.take(0) =~= Seq::<DeliveryView>::empty());
        assert(acc + Seq::<u8>::empty() =~= acc);
    } else {
        let now = acc + reads[0].bytes();
        let made = reads.take(r.made as int);
        if broken(reads[0]) is Some {
            assert(made.skip(1) =~= Seq::<DeliveryView>::empty());
            assert(reads[0].bytes() + Seq::<u8>::empty() =~= reads[0].bytes());
        } else {
            let more = reads.skip(1);
            a_fill_keeps_what_was_delivered(now, target, more);
            let rest = filled(now, target, more);
            assert(made.skip(1) =~= more.take(rest.made as int));
            assert(now + delivered(made.skip(1)) =~= acc + (reads[0].bytes() + delivered(
                made.skip(1),
            )));
            assert forall|i: int| 0 <= i < r.made - 1 implies broken(#[trigger] reads[i]) is None by {
                if i > 0 {
                    assert(more[i - 1] == reads[i]);
                }
            }
        }
    }
}

/// A buffer whose filling was broken off goes on where it stopped: reads that come later fill it
/// as if nothing had happened in between.
pub proof fn a_fill_is_taken_up_where_it_stopped(
    acc: Seq<u8>,
    target: nat,
    reads: Seq<DeliveryView>,
    later: Seq<DeliveryView>,
)
    requires
        within(target - acc.len(), reads),
        within(target - filled(acc, target, reads).acc.len(), later),
        filled(filled(acc, target, reads).acc, target, later).end == Some(Ok::<(), FillFaultView>(())),
    ensures
        ({
            let first = filled(acc, target, reads);
            let second = filled(first.acc, target, later);
            second.acc == acc + (delivered(reads.take(first.made as int)) + delivered(
                later.take(second.made as int),
            ))
        }),
{
    let first = filled(acc, target, reads);
    let second = filled(first.acc, target, later);
    a_fill_keeps_what_was_delivered(acc, target, reads);
    a_fill_keeps_what_was_delivered(first.acc, target, later);
    assert(second.acc =~= acc + (delivered(reads.take(first.made as int)) + delivered(
        later.take(second.made as int),
    )));
}

/// A read that brings something goes on; one that brings nothing is the end, and one that fails ends the
/// filling with what it said.
pub proof fn a_read_ends_the_filling_or_adds_to_it(b: Seq<u8>, said: Seq<char>)
    ensures
        broken(DeliveryView::Bytes(b)) is None <==> b.len() > 0,
        broken(DeliveryView::Bytes(Seq::empty())) == Some(FillFaultView::UnexpectedEof),
        broken(DeliveryView::Failed(said)) == Some(FillFaultView::Failed(said)),
{
}

} // verus!
