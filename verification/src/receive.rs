//! What a failed read means for a session: a pause, the end, or a frame to pass over.

use vstd::prelude::*;
use crate::frame::UnsafeServerFrame;
use crate::text;

verus! {

/// How many frames in a row may fail to decode before the stream counts as out of step.
pub const MAX_SKIPS: u32 = 64;

/// How many messages a search for one looks at.
pub const SEARCH_LIMIT: u32 = 256;

/// Why a message could not be received.
pub enum WireError {
    /// A frame was refused, or its decoder panicked.
    Unsafe(UnsafeServerFrame),
    /// Anything else, in words.
    Other(String),
}

impl WireError {
    /// It is the read timeout of a socket.
    pub open spec fn timed_out(self) -> bool {
        text::has_text(self.words(), "socket read timeout"@)
    }

    /// The error in words.
    pub open spec fn words(self) -> Seq<char> {
        match self {
            WireError::Unsafe(fault) => fault@.words(),
            WireError::Other(said) => said@,
        }
    }

    /// The error in words.
    pub fn message(&self) -> (s: String)
        ensures
            s@ == self.words(),
    {
        match self {
            WireError::Unsafe(fault) => fault.message(),
            WireError::Other(said) => said.clone(),
        }
    }
}

/// Whether an error is the read timeout of a socket: nothing arrived, and the stream is sound.
pub fn is_read_timeout(e: &WireError) -> (yes: bool)
    ensures
        yes == e.timed_out(),
{
    let said: String = e.message();
    text::contains(said.as_str(), "socket read timeout")
}

/// Whether an error is a refused frame or a decoder's panic, which ends its session alone.
pub fn is_unsafe_server_frame(e: &WireError) -> (yes: bool)
    ensures
        yes == (*e is Unsafe),
{
    match e {
        WireError::Unsafe(_) => true,
        WireError::Other(_) => false,
    }
}

/// A text in lower case, by the Unicode rules.
pub uninterp spec fn lowercase(s: Seq<char>) -> Seq<char>;

/// Calls `str::to_lowercase`, whose result depends on the text alone.
#[verifier::external_body]
fn to_lowercase(s: &str) -> (r: String)
    ensures
        r@ == lowercase(s@),
{
    s.to_lowercase()
}

/// What an error says in lower case when a read timed out.
pub open spec fn says_timeout(lowered: Seq<char>) -> bool {
    text::has_text(lowered, "timed out"@) || text::has_text(lowered, "would block"@)
        || text::has_text(lowered, "temporarily unavailable"@)
}

/// What an error says in lower case when the other side hung up.
pub open spec fn says_closed(lowered: Seq<char>) -> bool {
    text::has_text(lowered, "connection closed"@)
}

/// What to do about a failed read.
pub enum Recovery {
    /// Read the next frame.
    Skip,
    /// Give up with that error; `dump` writes the session's diagnostic, `shutdown` closes the
    /// connection.
    Stop { error: WireError, dump: bool, shutdown: bool },
}

/// What is to be done about a failed read, after `skipped` frames that did not decode.
pub open spec fn recovery(skipped: nat, e: WireError, lowered: Seq<char>, r: Recovery) -> bool {
    match e {
        WireError::Unsafe(fault) => {
            r matches Recovery::Stop { error: WireError::Unsafe(same), dump, shutdown }
                && same@ == fault@ && dump && shutdown
        },
        WireError::Other(said) => if says_timeout(lowered) {
            r matches Recovery::Stop { error: WireError::Other(t), dump, shutdown }
                && t@ == "recv: socket read timeout: "@ + said@ && !dump && !shutdown
        } else if says_closed(lowered) {
            r matches Recovery::Stop { error: WireError::Other(t), dump, shutdown }
                && t@ == "recv: connection closed: "@ + said@ && !dump && !shutdown
        } else if skipped >= MAX_SKIPS {
            r matches Recovery::Stop { error: WireError::Other(t), dump, shutdown }
                && t@ == "recv: stream desync/closed after 64 skips: "@ + said@ && dump
                && !shutdown
        } else {
            r is Skip
        },
    }
}

/// Decides about a failed read from what its error says in lower case.
pub fn decide(skipped: u32, e: WireError, lowered: &str) -> (r: Recovery)
    ensures
        recovery(skipped as nat, e, lowered@, r),
{
    match e {
        WireError::Unsafe(fault) => Recovery::Stop {
            error: WireError::Unsafe(fault),
            dump: true,
            shutdown: true,
        },
        WireError::Other(said) => {
            if text::contains(lowered, "timed out") || text::contains(lowered, "would block")
                || text::contains(lowered, "temporarily unavailable") {
                let mut t: String = "recv: socket read timeout: ".to_owned();
                t.append(said.as_str());
                return Recovery::Stop { error: WireError::Other(t), dump: false, shutdown: false };
            }
            if text::contains(lowered, "connection closed") {
                let mut t: String = "recv: connection closed: ".to_owned();
                t.append(said.as_str());
                return Recovery::Stop { error: WireError::Other(t), dump: false, shutdown: false };
            }
            if skipped >= MAX_SKIPS {
                let mut t: String = "recv: stream desync/closed after 64 skips: ".to_owned();
                t.append(said.as_str());
                return Recovery::Stop { error: WireError::Other(t), dump: true, shutdown: false };
            }
            Recovery::Skip
        },
    }
}

/// The search for the next message that decodes, with the frames passed over so far.
pub struct Receiving {
    pub skipped: u32,
}

impl Receiving {
    pub fn new() -> (r: Receiving)
        ensures
            r.skipped == 0,
    {
        Receiving { skipped: 0 }
    }

    /// Takes a failed read in.
    pub fn failed(&mut self, e: WireError) -> (r: Recovery)
        requires
            old(self).skipped <= MAX_SKIPS,
        ensures
            recovery(old(self).skipped as nat, e, lowercase(e.words()), r),
            final(self).skipped == if r is Skip {
                old(self).skipped + 1
            } else {
                old(self).skipped as int
            },
            final(self).skipped <= MAX_SKIPS,
    {
        let said: String = e.message();
        let lowered: String = to_lowercase(said.as_str());
        let r = decide(self.skipped, e, lowered.as_str());
        if let Recovery::Skip = r {
            self.skipped = self.skipped + 1;
        }
        r
    }
}

/// A search never passes over more frames than the limit: at the limit the next failure ends it,
/// whatever it is.
pub proof fn a_search_ends(e: WireError, lowered: Seq<char>, r: Recovery)
    requires
        recovery(MAX_SKIPS as nat, e, lowered, r),
    ensures
        r is Stop,
{
}

/// A connection that was closed ends the session at once, every time, and is never taken for a
/// stream out of step: no diagnostic is written and no frame is blamed.
pub proof fn a_closed_connection_is_not_evidence(
    skipped: nat,
    said: String,
    lowered: Seq<char>,
    r: Recovery,
)
    requires
        says_closed(lowered),
        recovery(skipped, WireError::Other(said), lowered, r),
    ensures
        r matches Recovery::Stop { error, dump, shutdown } && error is Other && !dump && !shutdown,
{
}

/// A socket's read timeout is passed on as one, and callers recognise it.
pub proof fn a_timeout_is_told_apart(skipped: nat, said: String, lowered: Seq<char>, r: Recovery)
    requires
        says_timeout(lowered),
        recovery(skipped, WireError::Other(said), lowered, r),
    ensures
        r matches Recovery::Stop { error, dump, .. } && !dump && text::has_text(
            error.words(),
            "socket read timeout"@,
        ),
{
    let words = "recv: socket read timeout: "@ + said@;
    reveal_strlit("recv: socket read timeout: ");
    reveal_strlit("socket read timeout");
    assert(words.subrange(6, 25) =~= "socket read timeout"@);
    assert(text::occurs_at(words, "socket read timeout"@, 6));
}

/// Sixty-four frames that do not decode are passed over, and no more; a frame that is refused, a timeout and
/// a closed connection end the search at once. Only a refused frame closes the connection, and only it
/// and a search that ran out write a diagnostic.
pub proof fn frames_are_passed_over_up_to_a_limit(
    skipped: nat,
    said: String,
    lowered: Seq<char>,
    r: Recovery,
)
    requires
        recovery(skipped, WireError::Other(said), lowered, r),
    ensures
        r is Skip <==> skipped < 64 && !text::has_text(lowered, "timed out"@) && !text::has_text(
            lowered,
            "would block"@,
        ) && !text::has_text(lowered, "temporarily unavailable"@) && !text::has_text(
            lowered,
            "connection closed"@,
        ),
        r matches Recovery::Stop { error, dump, shutdown } ==> !shutdown && error is Other && (dump
            <==> skipped >= 64 && !says_timeout(lowered) && !says_closed(lowered)),
{
}

/// A refused frame ends its session with the fault itself, a diagnostic and a closed connection.
pub proof fn a_refused_frame_ends_its_session(
    skipped: nat,
    e: WireError,
    lowered: Seq<char>,
    r: Recovery,
)
    requires
        e is Unsafe,
        recovery(skipped, e, lowered, r),
    ensures
        r matches Recovery::Stop { error, dump, shutdown } && dump && shutdown && error is Unsafe
            && error.words() == e.words(),
{
}

/// What a read timeout is turned into is told as one, whatever the words of the socket were.
pub proof fn a_timeout_is_recognised(skipped: nat, said: String, lowered: Seq<char>, r: Recovery)
    requires
        recovery(skipped, WireError::Other(said), lowered, r),
        says_timeout(lowered),
    ensures
        r matches Recovery::Stop { error, .. } && error.timed_out(),
{
    reveal_strlit("recv: socket read timeout: ");
    reveal_strlit("socket read timeout");
    let w = "recv: socket read timeout: "@ + said@;
    assert(w.subrange(6, 25) =~= "socket read timeout"@);
    assert(text::occurs_at(w, "socket read timeout"@, 6));
}

} // verus!
