//! The first TCP server's connection handling, as a state machine: every
//! non-empty read is answered `Recieved` and flushed; a read of nothing ends
//! the connection, reporting how many messages were answered. Failed reads,
//! writes and flushes are reported and the server goes back to reading.
use vstd::prelude::*;
use crate::session::{Event, EventView};

verus! {

/// Size of the buffer each message is read into.
pub const ECHO_BUFFER_LEN: usize = 1024;

/// `Recieved`, the answer to every message.
pub open spec fn echo_reply() -> Seq<u8> {
    seq![82u8, 101, 99, 105, 101, 118, 101, 100]
}

/// Where the connection stands.
#[derive(Clone, Copy, Debug, PartialEq, Eq)]
pub enum EchoPhase {
    Reading,
    Replying,
    Flushing,
    Ended,
}

/// What to do next.
#[derive(Debug, PartialEq, Eq)]
pub enum EchoAction {
    /// Read into a buffer of this size.
    Read(usize),
    /// Write these bytes.
    Write(Vec<u8>),
    /// Flush the connection.
    Flush,
    /// The client closed the connection after this many answered messages.
    Close(i32),
}

/// The mathematical counterpart of [`EchoAction`].
pub enum EchoActionView {
    Read(usize),
    Write(Seq<u8>),
    Flush,
    Close(i32),
}

impl View for EchoAction {
    type V = EchoActionView;

    open spec fn view(&self) -> EchoActionView {
        match self {
            EchoAction::Read(n) => EchoActionView::Read(*n),
            EchoAction::Write(b) => EchoActionView::Write(b@),
            EchoAction::Flush => EchoActionView::Flush,
            EchoAction::Close(n) => EchoActionView::Close(*n),
        }
    }
}

/// The next phase, message count and action after event `e`. A read event
/// carries the bytes read.
pub open spec fn echo_step_spec(p: EchoPhase, count: i32, e: EventView) -> (EchoPhase, i32, EchoActionView) {
    match p {
        EchoPhase::Reading => match e {
            EventView::Received(b) => if b.len() == 0 {
                (EchoPhase::Ended, count, EchoActionView::Close(count))
            } else {
                (EchoPhase::Replying, count, EchoActionView::Write(echo_reply()))
            },
            _ => (EchoPhase::Reading, count, EchoActionView::Read(ECHO_BUFFER_LEN)),
        },
        EchoPhase::Replying => match e {
            EventView::Done => (EchoPhase::Flushing, count, EchoActionView::Flush),
            _ => (EchoPhase::Reading, count, EchoActionView::Read(ECHO_BUFFER_LEN)),
        },
        EchoPhase::Flushing => match e {
            EventView::Done => (EchoPhase::Reading, (count + 1) as i32, EchoActionView::Read(ECHO_BUFFER_LEN)),
            _ => (EchoPhase::Reading, count, EchoActionView::Read(ECHO_BUFFER_LEN)),
        },
        EchoPhase::Ended => (EchoPhase::Ended, count, EchoActionView::Close(count)),
    }
}

/// One connection to the first TCP server.
pub struct EchoSession {
    phase: EchoPhase,
    count: i32,
}

impl EchoSession {
    pub closed spec fn phase(&self) -> EchoPhase {
        self.phase
    }

    /// The number of messages answered so far.
    pub closed spec fn count(&self) -> i32 {
        self.count
    }

    /// A new connection, and its first action: a read.
    pub fn new() -> (r: (EchoSession, EchoAction))
        ensures
            r.0.phase() == EchoPhase::Reading,
            r.0.count() == 0,
            r.1@ == EchoActionView::Read(ECHO_BUFFER_LEN),
    {
        (EchoSession { phase: EchoPhase::Reading, count: 0 }, EchoAction::Read(ECHO_BUFFER_LEN))
    }

    /// The number of messages answered so far.
    pub fn messages(&self) -> (r: i32)
        ensures
            r == self.count(),
    {
        self.count
    }

    /// Handles the outcome of the last action and says what to do next. The
    /// count is an `i32` as in the server, which cannot go past `i32::MAX`.
    pub fn step(&mut self, e: Event) -> (a: EchoAction)
        requires
            old(self).phase() == EchoPhase::Flushing && e@ == EventView::Done ==> old(self).count()
                < i32::MAX,
        ensures
            (final(self).phase(), final(self).count(), a@) == echo_step_spec(
                old(self).phase(),
                old(self).count(),
                e@,
            ),
    {
        match self.phase {
            EchoPhase::Reading => match e {
                Event::Received(b) => if b.len() == 0 {
                    self.phase = EchoPhase::Ended;
                    EchoAction::Close(self.count)
                } else {
                    self.phase = EchoPhase::Replying;
                    let r = vec![82u8, 101, 99, 105, 101, 118, 101, 100];
                    proof {
                        assert(r@ =~= echo_reply());
                    }
                    EchoAction::Write(r)
                },
                _ => EchoAction::Read(ECHO_BUFFER_LEN),
            },
            EchoPhase::Replying => match e {
                Event::Done => {
                    self.phase = EchoPhase::Flushing;
                    EchoAction::Flush
                },
                _ => {
                    self.phase = EchoPhase::Reading;
                    EchoAction::Read(ECHO_BUFFER_LEN)
                },
            },
            EchoPhase::Flushing => {
                match e {
                    Event::Done => {
                        self.count = self.count + 1;
                    },
                    _ => {},
                }
                self.phase = EchoPhase::Reading;
                EchoAction::Read(ECHO_BUFFER_LEN)
            },
            EchoPhase::Ended => EchoAction::Close(self.count),
        }
    }
}

/// The phase, count and actions after a sequence of events from the start.
pub open spec fn echo_run(evs: Seq<EventView>) -> (EchoPhase, i32, Seq<EchoActionView>)
    decreases evs.len(),
{
    if evs.len() == 0 {
        (EchoPhase::Reading, 0, seq![])
    } else {
        let prev = echo_run(evs.drop_last());
        let next = echo_step_spec(prev.0, prev.1, evs.last());
        (next.0, next.1, prev.2.push(next.2))
    }
}

/// The number of answers that were both written and flushed.
pub open spec fn answered(evs: Seq<EventView>) -> nat
    decreases evs.len(),
{
    if evs.len() == 0 {
        0
    } else {
        answered(evs.drop_last()) + if echo_run(evs.drop_last()).0 == EchoPhase::Flushing
            && evs.last() == EventView::Done {
            1nat
        } else {
            0nat
        }
    }
}

/// The count the server reports is the number of messages whose answer was
/// written and flushed; failed writes and flushes are not counted.
pub proof fn law_echo_counts_answers(evs: Seq<EventView>)
    requires
        answered(evs) <= i32::MAX,
    ensures
        echo_run(evs).1 == answered(evs),
    decreases evs.len(),
{
    if evs.len() > 0 {
        law_echo_counts_answers(evs.drop_last());
    }
}

/// Every non-empty read is answered `Recieved`, whatever its bytes, and the
/// count is left as it is until the answer is flushed.
pub proof fn law_every_message_answered(count: i32, b: Seq<u8>)
    requires
        b.len() > 0,
    ensures
        echo_step_spec(EchoPhase::Reading, count, EventView::Received(b)) == (
            EchoPhase::Replying,
            count,
            EchoActionView::Write(seq![82u8, 101, 99, 105, 101, 118, 101, 100]),
        ),
{
    assert(echo_reply() =~= seq![82u8, 101, 99, 105, 101, 118, 101, 100]);
}

/// The connection ends only on a read of nothing: a `Close` comes from a read of
/// zero bytes, or once the connection has ended.
pub proof fn law_close_only_on_empty_read(p: EchoPhase, count: i32, e: EventView)
    ensures
        echo_step_spec(p, count, e).2 is Close ==> (p == EchoPhase::Ended || (p
            == EchoPhase::Reading && e == EventView::Received(Seq::<u8>::empty()))),
        p != EchoPhase::Ended && echo_step_spec(p, count, e).0 == EchoPhase::Ended ==> (p
            == EchoPhase::Reading && e == EventView::Received(Seq::<u8>::empty())),
{
    if let EventView::Received(b) = e {
        if b.len() == 0 {
            assert(b =~= Seq::<u8>::empty());
        }
    }
}

} // verus!
