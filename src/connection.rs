//! One endpoint's side of the link: framing inbound bytes into lines, and
//! the connect / reconnect decisions, with exponential backoff.

use vstd::prelude::*;
use crate::message::{
    NEWLINE,
    MessageView,
    lacks,
    split_on,
    split_at,
    spec_decode,
    spec_encode,
    valid_message,
    lemma_decode_encode,
    lemma_split_on_first,
    lemma_split_on_last,
    strip_newline,
};

verus! {

/// Gathers inbound bytes and hands out whole lines.
pub struct LineFramer {
    pending: Vec<u8>,
}

/// The whole lines of `s`, without their newlines, and the bytes after the
/// last newline.
pub open spec fn frame(s: Seq<u8>) -> (Seq<Seq<u8>>, Seq<u8>) {
    let parts = split_on(s, NEWLINE);
    (parts.drop_last(), parts.last())
}

proof fn lemma_split_on_nonempty(s: Seq<u8>, d: u8)
    ensures
        split_on(s, d).len() > 0,
    decreases s.len(),
{
    let k = crate::message::first_index_of(s, d);
    if k < s.len() {
        lemma_split_on_nonempty(s.skip(k + 1 as int), d);
    }
}

impl LineFramer {
    pub closed spec fn spec_pending(&self) -> Seq<u8> {
        self.pending@
    }

    pub fn new() -> (r: LineFramer)
        ensures
            r.spec_pending() == Seq::<u8>::empty(),
    {
        LineFramer { pending: Vec::new() }
    }

    /// Takes in `bytes` and returns the lines that they complete, without
    /// their newlines; what follows the last newline waits for more.
    pub fn feed(&mut self, bytes: &[u8]) -> (r: Vec<Vec<u8>>)
        ensures
            r@.len() == frame(old(self).spec_pending() + bytes@).0.len(),
            forall|i: int|
                0 <= i < r@.len() ==> (#[trigger] r@[i])@ == frame(old(self).spec_pending() + bytes@).0[i],
            final(self).spec_pending() == frame(old(self).spec_pending() + bytes@).1,
    {
        let mut all: Vec<u8> = Vec::new();
        let mut i: usize = 0;
        while i < self.pending.len()
            invariant
                i <= self.pending@.len(),
                all@ =~= self.pending@.take(i as int),
            decreases self.pending.len() - i,
        {
            all.push(self.pending[i]);
            i = i + 1;
        }
        let mut j: usize = 0;
        while j < bytes.len()
            invariant
                i == self.pending@.len(),
                j <= bytes@.len(),
                all@ =~= self.pending@ + bytes@.take(j as int),
            decreases bytes.len() - j,
        {
            all.push(bytes[j]);
            j = j + 1;
        }
        let ghost whole = old(self).pending@ + bytes@;
        assert(all@ =~= whole);
        assert(all@.take(all.len() as int) =~= whole);
        let mut parts = split_at(all.as_slice(), all.len(), NEWLINE);
        let ghost before = parts@;
        proof {
            lemma_split_on_nonempty(whole, NEWLINE);
        }
        let rest = parts.pop().unwrap();
        self.pending = rest;
        proof {
            let ps = split_on(whole, NEWLINE);
            assert(rest@ == ps.last());
            assert forall|i: int| 0 <= i < parts@.len() implies (#[trigger] parts@[i])@ == frame(whole).0[i] by {
                assert(parts@[i] == before[i]);
            }
        }
        parts
    }
}

/// Lines, each followed by a newline.
pub open spec fn joined_lines(ls: Seq<Seq<u8>>) -> Seq<u8>
    decreases ls.len(),
{
    if ls.len() == 0 {
        Seq::empty()
    } else {
        ls[0] + seq![NEWLINE] + joined_lines(ls.drop_first())
    }
}

/// Framing a stream of lines gives back every line, whatever the others
/// hold: each line, malformed or not, is handed on by itself, so one that
/// fails to decode does not hold up those after it. (A line holds no
/// newline byte; that is what makes it a line.)
pub proof fn lemma_frame_lines(ls: Seq<Seq<u8>>)
    requires
        forall|i: int| 0 <= i < ls.len() ==> lacks(#[trigger] ls[i], NEWLINE),
    ensures
        frame(joined_lines(ls)).0 == ls,
        frame(joined_lines(ls)).1 == Seq::<u8>::empty(),
{
    lemma_split_on_lines(ls);
    let parts = split_on(joined_lines(ls), NEWLINE);
    assert(parts.drop_last() =~= ls);
}

proof fn lemma_split_on_lines(ls: Seq<Seq<u8>>)
    requires
        forall|i: int| 0 <= i < ls.len() ==> lacks(#[trigger] ls[i], NEWLINE),
    ensures
        split_on(joined_lines(ls), NEWLINE) == ls.push(Seq::<u8>::empty()),
    decreases ls.len(),
{
    if ls.len() == 0 {
        lemma_split_on_last(Seq::<u8>::empty(), NEWLINE);
        assert(ls.push(Seq::<u8>::empty()) =~= seq![Seq::<u8>::empty()]);
    } else {
        let rest = ls.drop_first();
        assert forall|i: int| 0 <= i < rest.len() implies lacks(#[trigger] rest[i], NEWLINE) by {
            assert(rest[i] == ls[i + 1]);
        }
        lemma_split_on_lines(rest);
        assert(lacks(ls[0], NEWLINE));
        lemma_split_on_first(ls[0], joined_lines(rest), NEWLINE);
        assert(seq![ls[0]] + rest.push(Seq::<u8>::empty()) =~= ls.push(Seq::<u8>::empty()));
    }
}

/// A line that fails to decode does not hold up the lines after it: behind
/// any newline-free line, the encoding of a valid message is framed on its
/// own and decodes to that message.
pub proof fn lemma_bad_line_then_good(bad: Seq<u8>, m: MessageView)
    requires
        lacks(bad, NEWLINE),
        valid_message(m),
    ensures
        frame(bad + seq![NEWLINE] + spec_encode(m)).0.len() == 2,
        frame(bad + seq![NEWLINE] + spec_encode(m)).0[0] == bad,
        spec_decode(frame(bad + seq![NEWLINE] + spec_encode(m)).0[1]) == Ok::<
            MessageView,
            crate::message::DecodeError,
        >(m),
        frame(bad + seq![NEWLINE] + spec_encode(m)).1 == Seq::<u8>::empty(),
{
    let e = spec_encode(m);
    let body = e.drop_last();
    crate::message::lemma_encode_shape(m);
    assert(e =~= body + seq![NEWLINE] + Seq::<u8>::empty());
    lemma_split_on_last(Seq::<u8>::empty(), NEWLINE);
    lemma_split_on_first(body, Seq::<u8>::empty(), NEWLINE);
    assert(bad + seq![NEWLINE] + e =~= bad + seq![NEWLINE] + (body + seq![NEWLINE] + Seq::<u8>::empty()));
    lemma_split_on_first(bad, e, NEWLINE);
    let parts = split_on(bad + seq![NEWLINE] + e, NEWLINE);
    assert(parts =~= seq![bad, body, Seq::<u8>::empty()]);
    assert(strip_newline(body) == body);
    assert(strip_newline(e) == body);
    lemma_decode_encode(m);
}

// ---- link state ----

#[derive(Clone, Copy, Debug, PartialEq, Eq, Structural)]
pub enum LinkState {
    Disconnected,
    Connecting,
    Connected,
}

/// What happened on the link.
#[derive(Clone, Copy, Debug, PartialEq, Eq, Structural)]
pub enum LinkEvent {
    /// Time to try (again) to open the transport.
    Retry,
    /// The transport opened.
    Opened,
    /// An I/O error, or a failed attempt to open.
    Failed,
    /// A request to close the link and open it anew.
    Reset,
}

/// What the endpoint's driver is to do next.
#[derive(Clone, Copy, Debug, PartialEq, Eq, Structural)]
pub enum LinkAction {
    /// Open the transport.
    Open,
    /// Close the transport, then open it.
    Reopen,
    /// Wait this many milliseconds, then retry.
    Wait(u64),
    /// Nothing.
    Idle,
}

/// The waits between attempts: `initial`, doubled after each failure up to `max`.
#[derive(Clone, Copy, Debug, PartialEq, Eq, Structural)]
pub struct Backoff {
    pub initial_ms: u64,
    pub max_ms: u64,
}

/// The wait after `failures` failed attempts in a row.
pub open spec fn backoff_delay(b: Backoff, failures: nat) -> u64
    decreases failures,
{
    if failures == 0 {
        if b.initial_ms <= b.max_ms {
            b.initial_ms
        } else {
            b.max_ms
        }
    } else {
        let d = backoff_delay(b, (failures - 1) as nat);
        if d as nat * 2 <= b.max_ms as nat {
            (d * 2) as u64
        } else {
            b.max_ms
        }
    }
}

proof fn lemma_backoff_le_max(b: Backoff, failures: nat)
    ensures
        backoff_delay(b, failures) <= b.max_ms,
    decreases failures,
{
    if failures > 0 {
        lemma_backoff_le_max(b, (failures - 1) as nat);
    }
}

impl Backoff {
    /// The wait after `failures` failed attempts in a row.
    pub fn delay(&self, failures: u32) -> (r: u64)
        ensures
            r == backoff_delay(*self, failures as nat),
    {
        let mut d: u64 = if self.initial_ms <= self.max_ms {
            self.initial_ms
        } else {
            self.max_ms
        };
        let mut k: u32 = 0;
        while k < failures
            invariant
                k <= failures,
                d == backoff_delay(*self, k as nat),
            decreases failures - k,
        {
            proof {
                lemma_backoff_le_max(*self, k as nat);
            }
            if d <= self.max_ms / 2 {
                d = d * 2;
            } else {
                d = self.max_ms;
            }
            k = k + 1;
        }
        d
    }
}

/// The state of one endpoint's link.
#[derive(Clone, Copy, Debug, PartialEq, Eq, Structural)]
pub struct Link {
    pub state: LinkState,
    /// Failed attempts since the link was last connected.
    pub failures: u32,
    pub backoff: Backoff,
}

/// The next link state and action after event `e`. Reconnecting never
/// gives up: every failure schedules another attempt.
pub open spec fn link_step(l: Link, e: LinkEvent) -> (Link, LinkAction) {
    match e {
        LinkEvent::Reset => (Link { state: LinkState::Connecting, ..l }, LinkAction::Reopen),
        LinkEvent::Retry => if l.state == LinkState::Disconnected {
            (Link { state: LinkState::Connecting, ..l }, LinkAction::Open)
        } else {
            (l, LinkAction::Idle)
        },
        LinkEvent::Opened => if l.state == LinkState::Connecting {
            (Link { state: LinkState::Connected, failures: 0, ..l }, LinkAction::Idle)
        } else {
            (l, LinkAction::Idle)
        },
        LinkEvent::Failed => {
            let failures = if l.state == LinkState::Connecting && l.failures < u32::MAX {
                (l.failures + 1) as u32
            } else if l.state == LinkState::Connecting {
                l.failures
            } else {
                0
            };
            (
                Link { state: LinkState::Disconnected, failures, ..l },
                LinkAction::Wait(backoff_delay(l.backoff, l.failures as nat)),
            )
        },
    }
}

impl Link {
    /// A link not yet connected.
    pub fn new(backoff: Backoff) -> (r: Link)
        ensures
            r == (Link { state: LinkState::Disconnected, failures: 0, backoff }),
    {
        Link { state: LinkState::Disconnected, failures: 0, backoff }
    }

    /// Moves the link on by event `e` and returns what to do.
    pub fn step(&mut self, e: LinkEvent) -> (r: LinkAction)
        ensures
            (*final(self), r) == link_step(*old(self), e),
    {
        match e {
            LinkEvent::Reset => {
                self.state = LinkState::Connecting;
                LinkAction::Reopen
            },
            LinkEvent::Retry => {
                if self.state == LinkState::Disconnected {
                    self.state = LinkState::Connecting;
                    LinkAction::Open
                } else {
                    LinkAction::Idle
                }
            },
            LinkEvent::Opened => {
                if self.state == LinkState::Connecting {
                    self.state = LinkState::Connected;
                    self.failures = 0;
                }
                LinkAction::Idle
            },
            LinkEvent::Failed => {
                let wait = self.backoff.delay(self.failures);
                if self.state == LinkState::Connecting {
                    if self.failures < u32::MAX {
                        self.failures = self.failures + 1;
                    }
                } else {
                    self.failures = 0;
                }
                self.state = LinkState::Disconnected;
                LinkAction::Wait(wait)
            },
        }
    }
}

} // verus!
