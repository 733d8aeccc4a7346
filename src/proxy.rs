//! The bridge's own step: a line in from one endpoint becomes lines out to
//! the endpoints and state events for the outside consumers.

use vstd::prelude::*;
use crate::firmware::ImageView;
use crate::interceptor::{ActionView, Endpoint, RoutingAction, route, spec_route};
use crate::message::{DecodeError, Message, MessageView, spec_decode, spec_encode};
use crate::ota::{FirmwareCatalog, OtaManager, OtaSession, firmware_step};

verus! {

/// A line to write to an endpoint.
#[derive(Debug)]
pub struct Outbound {
    pub to: Endpoint,
    pub line: Vec<u8>,
}

/// What one inbound line gives: lines to write and state events to report.
#[derive(Debug)]
pub struct StepOutput {
    pub outbound: Vec<Outbound>,
    pub events: Vec<Message>,
}

pub struct OutputView {
    pub outbound: Seq<(Endpoint, Seq<u8>)>,
    pub events: Seq<MessageView>,
}

impl View for StepOutput {
    type V = OutputView;

    open spec fn view(&self) -> OutputView {
        OutputView {
            outbound: self.outbound@.map_values(|o: Outbound| (o.to, o.line@)),
            events: self.events@.map_values(|m: Message| m@),
        }
    }
}

/// The sessions and output after carrying out `acts` in order, for a
/// message that came from `origin`: forwards are encoded anew, state
/// reports become events, and a firmware reply goes back to `origin`.
pub open spec fn apply_actions(
    acts: Seq<ActionView>,
    table: Seq<Option<OtaSession>>,
    cat: Seq<ImageView>,
    origin: Endpoint,
    now: u64,
) -> (Seq<Option<OtaSession>>, OutputView)
    decreases acts.len(),
{
    if acts.len() == 0 {
        (table, OutputView { outbound: Seq::empty(), events: Seq::empty() })
    } else {
        let (t, o) = apply_actions(acts.drop_last(), table, cat, origin, now);
        match acts.last() {
            ActionView::ForwardTo(e, m) => (
                t,
                OutputView { outbound: o.outbound.push((e, spec_encode(m))), events: o.events },
            ),
            ActionView::EmitState(m) => (
                t,
                OutputView { outbound: o.outbound, events: o.events.push(m) },
            ),
            ActionView::HandOffToOta(m) => {
                let (t2, reply) = firmware_step(t, cat, m, now);
                match reply {
                    Some(r) => (
                        t2,
                        OutputView {
                            outbound: o.outbound.push((origin, spec_encode(r))),
                            events: o.events,
                        },
                    ),
                    None => (t2, o),
                }
            },
        }
    }
}

/// The bridge: the firmware catalog, the transfer sessions, and the count
/// of state events that could not be delivered.
pub struct Proxy {
    catalog: FirmwareCatalog,
    ota: OtaManager,
    dropped_events: u64,
}

impl Proxy {
    pub closed spec fn spec_catalog(&self) -> Seq<ImageView> {
        self.catalog@
    }

    pub closed spec fn spec_sessions(&self) -> Seq<Option<OtaSession>> {
        self.ota@
    }

    pub closed spec fn spec_timeout(&self) -> u64 {
        self.ota.spec_timeout()
    }

    pub closed spec fn spec_dropped(&self) -> u64 {
        self.dropped_events
    }

    pub closed spec fn wf(&self) -> bool {
        self.ota.wf()
    }

    /// A bridge serving `catalog`, with no session yet.
    pub fn new(catalog: FirmwareCatalog, session_timeout: u64) -> (r: Proxy)
        ensures
            r.wf(),
            r.spec_catalog() == catalog@,
            r.spec_timeout() == session_timeout,
            forall|i: int| 0 <= i < 256 ==> (#[trigger] r.spec_sessions()[i]) is None,
            r.spec_dropped() == 0,
    {
        Proxy { catalog, ota: OtaManager::new(session_timeout), dropped_events: 0 }
    }

    /// The session of `node`, if it has one.
    pub fn session(&self, node: u8) -> (r: Option<OtaSession>)
        requires
            self.wf(),
        ensures
            r == self.spec_sessions()[node as int],
    {
        self.ota.session(node)
    }

    pub fn dropped_events(&self) -> (r: u64)
        ensures
            r == self.spec_dropped(),
    {
        self.dropped_events
    }

    /// Counts one state event that the downstream channel did not take.
    pub fn record_dropped_event(&mut self)
        ensures
            final(self).spec_dropped() == if old(self).spec_dropped() < u64::MAX {
                (old(self).spec_dropped() + 1) as u64
            } else {
                old(self).spec_dropped()
            },
            final(self).wf() == old(self).wf(),
            final(self).spec_sessions() == old(self).spec_sessions(),
            final(self).spec_catalog() == old(self).spec_catalog(),
            final(self).spec_timeout() == old(self).spec_timeout(),
    {
        if self.dropped_events < u64::MAX {
            self.dropped_events = self.dropped_events + 1;
        }
    }

    /// Removes the transfer sessions idle beyond the timeout at `now`.
    pub fn expire_sessions(&mut self, now: u64)
        requires
            old(self).wf(),
        ensures
            final(self).wf(),
            final(self).spec_sessions() == crate::ota::expire_step(
                old(self).spec_sessions(),
                now,
                old(self).spec_timeout(),
            ),
            final(self).spec_catalog() == old(self).spec_catalog(),
            final(self).spec_timeout() == old(self).spec_timeout(),
            final(self).spec_dropped() == old(self).spec_dropped(),
    {
        self.ota.expire(now);
    }

    /// Handles one line that arrived from `origin`. A line that does not
    /// decode changes nothing and gives its error; the stream goes on.
    pub fn handle_line(&mut self, line: &[u8], origin: Endpoint, now: u64) -> (r: Result<
        StepOutput,
        DecodeError,
    >)
        requires
            old(self).wf(),
        ensures
            final(self).wf(),
            final(self).spec_catalog() == old(self).spec_catalog(),
            final(self).spec_timeout() == old(self).spec_timeout(),
            final(self).spec_dropped() == old(self).spec_dropped(),
            match spec_decode(line@) {
                Err(e) => r == Err::<StepOutput, DecodeError>(e) && final(self).spec_sessions()
                    == old(self).spec_sessions(),
                Ok(m) => r is Ok && (final(self).spec_sessions(), r->Ok_0@) == apply_actions(
                    spec_route(m, origin),
                    old(self).spec_sessions(),
                    old(self).spec_catalog(),
                    origin,
                    now,
                ),
            },
    {
        let m = match Message::decode(line) {
            Ok(m) => m,
            Err(e) => return Err(e),
        };
        let acts = route(&m, origin);
        let ghost av = acts@.map_values(|a: RoutingAction| a@);
        let mut out = StepOutput { outbound: Vec::new(), events: Vec::new() };
        let mut i: usize = 0;
        assert(av.take(0) =~= Seq::<ActionView>::empty());
        assert(out@.outbound =~= Seq::<(Endpoint, Seq<u8>)>::empty());
        assert(out@.events =~= Seq::<MessageView>::empty());
        while i < acts.len()
            invariant
                av == acts@.map_values(|a: RoutingAction| a@),
                av == spec_route(m@, origin),
                i <= acts@.len(),
                self.wf(),
                self.catalog@ == old(self).catalog@,
                self.ota.spec_timeout() == old(self).ota.spec_timeout(),
                self.dropped_events == old(self).dropped_events,
                (self.ota@, out@) == apply_actions(
                    av.take(i as int),
                    old(self).ota@,
                    self.catalog@,
                    origin,
                    now,
                ),
            decreases acts.len() - i,
        {
            proof {
                assert(av.take(i + 1).drop_last() =~= av.take(i as int));
                assert(av.take(i + 1).last() == acts@[i as int]@);
            }
            let ghost o0 = out@;
            match &acts[i] {
                RoutingAction::ForwardTo(e, msg) => {
                    out.outbound.push(Outbound { to: *e, line: msg.encode() });
                    assert(out@.outbound =~= o0.outbound.push((*e, spec_encode(msg@))));
                },
                RoutingAction::EmitState(msg) => {
                    out.events.push(msg.duplicate());
                    assert(out@.events =~= o0.events.push(msg@));
                },
                RoutingAction::HandOffToOta(msg) => {
                    match self.ota.handle_firmware_message(&self.catalog, msg, now) {
                        Some(reply) => {
                            out.outbound.push(Outbound { to: origin, line: reply.encode() });
                            assert(out@.outbound =~= o0.outbound.push((origin, spec_encode(reply@))));
                        },
                        None => {},
                    }
                },
            }
            i = i + 1;
        }
        assert(av.take(i as int) =~= av);
        Ok(out)
    }
}

} // verus!
