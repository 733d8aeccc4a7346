//! The routing policy: what becomes of a decoded message, given the
//! endpoint it came from.

use vstd::prelude::*;
use crate::message::{Command, Message, MessageView};

verus! {

/// Sub-type of an internal message that asks for a node's firmware configuration.
pub const FIRMWARE_CONFIG_REQUEST: u8 = 0;

/// Sub-type of the reply to a firmware configuration request.
pub const FIRMWARE_CONFIG_RESPONSE: u8 = 1;

/// Sub-type of a stream message that asks for one firmware block.
pub const FIRMWARE_REQUEST: u8 = 2;

/// Sub-type of the reply that carries one firmware block.
pub const FIRMWARE_RESPONSE: u8 = 3;

#[derive(Clone, Copy, Debug, PartialEq, Eq, Structural)]
pub enum Endpoint {
    Gateway,
    Controller,
}

pub open spec fn spec_opposite(e: Endpoint) -> Endpoint {
    match e {
        Endpoint::Gateway => Endpoint::Controller,
        Endpoint::Controller => Endpoint::Gateway,
    }
}

impl Endpoint {
    /// The other endpoint.
    pub fn opposite(&self) -> (r: Endpoint)
        ensures
            r == spec_opposite(*self),
    {
        match self {
            Endpoint::Gateway => Endpoint::Controller,
            Endpoint::Controller => Endpoint::Gateway,
        }
    }
}

#[derive(Debug)]
pub enum RoutingAction {
    /// Send the message, encoded anew, to an endpoint.
    ForwardTo(Endpoint, Message),
    /// Report the message as a change of node or sensor state.
    EmitState(Message),
    /// Give the message to the firmware transfer sessions.
    HandOffToOta(Message),
}

pub enum ActionView {
    ForwardTo(Endpoint, MessageView),
    EmitState(MessageView),
    HandOffToOta(MessageView),
}

impl View for RoutingAction {
    type V = ActionView;

    open spec fn view(&self) -> ActionView {
        match self {
            RoutingAction::ForwardTo(e, m) => ActionView::ForwardTo(*e, m@),
            RoutingAction::EmitState(m) => ActionView::EmitState(m@),
            RoutingAction::HandOffToOta(m) => ActionView::HandOffToOta(m@),
        }
    }
}

/// Whether a message reports node or sensor state.
pub open spec fn is_state_message(m: MessageView) -> bool {
    m.command == Command::Presentation || m.command == Command::SetValue || m.command
        == Command::Req
}

/// Whether a message belongs to a firmware transfer.
pub open spec fn is_firmware_message(m: MessageView) -> bool {
    (m.command == Command::Internal && m.sub_type == FIRMWARE_CONFIG_REQUEST) || (m.command
        == Command::Stream && m.sub_type == FIRMWARE_REQUEST)
}

/// The actions for message `m` from `origin`: state messages are forwarded
/// and reported, firmware requests go to the transfer sessions alone, and
/// everything else is forwarded unchanged.
pub open spec fn spec_route(m: MessageView, origin: Endpoint) -> Seq<ActionView> {
    if is_state_message(m) {
        seq![ActionView::ForwardTo(spec_opposite(origin), m), ActionView::EmitState(m)]
    } else if is_firmware_message(m) {
        seq![ActionView::HandOffToOta(m)]
    } else {
        seq![ActionView::ForwardTo(spec_opposite(origin), m)]
    }
}

/// Routes a message that arrived from `origin`.
pub fn route(m: &Message, origin: Endpoint) -> (r: Vec<RoutingAction>)
    ensures
        r@.map_values(|a: RoutingAction| a@) == spec_route(m@, origin),
{
    let mut r: Vec<RoutingAction> = Vec::new();
    match m.command {
        Command::Presentation | Command::SetValue | Command::Req => {
            r.push(RoutingAction::ForwardTo(origin.opposite(), m.duplicate()));
            r.push(RoutingAction::EmitState(m.duplicate()));
        },
        _ => {
            if (m.command == Command::Internal && m.sub_type == FIRMWARE_CONFIG_REQUEST) || (
            m.command == Command::Stream && m.sub_type == FIRMWARE_REQUEST) {
                r.push(RoutingAction::HandOffToOta(m.duplicate()));
            } else {
                r.push(RoutingAction::ForwardTo(origin.opposite(), m.duplicate()));
            }
        },
    }
    assert(r@.map_values(|a: RoutingAction| a@) =~= spec_route(m@, origin));
    r
}

pub open spec fn is_forward(a: ActionView) -> bool {
    a is ForwardTo
}

pub open spec fn is_emit(a: ActionView) -> bool {
    a is EmitState
}

/// How many actions of `s` satisfy `p`.
pub open spec fn count_actions(s: Seq<ActionView>, p: spec_fn(ActionView) -> bool) -> nat {
    s.filter(p).len()
}

/// State messages yield exactly one forward and exactly one state report.
pub proof fn lemma_state_message_routing(m: MessageView, origin: Endpoint)
    requires
        is_state_message(m),
    ensures
        count_actions(spec_route(m, origin), |a: ActionView| is_forward(a)) == 1,
        count_actions(spec_route(m, origin), |a: ActionView| is_emit(a)) == 1,
        spec_route(m, origin).len() == 2,
{
    let s = spec_route(m, origin);
    reveal_with_fuel(Seq::filter, 3);
    assert(s.drop_last().drop_last() =~= Seq::<ActionView>::empty());
    assert(s.filter(|a: ActionView| is_forward(a)) =~= seq![s[0]]);
    assert(s.filter(|a: ActionView| is_emit(a)) =~= seq![s[1]]);
}

/// A message outside the policy table is forwarded to the opposite
/// endpoint, once, and nothing else is done with it.
pub proof fn lemma_default_routing(m: MessageView, origin: Endpoint)
    requires
        !is_state_message(m),
        !is_firmware_message(m),
    ensures
        spec_route(m, origin) == seq![ActionView::ForwardTo(spec_opposite(origin), m)],
{
}

} // verus!
