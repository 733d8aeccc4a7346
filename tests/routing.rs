use myscontroller_rs::interceptor::{route, Endpoint, RoutingAction};
use myscontroller_rs::message::{Command, Message};

fn msg(command: Command, sub: u8) -> Message {
    Message {
        node_id: 5,
        child_sensor_id: 1,
        command,
        ack: false,
        sub_type: sub,
        payload: b"1".to_vec(),
    }
}

#[test]
fn state_messages_forward_and_emit_once() {
    for c in [Command::Presentation, Command::SetValue, Command::Req] {
        let m = msg(c, 0);
        let acts = route(&m, Endpoint::Gateway);
        assert_eq!(acts.len(), 2);
        match &acts[0] {
            RoutingAction::ForwardTo(e, f) => {
                assert_eq!(*e, Endpoint::Controller);
                assert_eq!(*f, m);
            }
            other => panic!("unexpected {:?}", other),
        }
        match &acts[1] {
            RoutingAction::EmitState(f) => assert_eq!(*f, m),
            other => panic!("unexpected {:?}", other),
        }
    }
}

#[test]
fn firmware_requests_go_to_ota_only() {
    let acts = route(&msg(Command::Internal, 0), Endpoint::Gateway);
    assert_eq!(acts.len(), 1);
    assert!(matches!(acts[0], RoutingAction::HandOffToOta(_)));
    let acts = route(&msg(Command::Stream, 2), Endpoint::Gateway);
    assert_eq!(acts.len(), 1);
    assert!(matches!(acts[0], RoutingAction::HandOffToOta(_)));
}

#[test]
fn other_messages_are_forwarded_only() {
    for (c, s) in [(Command::Internal, 13), (Command::Stream, 0), (Command::Stream, 3), (Command::Internal, 200)] {
        let m = msg(c, s);
        let acts = route(&m, Endpoint::Controller);
        assert_eq!(acts.len(), 1);
        match &acts[0] {
            RoutingAction::ForwardTo(e, f) => {
                assert_eq!(*e, Endpoint::Gateway);
                assert_eq!(*f, m);
            }
            other => panic!("unexpected {:?}", other),
        }
    }
}

#[test]
fn opposite_endpoints() {
    assert_eq!(Endpoint::Gateway.opposite(), Endpoint::Controller);
    assert_eq!(Endpoint::Controller.opposite(), Endpoint::Gateway);
}
