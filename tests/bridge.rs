use myscontroller_rs::config::{log_level_or_default, ConnectionType, DEFAULT_LOG_LEVEL};
use myscontroller_rs::connection::{Backoff, LineFramer, Link, LinkAction, LinkEvent, LinkState};
use myscontroller_rs::interceptor::Endpoint;
use myscontroller_rs::message::{Command, DecodeError, Message};
use myscontroller_rs::ota::FirmwareCatalog;
use myscontroller_rs::proxy::Proxy;

#[test]
fn set_message_from_gateway_is_forwarded_and_emitted() {
    let mut proxy = Proxy::new(FirmwareCatalog::new(), 60);
    let out = proxy.handle_line(b"5;1;1;0;0;23.4\n", Endpoint::Gateway, 0).ok().unwrap();
    assert_eq!(out.outbound.len(), 1);
    assert_eq!(out.outbound[0].to, Endpoint::Controller);
    assert_eq!(out.outbound[0].line, b"5;1;1;0;0;23.4\n".to_vec());
    assert_eq!(out.events.len(), 1);
    assert_eq!(out.events[0].node_id, 5);
    assert_eq!(out.events[0].command, Command::SetValue);
    assert_eq!(out.events[0].payload, b"23.4".to_vec());
}

#[test]
fn malformed_line_does_not_stop_the_stream() {
    let mut framer = LineFramer::new();
    let mut proxy = Proxy::new(FirmwareCatalog::new(), 60);
    let mut lines = framer.feed(b"1;2;3;4\n5;1;1;0");
    lines.extend(framer.feed(b";0;23.4\n"));
    assert_eq!(lines.len(), 2);
    assert_eq!(
        proxy.handle_line(&lines[0], Endpoint::Gateway, 0).err(),
        Some(DecodeError::Malformed)
    );
    let out = proxy.handle_line(&lines[1], Endpoint::Gateway, 0).ok().unwrap();
    assert_eq!(out.events.len(), 1);
    assert_eq!(out.outbound.len(), 1);
}

#[test]
fn framer_keeps_partial_line() {
    let mut framer = LineFramer::new();
    assert!(framer.feed(b"abc").is_empty());
    let l = framer.feed(b"def\ng");
    assert_eq!(l, vec![b"abcdef".to_vec()]);
    let l = framer.feed(b"\n\n");
    assert_eq!(l, vec![b"g".to_vec(), Vec::new()]);
}

#[test]
fn controller_commands_go_to_gateway() {
    let mut proxy = Proxy::new(FirmwareCatalog::new(), 60);
    let out = proxy.handle_line(b"3;255;3;0;13;\n", Endpoint::Controller, 0).ok().unwrap();
    assert!(out.events.is_empty());
    assert_eq!(out.outbound[0].to, Endpoint::Gateway);
    assert_eq!(out.outbound[0].line, b"3;255;3;0;13;\n".to_vec());
    let m = Message::decode(&out.outbound[0].line).unwrap();
    assert_eq!(m.sub_type, 13);
}

#[test]
fn dropped_events_are_counted() {
    let mut proxy = Proxy::new(FirmwareCatalog::new(), 60);
    proxy.record_dropped_event();
    proxy.record_dropped_event();
    assert_eq!(proxy.dropped_events(), 2);
}

#[test]
fn backoff_doubles_up_to_the_cap() {
    let b = Backoff { initial_ms: 100, max_ms: 1000 };
    assert_eq!(b.delay(0), 100);
    assert_eq!(b.delay(1), 200);
    assert_eq!(b.delay(3), 800);
    assert_eq!(b.delay(4), 1000);
    assert_eq!(b.delay(40), 1000);
}

#[test]
fn link_reconnects_forever() {
    let mut l = Link::new(Backoff { initial_ms: 100, max_ms: 1000 });
    assert_eq!(l.step(LinkEvent::Retry), LinkAction::Open);
    assert_eq!(l.step(LinkEvent::Failed), LinkAction::Wait(100));
    assert_eq!(l.state, LinkState::Disconnected);
    assert_eq!(l.step(LinkEvent::Retry), LinkAction::Open);
    assert_eq!(l.step(LinkEvent::Failed), LinkAction::Wait(200));
    assert_eq!(l.step(LinkEvent::Retry), LinkAction::Open);
    assert_eq!(l.step(LinkEvent::Opened), LinkAction::Idle);
    assert_eq!(l.state, LinkState::Connected);
    assert_eq!(l.failures, 0);
    assert_eq!(l.step(LinkEvent::Failed), LinkAction::Wait(100));
    assert_eq!(l.step(LinkEvent::Reset), LinkAction::Reopen);
    assert_eq!(l.state, LinkState::Connecting);
}

#[test]
fn connection_type_names() {
    assert_eq!(ConnectionType::from_name("TCP"), Some(ConnectionType::Tcp));
    assert_eq!(ConnectionType::from_name("SERIAL"), Some(ConnectionType::Serial));
    assert_eq!(ConnectionType::from_name("UDP"), None);
}

#[test]
fn log_level_default() {
    assert_eq!(log_level_or_default(None), DEFAULT_LOG_LEVEL.to_string());
    assert_eq!(log_level_or_default(Some("debug".to_string())), "debug".to_string());
}

#[test]
fn log_level_from_configuration() {
    let conf = ini::Ini::load_from_str("[Server]\nlog_level=debug\n").unwrap();
    assert_eq!(myscontroller_rs::config::log_level(&conf), "debug".to_string());
    let empty = ini::Ini::load_from_str("[Server]\ndatabase_url=/tmp/db\n").unwrap();
    assert_eq!(myscontroller_rs::config::log_level(&empty), DEFAULT_LOG_LEVEL.to_string());
}
