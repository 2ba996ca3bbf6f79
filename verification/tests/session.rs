use evs_delta::session::{RpcCommand, Session, SessionAction};

#[test]
fn session_picks_named_then_last_then_first_buffer() {
    let mut s = Session::new();
    assert_eq!(s.step(None, RpcCommand::Ping), SessionAction::Pong(1));
    assert_eq!(s.step(None, RpcCommand::Status), SessionAction::NoBuffer);
    assert_eq!(s.step(Some(7), RpcCommand::Open { text_empty: false }), SessionAction::Open(7));
    s.opened(7, true);
    assert_eq!(s.step(None, RpcCommand::Status), SessionAction::Status(7));
    assert_eq!(s.step(Some(3), RpcCommand::Inspect), SessionAction::NoBuffer);
}

#[test]
fn session_keeps_a_buffer_with_text_on_an_empty_open() {
    let mut s = Session::new();
    s.opened(2, true);
    assert_eq!(s.step(Some(2), RpcCommand::Open { text_empty: true }), SessionAction::KeepOpen(2));
    assert_eq!(s.step(Some(2), RpcCommand::Open { text_empty: false }), SessionAction::Open(2));
    s.text_changed(2, false);
    assert_eq!(s.step(Some(2), RpcCommand::Open { text_empty: true }), SessionAction::Open(2));
}

#[test]
fn session_edit_needs_a_delta_and_an_open_buffer() {
    let mut s = Session::new();
    assert_eq!(s.step(Some(4), RpcCommand::Edit { has_delta: false }), SessionAction::MissingDelta);
    assert_eq!(s.step(Some(4), RpcCommand::Edit { has_delta: true }), SessionAction::NoBuffer);
    s.opened(4, true);
    s.opened(5, true);
    assert_eq!(s.step(Some(4), RpcCommand::Edit { has_delta: true }), SessionAction::Edit(4));
    assert_eq!(s.step(None, RpcCommand::Graph), SessionAction::Graph(4));
}

#[test]
fn session_close_and_reset_move_the_last_buffer() {
    let mut s = Session::new();
    s.opened(1, true);
    s.opened(2, true);
    assert_eq!(s.step(None, RpcCommand::Close), SessionAction::Closed(2));
    assert_eq!(s.step(None, RpcCommand::Stats), SessionAction::Stats(1));
    assert_eq!(s.step(Some(1), RpcCommand::Reset), SessionAction::Reset(1));
    assert_eq!(s.step(None, RpcCommand::Status), SessionAction::NoBuffer);
    s.opened(9, false);
    assert_eq!(s.step(None, RpcCommand::Reset), SessionAction::Reset(9));
    assert_eq!(s.step(None, RpcCommand::Ping), SessionAction::Pong(1));
    assert_eq!(s.step(None, RpcCommand::Unknown), SessionAction::Unknown);
}
