use base::link::{
    challenge_response_reply, connect_reply, ClientLink, ConnectedOutcome, ServerReply, TimerAction, CONNECTION_TIMEOUT_MS,
    HANDSHAKE_INTERVAL_MS, KEEPALIVE_INTERVAL_MS,
};

fn established(session: u64, generation: u32) -> ClientLink {
    let mut link = ClientLink::new();
    assert_eq!(link.on_connected(session, generation), ConnectedOutcome::Established { fresh: true });
    link
}

#[test]
fn new_link_is_down_and_knows_nothing() {
    let link = ClientLink::new();
    assert!(!link.connected);
    assert_eq!(link.session, None);
    assert_eq!(link.generation, None);
    assert_eq!(link.replace_session, None);
    assert_eq!(link.challenge, None);
    assert!(!link.is_current(0));
}

#[test]
fn challenge_is_answered_only_while_down() {
    let mut link = ClientLink::new();
    assert_eq!(link.on_challenge(77), Some(77));
    assert_eq!(link.challenge, Some(77));

    let mut up = established(5, 1);
    assert_eq!(up.on_challenge(78), None);
    assert_eq!(up.challenge, None);
}

#[test]
fn connected_establishes_the_session() {
    let mut link = ClientLink::new();
    link.on_challenge(9);
    assert_eq!(link.on_connected(5, 2), ConnectedOutcome::Established { fresh: true });
    assert!(link.connected);
    assert_eq!(link.session, Some(5));
    assert_eq!(link.generation, Some(2));
    assert_eq!(link.challenge, None);
    assert!(link.is_current(5));
    assert!(!link.is_current(6));
}

#[test]
fn repeated_connected_is_seen_and_others_ignored() {
    let mut link = established(5, 2);
    assert_eq!(link.on_connected(5, 2), ConnectedOutcome::Seen);
    assert_eq!(link.on_connected(6, 2), ConnectedOutcome::Ignored);
    assert_eq!(link.session, Some(5));
}

#[test]
fn disconnect_of_the_current_session_takes_the_link_down() {
    let mut link = established(5, 2);
    assert!(!link.on_disconnect(4));
    assert!(link.connected);

    assert!(link.on_disconnect(5));
    assert!(!link.connected);
    assert_eq!(link.session, None);
    assert_eq!(link.generation, None);
    assert_eq!(link.replace_session, Some(5));
}

#[test]
fn closed_session_stays_closed() {
    let mut link = established(5, 2);
    assert!(link.on_disconnect(5));
    assert_eq!(link.on_connected(5, 2), ConnectedOutcome::Ignored);
    assert!(!link.connected);
    assert_eq!(link.on_connected(8, 3), ConnectedOutcome::Established { fresh: true });
    assert_eq!(link.replace_session, None);
}

#[test]
fn timers_in_order_of_precedence() {
    let mut up = established(5, 2);
    assert_eq!(up.on_timer(0, 0), TimerAction::Idle);
    assert_eq!(up.on_timer(0, KEEPALIVE_INTERVAL_MS), TimerAction::KeepAlive { session: 5 });
    assert_eq!(up.on_timer(CONNECTION_TIMEOUT_MS - 1, KEEPALIVE_INTERVAL_MS - 1), TimerAction::Idle);
    assert_eq!(up.on_timer(CONNECTION_TIMEOUT_MS, KEEPALIVE_INTERVAL_MS), TimerAction::TimedOut);
    assert!(!up.connected);
    assert_eq!(up.session, Some(5));
    assert_eq!(up.generation, Some(2));

    let mut down = ClientLink::new();
    assert_eq!(down.on_timer(CONNECTION_TIMEOUT_MS, HANDSHAKE_INTERVAL_MS - 1), TimerAction::Idle);
    down.on_challenge(31);
    assert_eq!(
        down.on_timer(0, HANDSHAKE_INTERVAL_MS),
        TimerAction::Handshake { replace: None, challenge: Some(31) }
    );
}

#[test]
fn timed_out_link_resumes_the_same_session() {
    let mut link = established(5, 2);
    assert_eq!(link.on_timer(CONNECTION_TIMEOUT_MS, 0), TimerAction::TimedOut);
    assert_eq!(link.on_connected(5, 2), ConnectedOutcome::Established { fresh: false });

    let mut other = established(5, 2);
    other.on_timer(CONNECTION_TIMEOUT_MS, 0);
    assert_eq!(other.on_connected(5, 3), ConnectedOutcome::Established { fresh: true });
}

#[test]
fn handshake_after_disconnect_replaces_the_old_session() {
    let mut link = established(5, 2);
    link.on_disconnect(5);
    assert_eq!(
        link.on_timer(0, HANDSHAKE_INTERVAL_MS),
        TimerAction::Handshake { replace: Some(5), challenge: None }
    );
}

#[test]
fn server_answers_connection_attempts() {
    assert_eq!(connect_reply(None, None), (false, ServerReply::Challenge));
    assert_eq!(connect_reply(None, Some(4)), (false, ServerReply::Challenge));
    assert_eq!(connect_reply(Some(4), None), (false, ServerReply::Connected));
    assert_eq!(connect_reply(Some(4), Some(5)), (false, ServerReply::Connected));
    assert_eq!(connect_reply(Some(4), Some(4)), (true, ServerReply::Challenge));
}

#[test]
fn server_answers_challenge_responses() {
    assert_eq!(challenge_response_reply(true, false), ServerReply::Connected);
    assert_eq!(challenge_response_reply(true, true), ServerReply::Connected);
    assert_eq!(challenge_response_reply(false, true), ServerReply::Admit);
    assert_eq!(challenge_response_reply(false, false), ServerReply::Challenge);
}
