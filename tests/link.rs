use script_follow::link::{may_send, step, LinkAction, LinkEvent, LinkState, MAX_RECONNECT_ATTEMPTS};

#[test]
fn ten_failed_reconnects_end_the_link() {
    let (mut s, a) = step(LinkState::Connected, LinkEvent::SendFailed);
    assert_eq!(a, LinkAction::Reconnect { attempt: 1 });
    let mut give_ups = 0;
    let mut actions = vec![a];
    for _ in 0..MAX_RECONNECT_ATTEMPTS {
        let (next, a) = step(s, LinkEvent::ReconnectFailed);
        if a == LinkAction::GiveUp {
            give_ups += 1;
        }
        actions.push(a);
        s = next;
    }
    assert_eq!(s, LinkState::Failed);
    assert_eq!(give_ups, 1);
    assert_eq!(actions[9], LinkAction::Reconnect { attempt: 10 });
    assert_eq!(actions[10], LinkAction::GiveUp);
    assert!(!may_send(s));
    for e in [LinkEvent::SendFailed, LinkEvent::ReconnectSucceeded, LinkEvent::ReconnectFailed] {
        assert_eq!(step(s, e), (LinkState::Failed, LinkAction::Continue));
    }
}

#[test]
fn successful_reconnect_resumes() {
    let (s, _) = step(LinkState::Connected, LinkEvent::SendFailed);
    let (s, _) = step(s, LinkEvent::ReconnectFailed);
    assert_eq!(s, LinkState::Reconnecting { attempt: 2 });
    assert!(!may_send(s));
    let (s, a) = step(s, LinkEvent::ReconnectSucceeded);
    assert_eq!((s, a), (LinkState::Connected, LinkAction::Resume));
    assert!(may_send(s));
    let (s, _) = step(s, LinkEvent::SendFailed);
    assert_eq!(s, LinkState::Reconnecting { attempt: 1 });
}

#[test]
fn sending_keeps_the_link() {
    assert_eq!(
        step(LinkState::Connected, LinkEvent::SendSucceeded),
        (LinkState::Connected, LinkAction::Continue)
    );
}
