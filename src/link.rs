use vstd::prelude::*;

verus! {

/// How many reconnections are tried after the link drops.
pub const MAX_RECONNECT_ATTEMPTS: u32 = 10;

/// The pause before each reconnection, in milliseconds.
pub const RECONNECT_DELAY_MS: u64 = 2000;

/// State of the outgoing half of the streaming connection.
#[derive(Clone, Copy, Debug, PartialEq, Eq, Structural)]
pub enum LinkState {
    Connected,
    /// Reconnection number `attempt` (from 1) is under way.
    Reconnecting { attempt: u32 },
    /// Every reconnection failed: nothing more is sent.
    Failed,
}

/// What the writer observed.
#[derive(Clone, Copy, Debug, PartialEq, Eq, Structural)]
pub enum LinkEvent {
    SendSucceeded,
    SendFailed,
    ReconnectSucceeded,
    ReconnectFailed,
}

/// What the writer does next.
#[derive(Clone, Copy, Debug, PartialEq, Eq, Structural)]
pub enum LinkAction {
    /// Nothing beyond carrying on.
    Continue,
    /// Report reconnection number `attempt`, wait, and connect again.
    Reconnect { attempt: u32 },
    /// Send the configuration again on the new connection and report it.
    Resume,
    /// Report the final disconnection and stop writing.
    GiveUp,
}

pub open spec fn transition(s: LinkState, e: LinkEvent) -> (LinkState, LinkAction) {
    match s {
        LinkState::Connected => match e {
            LinkEvent::SendFailed => (
                LinkState::Reconnecting { attempt: 1 },
                LinkAction::Reconnect { attempt: 1 },
            ),
            _ => (LinkState::Connected, LinkAction::Continue),
        },
        LinkState::Reconnecting { attempt } => match e {
            LinkEvent::ReconnectSucceeded => (LinkState::Connected, LinkAction::Resume),
            LinkEvent::ReconnectFailed => if attempt < MAX_RECONNECT_ATTEMPTS {
                (
                    LinkState::Reconnecting { attempt: (attempt + 1) as u32 },
                    LinkAction::Reconnect { attempt: (attempt + 1) as u32 },
                )
            } else {
                (LinkState::Failed, LinkAction::GiveUp)
            },
            _ => (s, LinkAction::Continue),
        },
        LinkState::Failed => (LinkState::Failed, LinkAction::Continue),
    }
}

/// The states reached and the actions taken over a run of events.
pub open spec fn run(s: LinkState, events: Seq<LinkEvent>) -> (LinkState, Seq<LinkAction>)
    decreases events.len(),
{
    if events.len() == 0 {
        (s, Seq::empty())
    } else {
        let (s1, a1) = transition(s, events[0]);
        let (s2, rest) = run(s1, events.drop_first());
        (s2, seq![a1] + rest)
    }
}

pub open spec fn sends_in(s: LinkState) -> bool {
    s == LinkState::Connected
}

/// Whether a queued frame is written in this state.
pub fn may_send(s: LinkState) -> (r: bool)
    ensures
        r == sends_in(s),
{
    match s {
        LinkState::Connected => true,
        _ => false,
    }
}

/// The next state and action after an event.
pub fn step(s: LinkState, e: LinkEvent) -> (r: (LinkState, LinkAction))
    requires
        s matches LinkState::Reconnecting { attempt } ==> 1 <= attempt <= MAX_RECONNECT_ATTEMPTS,
    ensures
        r == transition(s, e),
        r.0 matches LinkState::Reconnecting { attempt } ==> 1 <= attempt
            <= MAX_RECONNECT_ATTEMPTS,
{
    match s {
        LinkState::Connected => match e {
            LinkEvent::SendFailed => (
                LinkState::Reconnecting { attempt: 1 },
                LinkAction::Reconnect { attempt: 1 },
            ),
            _ => (LinkState::Connected, LinkAction::Continue),
        },
        LinkState::Reconnecting { attempt } => match e {
            LinkEvent::ReconnectSucceeded => (LinkState::Connected, LinkAction::Resume),
            LinkEvent::ReconnectFailed => {
                if attempt < MAX_RECONNECT_ATTEMPTS {
                    (
                        LinkState::Reconnecting { attempt: attempt + 1 },
                        LinkAction::Reconnect { attempt: attempt + 1 },
                    )
                } else {
                    (LinkState::Failed, LinkAction::GiveUp)
                }
            },
            _ => (s, LinkAction::Continue),
        },
        LinkState::Failed => (LinkState::Failed, LinkAction::Continue),
    }
}

pub open spec fn failures(n: nat) -> Seq<LinkEvent> {
    Seq::new(n, |i: int| LinkEvent::ReconnectFailed)
}

proof fn lemma_failures_while_retrying(attempt: u32, n: nat)
    requires
        1 <= attempt,
        attempt + n <= MAX_RECONNECT_ATTEMPTS,
    ensures
        run(LinkState::Reconnecting { attempt }, failures(n)).0 == (LinkState::Reconnecting {
            attempt: (attempt + n) as u32,
        }),
        run(LinkState::Reconnecting { attempt }, failures(n)).1.len() == n,
        forall|k: int|
            0 <= k < n ==> #[trigger] run(LinkState::Reconnecting { attempt }, failures(n)).1[k]
                == (LinkAction::Reconnect { attempt: (attempt + k + 1) as u32 }),
    decreases n,
{
    if n > 0 {
        assert(failures(n).drop_first() =~= failures((n - 1) as nat));
        lemma_failures_while_retrying((attempt + 1) as u32, (n - 1) as nat);
    }
}

/// After a failed send, as many failed reconnections as are allowed end the
/// link: every one but the last asks for another try, the last gives up (the
/// only such action), and nothing is sent from then on, whatever happens.
pub proof fn lemma_retries_exhausted(more: Seq<LinkEvent>)
    ensures
        ({
            let events = seq![LinkEvent::SendFailed] + failures(MAX_RECONNECT_ATTEMPTS as nat);
            let (s, actions) = run(LinkState::Connected, events);
            &&& s == LinkState::Failed
            &&& actions.len() == MAX_RECONNECT_ATTEMPTS + 1
            &&& actions.last() == LinkAction::GiveUp
            &&& forall|k: int|
                0 <= k < MAX_RECONNECT_ATTEMPTS ==> #[trigger] actions[k] != LinkAction::GiveUp
        }),
        run(LinkState::Failed, more).0 == LinkState::Failed,
        forall|k: int|
            0 <= k < more.len() ==> #[trigger] run(LinkState::Failed, more).1[k]
                == LinkAction::Continue,
        !sends_in(LinkState::Failed),
{
    let n = MAX_RECONNECT_ATTEMPTS as nat;
    let events = seq![LinkEvent::SendFailed] + failures(n);
    assert(events[0] == LinkEvent::SendFailed);
    assert(events.drop_first() =~= failures(n));
    let r1 = LinkState::Reconnecting { attempt: 1 };
    let f9 = failures((n - 1) as nat);
    let one = seq![LinkEvent::ReconnectFailed];
    assert(failures(n) =~= f9 + one);
    lemma_failures_while_retrying(1, (n - 1) as nat);
    lemma_run_concat(r1, f9, one);
    let mid = run(r1, f9);
    assert(mid.0 == LinkState::Reconnecting { attempt: 10 });
    assert(one.drop_first() =~= Seq::<LinkEvent>::empty());
    assert(transition(mid.0, one[0]) == (LinkState::Failed, LinkAction::GiveUp));
    let empty_run = run(LinkState::Failed, one.drop_first());
    assert(empty_run.0 == LinkState::Failed && empty_run.1 == Seq::<LinkAction>::empty());
    let last = run(mid.0, one);
    assert(last.0 == LinkState::Failed);
    assert(last.1 =~= seq![LinkAction::GiveUp]);
    let tail = run(r1, failures(n));
    assert(tail.1 == mid.1 + last.1);
    let whole = run(LinkState::Connected, events);
    assert(whole.1 == seq![LinkAction::Reconnect { attempt: 1 }] + tail.1);
    assert(whole.0 == LinkState::Failed);
    assert forall|k: int| 0 <= k < MAX_RECONNECT_ATTEMPTS implies #[trigger] whole.1[k]
        != LinkAction::GiveUp by {
        if k > 0 {
            assert(whole.1[k] == mid.1[k - 1]);
        }
    }
    lemma_failed_stays(more);
}

proof fn lemma_run_concat(s: LinkState, a: Seq<LinkEvent>, b: Seq<LinkEvent>)
    ensures
        run(s, a + b).0 == run(run(s, a).0, b).0,
        run(s, a + b).1 == run(s, a).1 + run(run(s, a).0, b).1,
    decreases a.len(),
{
    if a.len() == 0 {
        assert(a + b =~= b);
        assert(run(s, a).1 + run(s, b).1 =~= run(s, b).1);
    } else {
        assert((a + b).drop_first() =~= a.drop_first() + b);
        let (s1, a1) = transition(s, a[0]);
        lemma_run_concat(s1, a.drop_first(), b);
        assert(seq![a1] + (run(s1, a.drop_first()).1 + run(run(s1, a.drop_first()).0, b).1)
            =~= (seq![a1] + run(s1, a.drop_first()).1) + run(run(s1, a.drop_first()).0, b).1);
    }
}

proof fn lemma_failed_stays(more: Seq<LinkEvent>)
    ensures
        run(LinkState::Failed, more).0 == LinkState::Failed,
        run(LinkState::Failed, more).1.len() == more.len(),
        forall|k: int|
            0 <= k < more.len() ==> #[trigger] run(LinkState::Failed, more).1[k]
                == LinkAction::Continue,
    decreases more.len(),
{
    if more.len() > 0 {
        lemma_failed_stays(more.drop_first());
    }
}

} // verus!
