//! The relay loop as a state machine. It owns the height cursor and decides;
//! whoever drives it does the waiting, the resolving and the submitting, and
//! reports what came of them.

use crate::codec::{decode, map_addrs_to_header};
use crate::resolver::{build_hostname, hostname, ipv6_answers, keep_ipv6, IpAnswer};
use crate::text::text_from_utf8;
use vstd::prelude::*;
use vstd::utf8::{decode_utf8, valid_utf8};

verus! {

/// The seconds to wait before asking again for a height that gave nothing.
pub const BACKOFF_SECONDS: u64 = 5;

/// Where a relay stands.
#[derive(Clone, Copy, Debug, PartialEq, Eq, Structural)]
pub enum RelayState {
    /// The chain engine has not yet finished, or given up on, its initial
    /// sync.
    WaitingForSync,
    /// The header at `height` is being asked for.
    Fetching { height: u32 },
    /// The header decoded for `height` is with the chain engine.
    Submitting { height: u32 },
    /// Shutdown was seen. Nothing follows.
    Stopped,
}

/// What the driver reports to the relay.
#[derive(Debug)]
pub enum RelayEvent {
    /// The initial sync is complete or stalled, and the chain engine's tip
    /// is at `tip_height`.
    SyncReady { tip_height: u32 },
    /// The shutdown flag was found set.
    ShutdownRequested,
    /// The hostname did not resolve.
    ResolutionFailed,
    /// The hostname resolved to these addresses.
    Resolved { answers: Vec<IpAnswer> },
    /// The chain engine connected the header.
    HeaderAccepted,
    /// The chain engine did not connect the header.
    HeaderRejected,
}

/// What the relay asks of the driver.
#[derive(Debug, PartialEq, Eq)]
pub enum RelayAction {
    /// Wait `delay_seconds`, then look at the shutdown flag: report
    /// `ShutdownRequested` if it is set, else resolve `hostname` and report
    /// `Resolved` or `ResolutionFailed`.
    Resolve { hostname: String, delay_seconds: u64 },
    /// Hand `header` to the chain engine and report `HeaderAccepted` or
    /// `HeaderRejected`.
    Submit { header: [u8; 80] },
    /// Leave the loop.
    Stop,
}

/// An action as a value of the model.
pub ghost enum ActionView {
    Resolve { hostname: Seq<char>, delay_seconds: u64 },
    Submit { header: Seq<u8> },
    Stop,
}

impl View for RelayAction {
    type V = ActionView;

    open spec fn view(&self) -> ActionView {
        match *self {
            RelayAction::Resolve { hostname, delay_seconds } => ActionView::Resolve {
                hostname: hostname@,
                delay_seconds,
            },
            RelayAction::Submit { header } => ActionView::Submit { header: header@ },
            RelayAction::Stop => ActionView::Stop,
        }
    }
}

/// A relay as a value of the model: the domain it asks under, and where it
/// stands.
pub ghost struct RelayView {
    pub domain: Seq<char>,
    pub state: RelayState,
}

/// A relay: the domain it asks under and its state, which holds the height
/// cursor. No one but the relay moves the cursor.
pub struct HeaderRelay {
    domain: String,
    state: RelayState,
}

impl View for HeaderRelay {
    type V = RelayView;

    closed spec fn view(&self) -> RelayView {
        RelayView { domain: self.domain@, state: self.state }
    }
}

/// Asking for the header at `height` after `delay_seconds`: the state, and
/// the action that goes with it.
pub open spec fn fetching(height: u32, domain: Seq<char>, delay_seconds: u64) -> (
    RelayState,
    ActionView,
) {
    (
        RelayState::Fetching { height },
        ActionView::Resolve { hostname: hostname(height, domain), delay_seconds },
    )
}

/// The relay's rule: the state that follows and the action to take when
/// `event` is reported in `state`, or `None` where the state cannot take the
/// event: it comes out of turn, or it would move the cursor past the largest
/// height.
pub open spec fn relay_step(state: RelayState, domain: Seq<char>, event: RelayEvent) -> Option<
    (RelayState, ActionView),
> {
    match state {
        RelayState::WaitingForSync => match event {
            RelayEvent::SyncReady { tip_height } => Some(fetching(tip_height, domain, 0)),
            _ => None,
        },
        RelayState::Fetching { height } => match event {
            RelayEvent::ShutdownRequested => Some((RelayState::Stopped, ActionView::Stop)),
            RelayEvent::ResolutionFailed => Some(fetching(height, domain, BACKOFF_SECONDS)),
            RelayEvent::Resolved { answers } => {
                let addrs = ipv6_answers(answers@);
                if addrs.len() == 6 {
                    Some(
                        (
                            RelayState::Submitting { height },
                            ActionView::Submit { header: decode(addrs) },
                        ),
                    )
                } else {
                    Some(fetching(height, domain, BACKOFF_SECONDS))
                }
            },
            _ => None,
        },
        RelayState::Submitting { height } => match event {
            RelayEvent::HeaderAccepted => if height < u32::MAX {
                Some(fetching((height + 1) as u32, domain, 0))
            } else {
                None
            },
            RelayEvent::HeaderRejected => if height > 0 {
                Some(fetching((height - 1) as u32, domain, 0))
            } else {
                Some(fetching(0, domain, BACKOFF_SECONDS))
            },
            _ => None,
        },
        RelayState::Stopped => None,
    }
}

impl HeaderRelay {
    /// A relay for `domain` that waits for the initial sync.
    pub fn new(domain: String) -> (relay: Self)
        ensures
            relay@ == (RelayView { domain: domain@, state: RelayState::WaitingForSync }),
    {
        HeaderRelay { domain, state: RelayState::WaitingForSync }
    }

    /// Where the relay stands.
    pub fn state(&self) -> (state: RelayState)
        ensures
            state == self@.state,
    {
        self.state
    }

    /// The height cursor, while the relay has one.
    pub fn height(&self) -> (cursor: Option<u32>)
        ensures
            cursor == match self@.state {
                RelayState::Fetching { height } => Some(height),
                RelayState::Submitting { height } => Some(height),
                _ => None,
            },
    {
        match self.state {
            RelayState::Fetching { height } => Some(height),
            RelayState::Submitting { height } => Some(height),
            _ => None,
        }
    }

    /// The domain that the relay asks under.
    pub fn domain(&self) -> (domain: &str)
        ensures
            domain@ == self@.domain,
    {
        self.domain.as_str()
    }

    /// Moves to asking for the header at `height`.
    fn fetch(&mut self, height: u32, delay_seconds: u64) -> (action: RelayAction)
        ensures
            final(self)@.domain == old(self)@.domain,
            (final(self)@.state, action@) == fetching(height, old(self)@.domain, delay_seconds),
    {
        self.state = RelayState::Fetching { height };
        RelayAction::Resolve { hostname: build_hostname(height, self.domain.as_str()), delay_seconds }
    }

    /// Takes one event: moves the relay as `relay_step` says and returns the
    /// action to take, or leaves the relay as it is and returns `None` where
    /// the event cannot be taken.
    pub fn step(&mut self, event: RelayEvent) -> (taken: Option<RelayAction>)
        ensures
            final(self)@.domain == old(self)@.domain,
            match relay_step(old(self)@.state, old(self)@.domain, event) {
                Some((next, action)) => {
                    &&& final(self)@.state == next
                    &&& taken matches Some(a)
                    &&& a@ == action
                },
                None => {
                    &&& final(self)@.state == old(self)@.state
                    &&& taken is None
                },
            },
    {
        match self.state {
            RelayState::WaitingForSync => match event {
                RelayEvent::SyncReady { tip_height } => Some(self.fetch(tip_height, 0)),
                _ => None,
            },
            RelayState::Fetching { height } => match event {
                RelayEvent::ShutdownRequested => {
                    self.state = RelayState::Stopped;
                    Some(RelayAction::Stop)
                },
                RelayEvent::ResolutionFailed => Some(self.fetch(height, BACKOFF_SECONDS)),
                RelayEvent::Resolved { answers } => {
                    let mut addrs: Vec<[u8; 16]> = keep_ipv6(answers.as_slice());
                    if addrs.len() == 6 {
                        let header: [u8; 80] = map_addrs_to_header(addrs.as_mut_slice());
                        self.state = RelayState::Submitting { height };
                        Some(RelayAction::Submit { header })
                    } else {
                        Some(self.fetch(height, BACKOFF_SECONDS))
                    }
                },
                _ => None,
            },
            RelayState::Submitting { height } => match event {
                RelayEvent::HeaderAccepted => if height < u32::MAX {
                    Some(self.fetch(height + 1, 0))
                } else {
                    None
                },
                RelayEvent::HeaderRejected => if height > 0 {
                    Some(self.fetch(height - 1, 0))
                } else {
                    Some(self.fetch(0, BACKOFF_SECONDS))
                },
                _ => None,
            },
            RelayState::Stopped => None,
        }
    }
}

/// Sets up the relay for a domain given as bytes: a relay that waits for
/// the initial sync where the bytes are valid UTF-8, and nothing where they
/// are not.
pub fn init_fetch_dns_headers(domain: &[u8]) -> (relay: Option<HeaderRelay>)
    ensures
        relay is Some <==> valid_utf8(domain@),
        relay matches Some(r) ==> r@ == (RelayView {
            domain: decode_utf8(domain@),
            state: RelayState::WaitingForSync,
        }),
{
    match text_from_utf8(domain) {
        Some(text) => Some(HeaderRelay::new(text)),
        None => None,
    }
}

/// The seconds of delay that an action asks for.
pub open spec fn delay_of(action: ActionView) -> nat {
    match action {
        ActionView::Resolve { delay_seconds, .. } => delay_seconds as nat,
        _ => 0,
    }
}

/// The state after the events, taken in turn from `state`, and the seconds
/// of delay that the actions along the way asked for; `None` where one of
/// the events could not be taken.
pub open spec fn relay_run(state: RelayState, domain: Seq<char>, events: Seq<RelayEvent>) -> Option<
    (RelayState, nat),
>
    decreases events.len(),
{
    if events.len() == 0 {
        Some((state, 0))
    } else {
        match relay_run(state, domain, events.drop_last()) {
            Some((before, waited)) => match relay_step(before, domain, events.last()) {
                Some((next, action)) => Some((next, waited + delay_of(action))),
                None => None,
            },
            None => None,
        }
    }
}

/// Whether the event is a resolution with exactly six IPv6 addresses.
pub open spec fn is_decodable(event: RelayEvent) -> bool {
    event matches RelayEvent::Resolved { answers } && ipv6_answers(answers@).len() == 6
}

/// Whether the events are `rounds` rounds of the loop against a chain engine
/// that gives the same verdict every time: each round a resolution that
/// decodes, and the verdict on the header.
pub open spec fn rounds_of(events: Seq<RelayEvent>, rounds: nat, accepted: bool) -> bool {
    &&& events.len() == 2 * rounds
    &&& forall|i: int|
        0 <= i < rounds ==> {
            &&& is_decodable(#[trigger] events[2 * i])
            &&& if accepted {
                events[2 * i + 1] is HeaderAccepted
            } else {
                events[2 * i + 1] is HeaderRejected
            }
        }
}

/// The leading rounds of some rounds are rounds too, and a round more takes
/// two events more.
proof fn lemma_rounds_unfold(events: Seq<RelayEvent>, rounds: nat, accepted: bool)
    requires
        rounds_of(events, rounds, accepted),
        rounds > 0,
    ensures
        rounds_of(events.take(2 * (rounds - 1)), (rounds - 1) as nat, accepted),
        events.drop_last().drop_last() == events.take(2 * (rounds - 1)),
        is_decodable(events.drop_last().last()),
        events.last() is HeaderAccepted <==> accepted,
        events.last() is HeaderRejected <==> !accepted,
{
    let shorter = events.take(2 * (rounds - 1));
    assert(events.drop_last().drop_last() =~= shorter);
    assert forall|i: int| 0 <= i < rounds - 1 implies {
        &&& is_decodable(#[trigger] shorter[2 * i])
        &&& if accepted {
            shorter[2 * i + 1] is HeaderAccepted
        } else {
            shorter[2 * i + 1] is HeaderRejected
        }
    } by {
        assert(is_decodable(events[2 * i]));
    }
    assert(is_decodable(events[2 * (rounds - 1)]));
}

/// The events of the first `done` rounds.
pub open spec fn first_rounds(events: Seq<RelayEvent>, done: nat) -> Seq<RelayEvent> {
    events.take(2 * done as int)
}

/// The first rounds of some rounds are rounds too.
proof fn lemma_first_rounds(events: Seq<RelayEvent>, rounds: nat, done: nat, accepted: bool)
    requires
        rounds_of(events, rounds, accepted),
        done <= rounds,
    ensures
        rounds_of(first_rounds(events, done), done, accepted),
{
    let shorter = first_rounds(events, done);
    assert forall|i: int| 0 <= i < done implies {
        &&& is_decodable(#[trigger] shorter[2 * i])
        &&& if accepted {
            shorter[2 * i + 1] is HeaderAccepted
        } else {
            shorter[2 * i + 1] is HeaderRejected
        }
    } by {
        assert(is_decodable(events[2 * i]));
    }
}

/// The cursor after `rounds` rejections in a row from `start`.
pub open spec fn retreated(start: u32, rounds: nat) -> u32 {
    if rounds <= start {
        (start - rounds) as u32
    } else {
        0
    }
}

/// The seconds waited over `rounds` rejections in a row from `start`: the
/// backoff for each rejection that finds the cursor at 0.
pub open spec fn waited_at_genesis(start: u32, rounds: nat) -> nat {
    if rounds <= start {
        0
    } else {
        (5 * (rounds - start)) as nat
    }
}

/// Where rounds of rejections leave the relay.
proof fn lemma_run_of_rejections(
    start: u32,
    domain: Seq<char>,
    events: Seq<RelayEvent>,
    rounds: nat,
)
    requires
        rounds_of(events, rounds, false),
    ensures
        relay_run(RelayState::Fetching { height: start }, domain, events) == Some(
            (RelayState::Fetching { height: retreated(start, rounds) }, waited_at_genesis(start, rounds)),
        ),
    decreases rounds,
{
    if rounds > 0 {
        reveal_with_fuel(relay_run, 3);
        lemma_rounds_unfold(events, rounds, false);
        lemma_run_of_rejections(start, domain, events.take(2 * (rounds - 1)), (rounds - 1) as nat);
    }
}

/// Where rounds of acceptances leave the relay.
proof fn lemma_run_of_acceptances(
    start: u32,
    domain: Seq<char>,
    events: Seq<RelayEvent>,
    rounds: nat,
)
    requires
        rounds_of(events, rounds, true),
        start + rounds <= u32::MAX,
    ensures
        relay_run(RelayState::Fetching { height: start }, domain, events) == Some(
            (RelayState::Fetching { height: (start + rounds) as u32 }, 0nat),
        ),
    decreases rounds,
{
    if rounds > 0 {
        reveal_with_fuel(relay_run, 3);
        lemma_rounds_unfold(events, rounds, true);
        lemma_run_of_acceptances(start, domain, events.take(2 * (rounds - 1)), (rounds - 1) as nat);
    }
}

/// Against a chain engine that always rejects, the cursor steps back by one
/// with each rejection until it is at 0, and stays there: after `done`
/// rejections from `start` it is at `start - done`, or at 0 where that would
/// be below 0. The relay waits only for the rejections that find the cursor
/// at 0, five seconds for each; while the cursor is above 0 it does not wait
/// at all.
pub proof fn lemma_rejections_retreat(
    start: u32,
    domain: Seq<char>,
    events: Seq<RelayEvent>,
    rounds: nat,
)
    requires
        rounds_of(events, rounds, false),
    ensures
        relay_run(RelayState::Fetching { height: start }, domain, events) == Some(
            (RelayState::Fetching { height: retreated(start, rounds) }, waited_at_genesis(start, rounds)),
        ),
        forall|done: nat|
            done <= rounds ==> relay_run(
                RelayState::Fetching { height: start },
                domain,
                #[trigger] first_rounds(events, done),
            ) == Some(
                (RelayState::Fetching { height: retreated(start, done) }, waited_at_genesis(start, done)),
            ),
        forall|done: nat| done <= start ==> waited_at_genesis(start, done) == 0,
{
    lemma_run_of_rejections(start, domain, events, rounds);
    assert forall|done: nat| done <= rounds implies relay_run(
        RelayState::Fetching { height: start },
        domain,
        #[trigger] first_rounds(events, done),
    ) == Some(
        (RelayState::Fetching { height: retreated(start, done) }, waited_at_genesis(start, done)),
    ) by {
        lemma_first_rounds(events, rounds, done, false);
        lemma_run_of_rejections(start, domain, first_rounds(events, done), done);
    }
}

/// Against a chain engine that always accepts, the cursor steps forward by
/// one with each acceptance, as far as heights go: after `done` acceptances
/// from `start` it is at `start + done`. The relay never waits.
pub proof fn lemma_acceptances_advance(
    start: u32,
    domain: Seq<char>,
    events: Seq<RelayEvent>,
    rounds: nat,
)
    requires
        rounds_of(events, rounds, true),
        start + rounds <= u32::MAX,
    ensures
        relay_run(RelayState::Fetching { height: start }, domain, events) == Some(
            (RelayState::Fetching { height: (start + rounds) as u32 }, 0nat),
        ),
        forall|done: nat|
            done <= rounds ==> relay_run(
                RelayState::Fetching { height: start },
                domain,
                #[trigger] first_rounds(events, done),
            ) == Some((RelayState::Fetching { height: (start + done) as u32 }, 0nat)),
{
    lemma_run_of_acceptances(start, domain, events, rounds);
    assert forall|done: nat| done <= rounds implies relay_run(
        RelayState::Fetching { height: start },
        domain,
        #[trigger] first_rounds(events, done),
    ) == Some((RelayState::Fetching { height: (start + done) as u32 }, 0nat)) by {
        lemma_first_rounds(events, rounds, done, true);
        lemma_run_of_acceptances(start, domain, first_rounds(events, done), done);
    }
}

/// A resolution that does not hold exactly six IPv6 addresses is taken as a
/// resolution that failed: the same height is asked for again, after the
/// backoff.
pub proof fn lemma_wrong_count_is_failure(height: u32, domain: Seq<char>, event: RelayEvent)
    requires
        event matches RelayEvent::Resolved { answers } && ipv6_answers(answers@).len() != 6,
    ensures
        relay_step(RelayState::Fetching { height }, domain, event) == relay_step(
            RelayState::Fetching { height },
            domain,
            RelayEvent::ResolutionFailed,
        ),
        relay_step(RelayState::Fetching { height }, domain, event) == Some(
            fetching(height, domain, BACKOFF_SECONDS),
        ),
{
}

/// Shutdown ends the relay at whatever height it is asking for, and a
/// stopped relay takes no further event.
pub proof fn lemma_shutdown_stops(height: u32, domain: Seq<char>, later: RelayEvent)
    ensures
        relay_step(RelayState::Fetching { height }, domain, RelayEvent::ShutdownRequested) == Some(
            (RelayState::Stopped, ActionView::Stop),
        ),
        relay_step(RelayState::Stopped, domain, later) is None,
{
}

/// The shutdown flag is looked at again after two events at most, and the
/// waiting in between is one backoff at most: whatever event a relay takes,
/// it either stops, or asks for a resolution, which starts with a look at
/// the flag after no more than the backoff, or submits a header, and then
/// the verdict brings it to such a resolution.
pub proof fn lemma_flag_is_read_again(
    state: RelayState,
    domain: Seq<char>,
    first: RelayEvent,
    second: RelayEvent,
)
    ensures
        match relay_step(state, domain, first) {
            Some((RelayState::Stopped, action)) => action is Stop,
            Some((RelayState::Fetching { .. }, action)) => action is Resolve && delay_of(action)
                <= 5,
            Some((RelayState::Submitting { height }, action)) => action is Submit && match relay_step(
                RelayState::Submitting { height },
                domain,
                second,
            ) {
                Some((after, verdict_action)) => after is Fetching && verdict_action is Resolve
                    && delay_of(verdict_action) <= 5,
                None => true,
            },
            Some((RelayState::WaitingForSync, _)) => false,
            None => true,
        },
{
}

} // verus!
