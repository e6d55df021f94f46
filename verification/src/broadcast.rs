//! The event fan-out layer: who is connected, who follows which market, and
//! to whom each match event is sent.

use axum::extract::ws::Message;
use dashmap::DashMap;
use tokio::sync::mpsc::UnboundedSender;
use vstd::prelude::*;
use crate::types::{EventType, EventView, IncomingMarketType, MarketType, MatchEvent};

verus! {

/// The sending half of tokio's unbounded channel; opaque to the proofs.
#[verifier::external_type_specification]
#[verifier::external_body]
#[verifier::reject_recursive_types(T)]
pub struct ExUnboundedSender<T>(UnboundedSender<T>);

/// A WebSocket message of axum; opaque to the proofs.
#[verifier::external_type_specification]
#[verifier::external_body]
pub struct ExMessage(Message);

/// The values of a list of strings, in order.
pub open spec fn strings_view(list: Seq<String>) -> Seq<Seq<char>> {
    Seq::new(list.len(), |i: int| list[i]@)
}

/// The users for whom a map of endpoints holds an endpoint. The name has no
/// definition; the contracts of the functions below say all that is known
/// of it.
pub uninterp spec fn endpoints_of(endpoints: DashMap<String, UnboundedSender<Message>>) -> Set<
    Seq<char>,
>;

/// What a map of followers holds: for each market in it, the users stored
/// under the market, in the order of the stored list. The name has no
/// definition; the contracts of the functions below say all that is known
/// of it.
pub uninterp spec fn followers_of(followers: DashMap<MarketType, Vec<String>>) -> Map<
    MarketType,
    Seq<Seq<char>>,
>;

/// Nobody.
pub open spec fn nobody() -> Set<Seq<char>> {
    Set::empty()
}

/// No market has a follower.
pub open spec fn unfollowed() -> Map<MarketType, Seq<Seq<char>>> {
    Map::empty()
}

/// `DashMap::new`: the map it returns holds no endpoint. Believed, not
/// proved.
#[verifier::external_body]
fn endpoints_new() -> (made: DashMap<String, UnboundedSender<Message>>)
    ensures
        endpoints_of(made) == nobody(),
{
    DashMap::new()
}

/// `DashMap::insert`: afterwards the map holds an endpoint for `user_id`, and
/// for everyone it held one for before. Believed, not proved.
#[verifier::external_body]
fn endpoints_insert(
    endpoints: &mut DashMap<String, UnboundedSender<Message>>,
    user_id: String,
    endpoint: UnboundedSender<Message>,
)
    ensures
        endpoints_of(*final(endpoints)) == endpoints_of(*old(endpoints)).insert(user_id@),
{
    endpoints.insert(user_id, endpoint);
}

/// `DashMap::remove`: afterwards the map holds no endpoint for `user_id`;
/// the others stay. Believed, not proved.
#[verifier::external_body]
fn endpoints_remove(endpoints: &mut DashMap<String, UnboundedSender<Message>>, user_id: &str)
    ensures
        endpoints_of(*final(endpoints)) == endpoints_of(*old(endpoints)).remove(user_id@),
{
    endpoints.remove(user_id);
}

/// `DashMap::get`: a handle on the endpoint of `user_id`, exactly where the
/// map holds one. The handle is a clone of the stored sender, which sends
/// on the same channel. Believed, not proved.
#[verifier::external_body]
fn endpoints_get(endpoints: &DashMap<String, UnboundedSender<Message>>, user_id: &str) -> (found:
    Option<UnboundedSender<Message>>)
    ensures
        found.is_some() == endpoints_of(*endpoints).contains(user_id@),
{
    match endpoints.get(user_id) {
        Some(entry) => Some(entry.value().clone()),
        None => None,
    }
}

/// `UnboundedSender::send` of tokio with a text message of axum: it never
/// waits, and fails only where the receiving half is closed. Whether the
/// message was taken is not reported, and nothing is claimed.
#[verifier::external_body]
fn send_text(endpoint: &UnboundedSender<Message>, text: &str) {
    let _ = endpoint.send(Message::Text(text.to_string()));
}

/// `DashMap::new`: the map it returns holds no market. Believed, not
/// proved.
#[verifier::external_body]
fn followers_new() -> (made: DashMap<MarketType, Vec<String>>)
    ensures
        followers_of(made) == unfollowed(),
{
    DashMap::new()
}

/// `DashMap::get`: a copy of the list stored under `market`, exactly where
/// the map holds one. Believed, not proved.
#[verifier::external_body]
fn followers_get(followers: &DashMap<MarketType, Vec<String>>, market: MarketType) -> (found:
    Option<Vec<String>>)
    ensures
        found.is_some() == followers_of(*followers).contains_key(market),
        found.is_some() ==> strings_view(found.unwrap()@) == followers_of(*followers)[market],
{
    match followers.get(&market) {
        Some(entry) => Some(entry.value().clone()),
        None => None,
    }
}

/// `DashMap::insert`: afterwards the map holds `list` under `market`, in
/// place of what was there; other entries stay. Believed, not proved.
#[verifier::external_body]
fn followers_insert(
    followers: &mut DashMap<MarketType, Vec<String>>,
    market: MarketType,
    list: Vec<String>,
)
    ensures
        followers_of(*final(followers)) == followers_of(*old(followers)).insert(
            market,
            strings_view(list@),
        ),
{
    followers.insert(market, list);
}

/// The mathematical value of the registry.
pub struct RegistryView {
    /// The users who have a session.
    pub connected: Set<Seq<char>>,
    /// For each market that anyone follows, its followers in the order in
    /// which they subscribed.
    pub subscribers: Map<MarketType, Seq<Seq<char>>>,
}

impl RegistryView {
    /// The followers of `market`, in the order in which they subscribed.
    pub open spec fn subscribers_of(self, market: MarketType) -> Seq<Seq<char>> {
        if self.subscribers.contains_key(market) {
            self.subscribers[market]
        } else {
            Seq::empty()
        }
    }

    /// No user is listed twice among the followers of a market.
    pub open spec fn wf(self) -> bool {
        forall|market: MarketType| #[trigger]
            self.subscribers.contains_key(market) ==> self.subscribers[market].no_duplicates()
    }
}

/// The test whether a user has a session.
pub open spec fn is_connected(connected: Set<Seq<char>>) -> spec_fn(Seq<char>) -> bool {
    |user: Seq<char>| connected.contains(user)
}

/// To whom an event is sent, in the order of the sends: to the user who sent
/// the order, if connected; after a partial fill also to each follower of the
/// event's market who is connected, whether or not that is the same user.
pub open spec fn recipients(state: RegistryView, event: EventView) -> Seq<Seq<char>> {
    let own = if state.connected.contains(event.user_id) {
        seq![event.user_id]
    } else {
        Seq::empty()
    };
    match event.event_type {
        EventType::PartialFill => own + state.subscribers_of(event.market).filter(
            is_connected(state.connected),
        ),
        EventType::FullFill => own,
        EventType::MarketPartialFill => own,
    }
}

/// Fan-out rules. An event that is no partial fill goes to nobody but the
/// user who sent the order. A partial fill goes to that user and to the
/// followers of its market, and to nobody else. Nobody without a session is
/// sent anything, and the user who sent the order is sent every event while
/// connected.
pub proof fn lemma_fan_out(state: RegistryView, event: EventView, user: Seq<char>)
    ensures
        event.event_type != EventType::PartialFill ==> (recipients(state, event).contains(user)
            <==> user == event.user_id && state.connected.contains(user)),
        event.event_type == EventType::PartialFill ==> (recipients(state, event).contains(user)
            <==> state.connected.contains(user) && (user == event.user_id
            || state.subscribers_of(event.market).contains(user))),
{
    let own = if state.connected.contains(event.user_id) {
        seq![event.user_id]
    } else {
        Seq::empty()
    };
    let listed = state.subscribers_of(event.market);
    let reached = listed.filter(is_connected(state.connected));
    if own.len() > 0 {
        assert(own[0] == event.user_id);
    }
    if event.event_type == EventType::PartialFill {
        let all = own + reached;
        if all.contains(user) {
            let i = choose|i: int| 0 <= i < all.len() && all[i] == user;
            if i >= own.len() {
                assert(reached[i - own.len()] == user);
                assert(reached.contains(user));
                listed.lemma_filter_pred(is_connected(state.connected), i - own.len());
                listed.lemma_filter_contains_rev(is_connected(state.connected), user);
            }
        }
        if state.connected.contains(user) && user == event.user_id {
            assert(all[0] == user);
        }
        if state.connected.contains(user) && listed.contains(user) {
            let at = choose|at: int| 0 <= at < listed.len() && listed[at] == user;
            listed.lemma_filter_contains(is_connected(state.connected), at);
            let k = choose|k: int| 0 <= k < reached.len() && reached[k] == user;
            assert(all[own.len() + k] == user);
        }
    }
}

/// The registry of the broadcaster: the send endpoint of each connected
/// user, and the followers of each market.
pub struct AppState {
    connections: DashMap<String, UnboundedSender<Message>>,
    subscribers: DashMap<MarketType, Vec<String>>,
}

impl View for AppState {
    type V = RegistryView;

    closed spec fn view(&self) -> RegistryView {
        RegistryView {
            connected: endpoints_of(self.connections),
            subscribers: followers_of(self.subscribers),
        }
    }
}

/// Whether `list` holds `user`.
fn holds(list: &Vec<String>, user: &String) -> (yes: bool)
    ensures
        yes == strings_view(list@).contains(user@),
{
    let mut i: usize = 0;
    while i < list.len()
        invariant
            0 <= i <= list.len(),
            forall|k: int| 0 <= k < i ==> strings_view(list@)[k] != user@,
        decreases list.len() - i,
    {
        if list[i] == *user {
            assert(strings_view(list@)[i as int] == user@);
            return true;
        }
        i = i + 1;
    }
    false
}

impl AppState {
    /// No user is listed twice among the followers of a market.
    pub open spec fn wf(&self) -> bool {
        self@.wf()
    }

    /// A registry without sessions and without followers.
    pub fn new() -> (state: AppState)
        ensures
            state@.connected == nobody(),
            state@.subscribers == unfollowed(),
            state.wf(),
    {
        AppState { connections: endpoints_new(), subscribers: followers_new() }
    }

    /// Records the send endpoint of a session of `user_id`, in place of the
    /// endpoint of an earlier session of the same user.
    pub fn register(&mut self, user_id: String, endpoint: UnboundedSender<Message>)
        ensures
            final(self)@.connected == old(self)@.connected.insert(user_id@),
            final(self)@.subscribers == old(self)@.subscribers,
    {
        endpoints_insert(&mut self.connections, user_id, endpoint);
    }

    /// Forgets the send endpoint of `user_id`. The user stays listed as a
    /// follower of the markets subscribed to.
    pub fn deregister(&mut self, user_id: &str)
        ensures
            final(self)@.connected == old(self)@.connected.remove(user_id@),
            final(self)@.subscribers == old(self)@.subscribers,
    {
        endpoints_remove(&mut self.connections, user_id);
    }

    /// Lists `user_id` as a follower of `market`, after those who follow it
    /// already; a user who follows it already is not listed again.
    pub fn subscribe(&mut self, user_id: String, market: MarketType)
        ensures
            final(self)@.connected == old(self)@.connected,
            final(self)@.subscribers == old(self)@.subscribers.insert(
                market,
                if old(self)@.subscribers_of(market).contains(user_id@) {
                    old(self)@.subscribers_of(market)
                } else {
                    old(self)@.subscribers_of(market).push(user_id@)
                },
            ),
            final(self)@.subscribers_of(market).contains(user_id@),
            old(self).wf() ==> final(self).wf(),
    {
        let mut list = match followers_get(&self.subscribers, market) {
            Some(list) => list,
            None => Vec::new(),
        };
        let ghost before = strings_view(list@);
        proof {
            assert(before =~= old(self)@.subscribers_of(market));
        }
        if !holds(&list, &user_id) {
            list.push(user_id);
            proof {
                assert(strings_view(list@) =~= before.push(user_id@));
                assert(strings_view(list@)[before.len() as int] == user_id@);
            }
        }
        let ghost after = strings_view(list@);
        followers_insert(&mut self.subscribers, market, list);
        proof {
            if old(self).wf() {
                assert forall|other: MarketType| #[trigger]
                    self@.subscribers.contains_key(other) implies self@.subscribers[other].no_duplicates() by {
                    if other != market {
                        assert(old(self)@.subscribers.contains_key(other));
                    } else if old(self)@.subscribers.contains_key(market) {
                        assert(before.no_duplicates());
                    }
                }
            }
        }
    }

    /// Carries out a command that the session of `user_id` received.
    pub fn apply_command(&mut self, user_id: String, command: IncomingMarketType)
        ensures
            final(self)@.connected == old(self)@.connected,
            match command {
                IncomingMarketType::SubscribeOrderbook(market) => final(self)@.subscribers == old(
                    self,
                )@.subscribers.insert(
                    market,
                    if old(self)@.subscribers_of(market).contains(user_id@) {
                        old(self)@.subscribers_of(market)
                    } else {
                        old(self)@.subscribers_of(market).push(user_id@)
                    },
                ),
            },
            old(self).wf() ==> final(self).wf(),
    {
        match command {
            IncomingMarketType::SubscribeOrderbook(market) => self.subscribe(user_id, market),
        }
    }
}

/// What a session reports to the registry.
pub enum SessionEvent {
    /// The session began; it hands over the endpoint on which it takes
    /// messages for its client.
    Opened(UnboundedSender<Message>),
    /// The client sent a frame that reads as a command.
    Received(IncomingMarketType),
    /// The client sent a frame that reads as nothing known.
    Unreadable,
    /// The session ended: the client left, or a write to it failed.
    Closed,
}

/// What a report of a session of `user` does to the registry: the start
/// records the user as connected, a command is carried out, a frame that
/// cannot be read changes nothing, and the end removes the user's
/// connection while leaving the markets followed as they are.
pub open spec fn after_session_event(
    state: RegistryView,
    user: Seq<char>,
    event: SessionEvent,
) -> RegistryView {
    match event {
        SessionEvent::Opened(_) => RegistryView {
            connected: state.connected.insert(user),
            subscribers: state.subscribers,
        },
        SessionEvent::Received(IncomingMarketType::SubscribeOrderbook(market)) => RegistryView {
            connected: state.connected,
            subscribers: state.subscribers.insert(
                market,
                if state.subscribers_of(market).contains(user) {
                    state.subscribers_of(market)
                } else {
                    state.subscribers_of(market).push(user)
                },
            ),
        },
        SessionEvent::Unreadable => state,
        SessionEvent::Closed => RegistryView {
            connected: state.connected.remove(user),
            subscribers: state.subscribers,
        },
    }
}

/// Decides whether a session may begin: it needs the user it is for.
/// Returns that user, or the words of the refusal.
pub fn ws_handler(user_id: Option<String>) -> (session: Result<String, String>)
    ensures
        match user_id {
            Some(user) => session.is_ok() && session.unwrap()@ == user@,
            None => session.is_err() && session.unwrap_err()@ == "Missing user_id"@,
        },
{
    match user_id {
        Some(user) => Ok(user),
        None => Err("Missing user_id".to_owned()),
    }
}

/// Takes one report of the session of `user_id` into the registry.
pub fn handle_socket(state: &mut AppState, user_id: String, event: SessionEvent)
    ensures
        final(state)@ == after_session_event(old(state)@, user_id@, event),
        old(state).wf() ==> final(state).wf(),
{
    match event {
        SessionEvent::Opened(endpoint) => state.register(user_id, endpoint),
        SessionEvent::Received(command) => state.apply_command(user_id, command),
        SessionEvent::Unreadable => {},
        SessionEvent::Closed => state.deregister(user_id.as_str()),
    }
}

/// Sends `payload`, the event in its transport form, to everyone the
/// event is for, and returns the users to whom a send was issued, in the
/// order of the sends. A send that the endpoint refuses is not tried again.
pub fn handle_event(event: &MatchEvent, payload: &str, state: &AppState) -> (sent: Vec<String>)
    ensures
        strings_view(sent@) == recipients(state@, event@),
{
    let mut sent: Vec<String> = Vec::new();
    match endpoints_get(&state.connections, event.user_id.as_str()) {
        Some(endpoint) => {
            send_text(&endpoint, payload);
            sent.push(event.user_id.clone());
        },
        None => {},
    }
    let ghost own = strings_view(sent@);
    proof {
        if state@.connected.contains(event@.user_id) {
            assert(own =~= seq![event@.user_id]);
        } else {
            assert(own =~= Seq::<Seq<char>>::empty());
        }
    }
    match event.event_type {
        EventType::PartialFill => {
            let list = match followers_get(&state.subscribers, event.market) {
                Some(list) => list,
                None => Vec::new(),
            };
            let ghost listed = strings_view(list@);
            let ghost reach = is_connected(state@.connected);
            proof {
                assert(listed =~= state@.subscribers_of(event@.market));
                reveal(Seq::filter);
                assert(listed.take(0).filter(reach) =~= Seq::<Seq<char>>::empty());
                assert(own + Seq::<Seq<char>>::empty() =~= own);
            }
            let mut i: usize = 0;
            while i < list.len()
                invariant
                    0 <= i <= list.len(),
                    listed == strings_view(list@),
                    reach == is_connected(state@.connected),
                    strings_view(sent@) == own + listed.take(i as int).filter(reach),
                decreases list.len() - i,
            {
                let ghost seen = strings_view(sent@);
                let ghost so_far = listed.take(i as int).filter(reach);
                proof {
                    reveal(Seq::filter);
                    assert(listed.take(i + 1).drop_last() =~= listed.take(i as int));
                    assert(listed.take(i + 1).last() == list@[i as int]@);
                }
                match endpoints_get(&state.connections, list[i].as_str()) {
                    Some(endpoint) => {
                        send_text(&endpoint, payload);
                        sent.push(list[i].clone());
                        proof {
                            assert(strings_view(sent@) =~= seen.push(list@[i as int]@));
                            assert(seen.push(list@[i as int]@) =~= own + so_far.push(
                                list@[i as int]@,
                            ));
                        }
                    },
                    None => {},
                }
                i = i + 1;
            }
            proof {
                assert(listed.take(list.len() as int) =~= listed);
            }
        },
        EventType::FullFill => {},
        EventType::MarketPartialFill => {},
    }
    sent
}

} // verus!
