//! The protocol: what a node does when a session opens, closes or delivers
//! bytes.
//!
//! The node keeps the presence table and at most one message that waits to
//! be sent. For every event of the transport it changes its state and
//! answers with the frames that the transport is to send.

use vstd::prelude::*;
use crate::codec::{decode, decoding, encode, lemma_decoding_inverts_encoding, DecodeError};
use crate::identity::{peer_base58, PeerId, SessionId};
use crate::payload::{texts, Message, MessageView, Payload, PayloadView, Peers, PeersView};
use crate::presence::{peer_views, Presence, PresenceTable};
use crate::wire::encoding;

verus! {

/// A frame for the transport to send.
#[derive(Debug, PartialEq, Eq)]
pub enum Action {
    /// Send `data` to one session.
    Send { session: SessionId, data: Vec<u8> },
    /// Send `data` to every open session.
    Broadcast { data: Vec<u8> },
}

/// A frame for the transport to send, as plain values.
pub enum ActionView {
    Send { session: SessionId, data: Seq<u8> },
    Broadcast { data: Seq<u8> },
}

impl View for Action {
    type V = ActionView;

    open spec fn view(&self) -> ActionView {
        match self {
            Action::Send { session, data } => ActionView::Send { session: *session, data: data@ },
            Action::Broadcast { data } => ActionView::Broadcast { data: data@ },
        }
    }
}

impl Clone for Action {
    fn clone(&self) -> (copy: Action)
        ensures
            copy@ == self@,
    {
        match self {
            Action::Send { session, data } => {
                let data = data.clone();
                Action::Send { session: *session, data }
            },
            Action::Broadcast { data } => {
                let data = data.clone();
                Action::Broadcast { data }
            },
        }
    }
}

/// The frames in `actions`, in order.
pub open spec fn action_views(actions: Seq<Action>) -> Seq<ActionView> {
    actions.map_values(|action: Action| action@)
}

/// The text forms of the identities in `peers`, in order.
pub open spec fn peer_texts(peers: Seq<Seq<u8>>) -> Seq<Seq<char>> {
    peers.map_values(|peer: Seq<u8>| peer_base58(peer).unwrap())
}

/// The announcement that `reachable` became reachable and `unreachable` no
/// longer are.
pub open spec fn announcement(reachable: Seq<Seq<u8>>, unreachable: Seq<Seq<u8>>) -> PayloadView {
    PayloadView::Peers(
        PeersView {
            reachable_peers: peer_texts(reachable),
            disconnected_peers: peer_texts(unreachable),
        },
    )
}

/// What a node holds: the presence table and the message that waits to be
/// sent, if there is one.
pub struct StateView {
    pub presence: Presence,
    pub pending: Option<MessageView>,
}

impl StateView {
    /// The node at start-up.
    pub open spec fn start(pending: Option<MessageView>) -> StateView {
        StateView { presence: Presence::empty(), pending }
    }

    /// The node after a session opened: the waiting message is gone.
    pub open spec fn connected(self) -> StateView {
        StateView { presence: self.presence, pending: None }
    }

    /// What the node sends when `session` opens: to that session the peers
    /// that are reachable, then the waiting message if there is one.
    pub open spec fn connected_actions(self, session: SessionId) -> Seq<ActionView> {
        let announce = ActionView::Send {
            session,
            data: encoding(announcement(self.presence.order, Seq::empty())),
        };
        match self.pending {
            Some(message) => seq![
                announce,
                ActionView::Send { session, data: encoding(PayloadView::Message(message)) },
            ],
            None => seq![announce],
        }
    }

    /// The node after `session` closed.
    pub open spec fn disconnected(self, session: SessionId) -> StateView {
        StateView { presence: self.presence.disconnect(session), pending: self.pending }
    }

    /// What the node sends when `session` closes: to every session the
    /// peers that are no longer reachable, or nothing if every peer still
    /// is.
    pub open spec fn disconnected_actions(self, session: SessionId) -> Seq<ActionView> {
        let gone = self.presence.dropped(session);
        if gone.len() > 0 {
            seq![ActionView::Broadcast { data: encoding(announcement(Seq::empty(), gone)) }]
        } else {
            Seq::empty()
        }
    }
}

/// What can happen to a node.
pub enum Event {
    /// A session opened.
    Connected { session: SessionId },
    /// A session closed.
    Disconnected { session: SessionId },
    /// A session delivered bytes.
    Received { session: SessionId, data: Seq<u8> },
    /// The caller learnt that `session` reaches `peer`.
    Identified { peer: Seq<u8>, session: SessionId },
}

/// Whether `action` sends a directed message.
pub open spec fn is_directed(action: ActionView) -> bool {
    match action {
        ActionView::Send { session, data } => decoding(data) matches Ok(PayloadView::Message(_)),
        ActionView::Broadcast { data } => false,
    }
}

/// How many of `actions` send a directed message.
pub open spec fn directed_count(actions: Seq<ActionView>) -> nat {
    actions.filter(|action: ActionView| is_directed(action)).len()
}

impl StateView {
    /// The node after `event`.
    pub open spec fn after(self, event: Event) -> StateView {
        match event {
            Event::Connected { session } => self.connected(),
            Event::Disconnected { session } => self.disconnected(session),
            Event::Received { session, data } => self,
            Event::Identified { peer, session } => StateView {
                presence: self.presence.connect(peer, session),
                pending: self.pending,
            },
        }
    }

    /// What the node sends on `event`.
    pub open spec fn actions_on(self, event: Event) -> Seq<ActionView> {
        match event {
            Event::Connected { session } => self.connected_actions(session),
            Event::Disconnected { session } => self.disconnected_actions(session),
            Event::Received { session, data } => Seq::empty(),
            Event::Identified { peer, session } => Seq::empty(),
        }
    }

    /// The node after `events`, one after the other.
    pub open spec fn after_all(self, events: Seq<Event>) -> StateView
        decreases events.len(),
    {
        if events.len() == 0 {
            self
        } else {
            self.after(events[0]).after_all(events.drop_first())
        }
    }

    /// All that the node sends on `events`, one after the other.
    pub open spec fn actions_on_all(self, events: Seq<Event>) -> Seq<ActionView>
        decreases events.len(),
    {
        if events.len() == 0 {
            Seq::empty()
        } else {
            self.actions_on(events[0]) + self.after(events[0]).actions_on_all(
                events.drop_first(),
            )
        }
    }

    /// When a session opens, the waiting message is sent, and it is sent
    /// only then: once if a message waits, else not at all.
    pub proof fn lemma_directed_on_event(self, event: Event)
        ensures
            directed_count(self.actions_on(event)) == if event is Connected
                && self.pending is Some {
                1nat
            } else {
                0nat
            },
            event is Connected ==> self.after(event).pending is None,
            !(event is Connected) ==> self.after(event).pending == self.pending,
    {
        let directed = |action: ActionView| is_directed(action);
        let actions = self.actions_on(event);
        reveal_with_fuel(Seq::filter, 3);
        match event {
            Event::Connected { session } => {
                let peers = announcement(self.presence.order, Seq::empty());
                lemma_decoding_inverts_encoding(peers);
                match self.pending {
                    Some(message) => {
                        lemma_decoding_inverts_encoding(PayloadView::Message(message));
                        assert(actions.drop_last() =~= seq![actions[0]]);
                        assert(actions.drop_last().drop_last() =~= Seq::empty());
                    },
                    None => {
                        assert(actions.drop_last() =~= Seq::empty());
                    },
                }
            },
            Event::Disconnected { session } => {
                if actions.len() > 0 {
                    assert(actions.drop_last() =~= Seq::empty());
                }
            },
            _ => {},
        }
    }

    /// The waiting message is sent once: on the first session that opens,
    /// whatever else happens before or after. A node that started without
    /// a message never sends one.
    pub proof fn lemma_pending_message_sent_once(self, events: Seq<Event>)
        ensures
            directed_count(self.actions_on_all(events)) == if self.pending is Some && exists|
                i: int,
            |
                0 <= i < events.len() && #[trigger] events[i] is Connected {
                1nat
            } else {
                0nat
            },
        decreases events.len(),
    {
        let directed = |action: ActionView| is_directed(action);
        if events.len() == 0 {
            reveal_with_fuel(Seq::filter, 1);
        } else {
            let first = events[0];
            let rest = events.drop_first();
            self.lemma_directed_on_event(first);
            self.after(first).lemma_pending_message_sent_once(rest);
            Seq::filter_distributes_over_add(
                self.actions_on(first),
                self.after(first).actions_on_all(rest),
                directed,
            );
            if exists|i: int| 0 <= i < rest.len() && #[trigger] rest[i] is Connected {
                let i = choose|i: int| 0 <= i < rest.len() && #[trigger] rest[i] is Connected;
                assert(events[i + 1] is Connected);
            }
            if exists|i: int| 0 <= i < events.len() && #[trigger] events[i] is Connected {
                let i = choose|i: int| 0 <= i < events.len() && #[trigger] events[i] is Connected;
                if i > 0 {
                    assert(rest[i - 1] is Connected);
                }
            }
        }
    }

    /// The presence invariant holds whatever happens to a node that
    /// started with an empty table.
    pub proof fn lemma_presence_stays_wf(self, events: Seq<Event>)
        requires
            self.presence.wf(),
        ensures
            self.after_all(events).presence.wf(),
        decreases events.len(),
    {
        if events.len() > 0 {
            match events[0] {
                Event::Disconnected { session } => {
                    self.presence.lemma_disconnect_wf(session);
                },
                Event::Identified { peer, session } => {
                    self.presence.lemma_connect_wf(peer, session);
                },
                _ => {},
            }
            self.after(events[0]).lemma_presence_stays_wf(events.drop_first());
        }
    }
}

/// The state of a node.
#[derive(Debug)]
pub struct State {
    reachable_peers: PresenceTable,
    pending_message: Option<Message>,
}

impl View for State {
    type V = StateView;

    closed spec fn view(&self) -> StateView {
        StateView {
            presence: self.reachable_peers@,
            pending: match self.pending_message {
                Some(message) => Some(message@),
                None => None,
            },
        }
    }
}

fn base58_texts(peers: &Vec<PeerId>) -> (ids: Vec<String>)
    ensures
        texts(ids@) == peer_texts(peer_views(peers@)),
{
    let mut ids: Vec<String> = Vec::new();
    let mut i: usize = 0;
    while i < peers.len()
        invariant
            i <= peers@.len(),
            texts(ids@) == peer_texts(peer_views(peers@).take(i as int)),
        decreases peers@.len() - i,
    {
        let ghost before = texts(ids@);
        ids.push(peers[i].to_base58());
        proof {
            assert(texts(ids@) =~= before.push(peers@[i as int].base58()));
            assert(peer_views(peers@).take(i + 1) =~= peer_views(peers@).take(i as int).push(
                peers@[i as int]@,
            ));
            assert(peer_texts(peer_views(peers@).take(i + 1)) =~= peer_texts(
                peer_views(peers@).take(i as int),
            ).push(peers@[i as int].base58()));
        }
        i = i + 1;
    }
    proof {
        assert(peer_views(peers@).take(i as int) =~= peer_views(peers@));
    }
    ids
}

impl State {
    /// The state of a node at start-up: no peer is reachable, and
    /// `pending_message` waits for the first session.
    pub fn new(pending_message: Option<Message>) -> (state: State)
        ensures
            state@ == StateView::start(
                match pending_message {
                    Some(message) => Some(message@),
                    None => None,
                },
            ),
            state@.presence.wf(),
    {
        State { reachable_peers: PresenceTable::new(), pending_message }
    }

    /// A session opened.
    ///
    /// The node tells the new session which peers are reachable, and sends
    /// it the waiting message, whoever the recipient is. The transport does
    /// not say which peer the session belongs to, so the presence table
    /// stays as it is: see [`State::record_connected`].
    pub fn connected(&mut self, session: SessionId) -> (actions: Vec<Action>)
        ensures
            final(self)@ == old(self)@.connected(),
            action_views(actions@) == old(self)@.connected_actions(session),
    {
        let peers = self.reachable_peers.currently_reachable_peers();
        let payload = Payload::Peers(
            Peers { reachable_peers: base58_texts(&peers), disconnected_peers: Vec::new() },
        );
        proof {
            assert(texts(Seq::<String>::empty()) =~= peer_texts(Seq::empty()));
        }
        let mut actions: Vec<Action> = Vec::new();
        actions.push(Action::Send { session, data: encode(&payload) });
        if let Some(message) = self.pending_message.take() {
            let payload = Payload::Message(message);
            actions.push(Action::Send { session, data: encode(&payload) });
        }
        proof {
            assert(action_views(actions@) =~= old(self)@.connected_actions(session));
        }
        actions
    }

    /// Records that `session` closed and returns the peers that are no
    /// longer reachable.
    pub fn disconnect(&mut self, id: SessionId) -> (gone: Vec<PeerId>)
        ensures
            final(self)@ == old(self)@.disconnected(id),
            peer_views(gone@) == old(self)@.presence.dropped(id),
            final(self)@.presence.wf(),
    {
        self.reachable_peers.record_disconnected(id)
    }

    /// A session closed.
    ///
    /// The peers that it alone reached are no longer reachable. If there
    /// are any, the node tells every open session.
    pub fn disconnected(&mut self, session: SessionId) -> (actions: Vec<Action>)
        ensures
            final(self)@ == old(self)@.disconnected(session),
            action_views(actions@) == old(self)@.disconnected_actions(session),
            final(self)@.presence.wf(),
    {
        let peers = self.disconnect(session);
        let mut actions: Vec<Action> = Vec::new();
        if peers.len() > 0 {
            let payload = Payload::Peers(
                Peers { reachable_peers: Vec::new(), disconnected_peers: base58_texts(&peers) },
            );
            proof {
                assert(texts(Seq::<String>::empty()) =~= peer_texts(Seq::empty()));
            }
            actions.push(Action::Broadcast { data: encode(&payload) });
        }
        proof {
            assert(action_views(actions@) =~= old(self)@.disconnected_actions(session));
        }
        actions
    }

    /// A session delivered `data`.
    ///
    /// The node decodes the payload and hands it back; its state stays as
    /// it is, also where the bytes are malformed.
    pub fn received(&self, _session: SessionId, data: &[u8]) -> (payload: Result<
        Payload,
        DecodeError,
    >)
        ensures
            match payload {
                Ok(payload) => decoding(data@) == Ok::<PayloadView, DecodeError>(payload@),
                Err(error) => decoding(data@) == Err::<PayloadView, DecodeError>(error),
            },
    {
        decode(data)
    }

    /// Records that `session` reaches `peer`.
    ///
    /// This is for a caller that has learnt which peer a session belongs
    /// to; the node itself never does.
    pub fn record_connected(&mut self, peer: PeerId, session: SessionId)
        ensures
            final(self)@ == (StateView {
                presence: old(self)@.presence.connect(peer@, session),
                pending: old(self)@.pending,
            }),
            final(self)@.presence.wf(),
    {
        self.reachable_peers.record_connected(peer, session)
    }

    /// The peers that are reachable now.
    pub fn currently_reachable_peers(&self) -> (peers: Vec<PeerId>)
        ensures
            peer_views(peers@) == self@.presence.order,
    {
        self.reachable_peers.currently_reachable_peers()
    }

    /// Whether a message still waits to be sent.
    pub fn has_pending_message(&self) -> (waiting: bool)
        ensures
            waiting == self@.pending is Some,
    {
        self.pending_message.is_some()
    }
}

} // verus!
