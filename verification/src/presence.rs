//! The presence table: which peers are reachable, and over which sessions.
//!
//! A peer may be reached over several sessions at once. It is reachable as
//! long as one of them is open, and leaves the table with its last session.

use vstd::prelude::*;
use crate::identity::{PeerId, SessionId};

verus! {

/// What a presence table holds: for each reachable peer the sessions that
/// reach it, and the peers in the order in which they became reachable.
/// Peers are named by the bytes of their identity.
pub struct Presence {
    pub sessions: Map<Seq<u8>, Set<SessionId>>,
    pub order: Seq<Seq<u8>>,
}

impl Presence {
    /// The table before any session was recorded.
    pub open spec fn empty() -> Presence {
        Presence { sessions: Map::empty(), order: Seq::empty() }
    }

    /// A peer is listed exactly if it is reachable, it is listed once, and a
    /// reachable peer has at least one session.
    pub open spec fn wf(self) -> bool {
        &&& self.order.no_duplicates()
        &&& forall|peer: Seq<u8>| self.sessions.contains_key(peer) <==> self.order.contains(peer)
        &&& forall|peer: Seq<u8>| #[trigger]
            self.sessions.contains_key(peer) ==> self.sessions[peer].finite()
                && self.sessions[peer].len() > 0
    }

    /// Whether some session reaches `peer`.
    pub open spec fn reachable(self, peer: Seq<u8>) -> bool {
        self.sessions.contains_key(peer)
    }

    /// The sessions that reach `peer`: none if it is not reachable.
    pub open spec fn sessions_of(self, peer: Seq<u8>) -> Set<SessionId> {
        if self.sessions.contains_key(peer) {
            self.sessions[peer]
        } else {
            Set::empty()
        }
    }

    /// The table after `session` was recorded for `peer`.
    pub open spec fn connect(self, peer: Seq<u8>, session: SessionId) -> Presence {
        Presence {
            sessions: self.sessions.insert(peer, self.sessions_of(peer).insert(session)),
            order: if self.sessions.contains_key(peer) {
                self.order
            } else {
                self.order.push(peer)
            },
        }
    }

    /// Whether `peer` is reached over a session other than `session`.
    pub open spec fn outlives(self, peer: Seq<u8>, session: SessionId) -> bool {
        self.sessions.contains_key(peer) && exists|other: SessionId|
            #[trigger] self.sessions[peer].contains(other) && other != session
    }

    /// The peers that stay reachable when `session` closes.
    pub open spec fn outlives_pred(self, session: SessionId) -> spec_fn(Seq<u8>) -> bool {
        |peer: Seq<u8>| self.outlives(peer, session)
    }

    /// The peers that do not stay reachable when `session` closes.
    pub open spec fn gone_pred(self, session: SessionId) -> spec_fn(Seq<u8>) -> bool {
        |peer: Seq<u8>| !self.outlives(peer, session)
    }

    /// The table after `session` closed: the session is taken from every
    /// peer, and a peer that it alone reached is no longer listed.
    pub open spec fn disconnect(self, session: SessionId) -> Presence {
        Presence {
            sessions: Map::new(
                |peer: Seq<u8>| self.outlives(peer, session),
                |peer: Seq<u8>| self.sessions[peer].remove(session),
            ),
            order: self.order.filter(self.outlives_pred(session)),
        }
    }

    /// The peers that stop being reachable when `session` closes, in the
    /// order of the table.
    pub open spec fn dropped(self, session: SessionId) -> Seq<Seq<u8>> {
        self.order.filter(self.gone_pred(session))
    }
}

/// Filtering a sequence that has one more element.
proof fn lemma_filter_push<A>(s: Seq<A>, last: A, pred: spec_fn(A) -> bool)
    ensures
        s.push(last).filter(pred) == if pred(last) {
            s.filter(pred).push(last)
        } else {
            s.filter(pred)
        },
{
    reveal(Seq::filter);
    assert(s.push(last).drop_last() =~= s);
}

/// What a sequence with one more element holds.
proof fn lemma_push_members<A>(s: Seq<A>, last: A)
    ensures
        forall|a: A| #[trigger] s.push(last).contains(a) <==> s.contains(a) || a == last,
        s.no_duplicates() && !s.contains(last) ==> s.push(last).no_duplicates(),
{
    let t = s.push(last);
    assert forall|a: A| #[trigger] t.contains(a) <==> s.contains(a) || a == last by {
        if t.contains(a) {
            let i = choose|i: int| 0 <= i < t.len() && t[i] == a;
            if i < s.len() {
                assert(s[i] == a);
            }
        }
        if s.contains(a) {
            let i = choose|i: int| 0 <= i < s.len() && s[i] == a;
            assert(t[i] == a);
        }
        if a == last {
            assert(t[s.len() as int] == a);
        }
    }
    if s.no_duplicates() && !s.contains(last) {
        assert forall|i: int, j: int| 0 <= i < t.len() && 0 <= j < t.len() && i != j implies t[i]
            != t[j] by {
            if i < s.len() {
                assert(s[i] == t[i]);
            }
            if j < s.len() {
                assert(s[j] == t[j]);
            }
        }
    }
}

/// What a filtered sequence holds, and that it repeats nothing where the
/// sequence repeats nothing.
proof fn lemma_filter_members<A>(s: Seq<A>, pred: spec_fn(A) -> bool)
    ensures
        forall|a: A| #[trigger] s.filter(pred).contains(a) <==> s.contains(a) && pred(a),
        s.no_duplicates() ==> s.filter(pred).no_duplicates(),
    decreases s.len(),
{
    if s.len() == 0 {
        reveal(Seq::filter);
        assert(s.filter(pred) =~= Seq::<A>::empty());
    } else {
        let front = s.drop_last();
        let last = s.last();
        lemma_filter_members(front, pred);
        assert(s =~= front.push(last));
        lemma_filter_push(front, last, pred);
        lemma_push_members(front, last);
        lemma_push_members(front.filter(pred), last);
        if s.no_duplicates() {
            assert(front.no_duplicates());
            if front.contains(last) {
                let j = choose|j: int| 0 <= j < front.len() && front[j] == last;
                assert(s[j] == s[s.len() - 1]);
            }
        }
    }
}

impl Presence {
    /// The empty table is well formed.
    pub proof fn lemma_empty_wf()
        ensures
            Presence::empty().wf(),
    {
    }

    /// Recording a session keeps the table well formed: the presence
    /// invariant holds after every `connect`.
    pub proof fn lemma_connect_wf(self, peer: Seq<u8>, session: SessionId)
        requires
            self.wf(),
        ensures
            self.connect(peer, session).wf(),
    {
        lemma_push_members(self.order, peer);
    }

    /// Closing a session keeps the table well formed: the presence invariant
    /// holds after every `disconnect`, so no peer is ever listed without a
    /// session.
    pub proof fn lemma_disconnect_wf(self, session: SessionId)
        requires
            self.wf(),
        ensures
            self.disconnect(session).wf(),
    {
        let after = self.disconnect(session);
        lemma_filter_members(self.order, self.outlives_pred(session));
        assert forall|p: Seq<u8>| #[trigger]
            after.sessions.contains_key(p) implies after.sessions[p].finite()
            && after.sessions[p].len() > 0 by {
            let other = choose|other: SessionId|
                #[trigger] self.sessions[p].contains(other) && other != session;
            assert(after.sessions[p].contains(other));
        }
    }

    /// A peer is reachable exactly if some session reaches it.
    pub proof fn lemma_reachable_iff_session(self, peer: Seq<u8>)
        requires
            self.wf(),
        ensures
            self.reachable(peer) <==> exists|s: SessionId| self.sessions_of(peer).contains(s),
            self.reachable(peer) <==> self.order.contains(peer),
    {
        if self.reachable(peer) {
            assert(self.sessions[peer].finite() && self.sessions[peer].len() > 0);
            let s = self.sessions[peer].choose();
            assert(self.sessions_of(peer).contains(s));
        }
    }

    /// Closing a session drops exactly the peers that it alone reached, each
    /// of them once; every other peer stays, with its other sessions.
    pub proof fn lemma_disconnect_drops_last_session(self, session: SessionId)
        requires
            self.wf(),
        ensures
            self.dropped(session).no_duplicates(),
            forall|peer: Seq<u8>| #[trigger]
                self.dropped(session).contains(peer) <==> self.sessions_of(peer) =~= set![session],
            forall|peer: Seq<u8>| #[trigger]
                self.disconnect(session).reachable(peer) <==> self.reachable(peer)
                    && !self.dropped(session).contains(peer),
            forall|peer: Seq<u8>| #[trigger]
                self.disconnect(session).reachable(peer) ==> self.disconnect(session).sessions_of(
                    peer,
                ) == self.sessions_of(peer).remove(session),
    {
        lemma_filter_members(self.order, self.gone_pred(session));
        assert forall|peer: Seq<u8>| #[trigger]
            self.dropped(session).contains(peer) <==> self.sessions_of(peer) =~= set![
                session,
            ] by {
            if self.sessions.contains_key(peer) {
                let held = self.sessions[peer];
                assert(held.finite() && held.len() > 0);
                if !self.outlives(peer, session) {
                    assert(held.contains(held.choose()));
                    assert(held =~= set![session]);
                } else {
                    let other = choose|other: SessionId|
                        #[trigger] self.sessions[peer].contains(other) && other != session;
                    assert(!set![session].contains(other));
                }
            } else {
                assert(set![session].contains(session));
            }
        }
    }

    /// Recording the same session for the same peer a second time changes
    /// nothing.
    pub proof fn lemma_connect_idempotent(self, peer: Seq<u8>, session: SessionId)
        ensures
            self.connect(peer, session).connect(peer, session) == self.connect(peer, session),
    {
        let once = self.connect(peer, session);
        let twice = once.connect(peer, session);
        assert(once.sessions_of(peer).insert(session) =~= once.sessions_of(peer));
        assert(twice.sessions =~= once.sessions);
    }
}

/// A change that is recorded in the table.
pub enum Change {
    /// `session` reaches `peer`.
    Connected { peer: Seq<u8>, session: SessionId },
    /// `session` closed.
    Disconnected { session: SessionId },
}

/// Whether `session` is live for `peer` after `changes`: it was recorded
/// for the peer and has not closed since.
pub open spec fn live(changes: Seq<Change>, peer: Seq<u8>, session: SessionId) -> bool {
    exists|i: int|
        0 <= i < changes.len() && #[trigger] changes[i] == (Change::Connected { peer, session })
            && forall|j: int|
            i < j < changes.len() ==> #[trigger] changes[j] != (Change::Disconnected { session })
}

impl Presence {
    /// The table after `change`.
    pub open spec fn apply(self, change: Change) -> Presence {
        match change {
            Change::Connected { peer, session } => self.connect(peer, session),
            Change::Disconnected { session } => self.disconnect(session),
        }
    }

    /// The table after `changes`, one after the other.
    pub open spec fn apply_all(self, changes: Seq<Change>) -> Presence
        decreases changes.len(),
    {
        if changes.len() == 0 {
            self
        } else {
            self.apply_all(changes.drop_last()).apply(changes.last())
        }
    }

    /// After any changes to an empty table, the table is well formed, the
    /// sessions it holds for a peer are the live ones, and so a peer is
    /// listed exactly if one of its sessions is live.
    pub proof fn lemma_table_holds_live_sessions(changes: Seq<Change>)
        ensures
            Presence::empty().apply_all(changes).wf(),
            forall|peer: Seq<u8>, session: SessionId|
                Presence::empty().apply_all(changes).sessions_of(peer).contains(session) <==> live(
                    changes,
                    peer,
                    session,
                ),
            forall|peer: Seq<u8>|
                Presence::empty().apply_all(changes).reachable(peer) <==> exists|
                    session: SessionId,
                | live(changes, peer, session),
        decreases changes.len(),
    {
        let table = Presence::empty().apply_all(changes);
        if changes.len() > 0 {
            let earlier = changes.drop_last();
            let before = Presence::empty().apply_all(earlier);
            Self::lemma_table_holds_live_sessions(earlier);
            match changes.last() {
                Change::Connected { peer, session } => {
                    before.lemma_connect_wf(peer, session);
                },
                Change::Disconnected { session } => {
                    before.lemma_disconnect_wf(session);
                },
            }
            assert forall|peer: Seq<u8>, session: SessionId|
                table.sessions_of(peer).contains(session) <==> live(changes, peer, session) by {
                lemma_live_step(changes, peer, session);
            }
        }
        assert forall|peer: Seq<u8>| table.reachable(peer) <==> exists|session: SessionId|
            live(changes, peer, session) by {
            table.lemma_reachable_iff_session(peer);
            if table.reachable(peer) {
                let session = choose|session: SessionId|
                    table.sessions_of(peer).contains(session);
                assert(live(changes, peer, session));
            }
            if exists|session: SessionId| live(changes, peer, session) {
                let session = choose|session: SessionId| live(changes, peer, session);
                assert(table.sessions_of(peer).contains(session));
            }
        }
    }
}

/// How the last change bears on whether a session is live.
proof fn lemma_live_step(changes: Seq<Change>, peer: Seq<u8>, session: SessionId)
    requires
        changes.len() > 0,
    ensures
        live(changes, peer, session) <==> match changes.last() {
            Change::Connected { peer: p, session: s } => (p == peer && s == session) || live(
                changes.drop_last(),
                peer,
                session,
            ),
            Change::Disconnected { session: s } => s != session && live(
                changes.drop_last(),
                peer,
                session,
            ),
        },
{
    let earlier = changes.drop_last();
    let last = changes.len() - 1;
    let wanted = Change::Connected { peer, session };
    let closing = Change::Disconnected { session };
    if live(changes, peer, session) {
        let i = choose|i: int|
            0 <= i < changes.len() && #[trigger] changes[i] == wanted && forall|j: int|
                i < j < changes.len() ==> #[trigger] changes[j] != closing;
        if i < last {
            assert(changes[last] != closing);
            assert(earlier[i] == wanted);
            assert forall|j: int| i < j < earlier.len() implies #[trigger] earlier[j]
                != closing by {
                assert(changes[j] != closing);
            }
        }
    }
    if live(earlier, peer, session) && changes.last() != closing {
        let i = choose|i: int|
            0 <= i < earlier.len() && #[trigger] earlier[i] == wanted && forall|j: int|
                i < j < earlier.len() ==> #[trigger] earlier[j] != closing;
        assert(changes[i] == wanted);
        assert forall|j: int| i < j < changes.len() implies #[trigger] changes[j] != closing by {
            if j < last {
                assert(earlier[j] != closing);
            }
        }
    }
    if changes.last() == wanted {
        assert(changes[last] == wanted);
    }
}

/// The identities in `peers` as bytes, in order.
pub open spec fn peer_views(peers: Seq<PeerId>) -> Seq<Seq<u8>> {
    peers.map_values(|peer: PeerId| peer@)
}

/// One peer of the table with the sessions that reach it.
#[derive(Debug)]
struct PeerSessions {
    peer: PeerId,
    sessions: Vec<SessionId>,
}

spec fn peers_of(entries: Seq<PeerSessions>) -> Seq<Seq<u8>> {
    entries.map_values(|entry: PeerSessions| entry.peer@)
}

spec fn sessions_map(entries: Seq<PeerSessions>) -> Map<Seq<u8>, Set<SessionId>> {
    Map::new(
        |peer: Seq<u8>| peers_of(entries).contains(peer),
        |peer: Seq<u8>| entries[peers_of(entries).index_of(peer)].sessions@.to_set(),
    )
}

spec fn model_of(entries: Seq<PeerSessions>) -> Presence {
    Presence { sessions: sessions_map(entries), order: peers_of(entries) }
}

/// No peer has two entries, and no entry is without a session or holds a
/// session twice.
spec fn entries_wf(entries: Seq<PeerSessions>) -> bool {
    &&& peers_of(entries).no_duplicates()
    &&& forall|i: int| 0 <= i < entries.len() ==> (#[trigger] entries[i]).sessions@.len() > 0
    &&& forall|i: int|
        0 <= i < entries.len() ==> (#[trigger] entries[i]).sessions@.no_duplicates()
}

/// The entry at `i` is the one the table holds for its peer.
proof fn lemma_lookup(entries: Seq<PeerSessions>, i: int)
    requires
        peers_of(entries).no_duplicates(),
        0 <= i < entries.len(),
    ensures
        sessions_map(entries).contains_key(entries[i].peer@),
        sessions_map(entries)[entries[i].peer@] == entries[i].sessions@.to_set(),
{
    let peers = peers_of(entries);
    assert(peers[i] == entries[i].peer@);
    let j = peers.index_of(entries[i].peer@);
    assert(0 <= j < peers.len() && peers[j] == peers[i]);
}

/// A peer of the table has an entry.
proof fn lemma_entry_of(entries: Seq<PeerSessions>, peer: Seq<u8>) -> (i: int)
    requires
        peers_of(entries).contains(peer),
    ensures
        0 <= i < entries.len(),
        entries[i].peer@ == peer,
{
    let peers = peers_of(entries);
    let i = choose|i: int| 0 <= i < peers.len() && peers[i] == peer;
    i
}

proof fn lemma_model_wf(entries: Seq<PeerSessions>)
    requires
        entries_wf(entries),
    ensures
        model_of(entries).wf(),
{
    let model = model_of(entries);
    assert forall|peer: Seq<u8>| #[trigger]
        model.sessions.contains_key(peer) implies model.sessions[peer].finite()
        && model.sessions[peer].len() > 0 by {
        let i = lemma_entry_of(entries, peer);
        lemma_lookup(entries, i);
        let held = entries[i].sessions@;
        vstd::seq_lib::seq_to_set_is_finite(held);
        assert(held.to_set().contains(held[0]));
    }
}

/// The presence table.
///
/// It is changed only by [`PresenceTable::record_connected`] and
/// [`PresenceTable::record_disconnected`], each of which leaves it in the
/// state that [`Presence::connect`] and [`Presence::disconnect`] describe.
/// Both take the table by `&mut`, so no reader ever sees it half changed.
#[derive(Debug)]
pub struct PresenceTable {
    entries: Vec<PeerSessions>,
}

impl View for PresenceTable {
    type V = Presence;

    closed spec fn view(&self) -> Presence {
        model_of(self.entries@)
    }
}

fn find_peer(entries: &Vec<PeerSessions>, peer: &PeerId) -> (found: Option<usize>)
    ensures
        match found {
            Some(i) => i < entries@.len() && entries@[i as int].peer@ == peer@,
            None => !peers_of(entries@).contains(peer@),
        },
{
    let mut i: usize = 0;
    while i < entries.len()
        invariant
            i <= entries@.len(),
            forall|k: int| 0 <= k < i ==> (#[trigger] entries@[k]).peer@ != peer@,
        decreases entries@.len() - i,
    {
        if entries[i].peer == *peer {
            return Some(i);
        }
        i = i + 1;
    }
    proof {
        if peers_of(entries@).contains(peer@) {
            let k = lemma_entry_of(entries@, peer@);
            assert(entries@[k].peer@ == peer@);
        }
    }
    None
}

fn holds_session(sessions: &Vec<SessionId>, session: SessionId) -> (held: bool)
    ensures
        held == sessions@.contains(session),
{
    let mut i: usize = 0;
    while i < sessions.len()
        invariant
            i <= sessions@.len(),
            forall|k: int| 0 <= k < i ==> sessions@[k] != session,
        decreases sessions@.len() - i,
    {
        if sessions[i] == session {
            return true;
        }
        i = i + 1;
    }
    false
}

/// The sessions of `sessions` other than `session`, in order.
fn other_sessions(sessions: &Vec<SessionId>, session: SessionId) -> (rest: Vec<SessionId>)
    requires
        sessions@.no_duplicates(),
    ensures
        rest@.no_duplicates(),
        rest@.to_set() =~= sessions@.to_set().remove(session),
{
    let mut rest: Vec<SessionId> = Vec::new();
    let mut i: usize = 0;
    while i < sessions.len()
        invariant
            i <= sessions@.len(),
            sessions@.no_duplicates(),
            rest@.no_duplicates(),
            forall|s: SessionId| #[trigger]
                rest@.contains(s) <==> sessions@.take(i as int).contains(s) && s != session,
        decreases sessions@.len() - i,
    {
        let s = sessions[i];
        proof {
            assert(sessions@.take(i + 1) =~= sessions@.take(i as int).push(s));
            lemma_push_members(sessions@.take(i as int), s);
            lemma_push_members(rest@, s);
            if sessions@.take(i as int).contains(s) {
                let k = choose|k: int|
                    0 <= k < sessions@.take(i as int).len() && sessions@.take(i as int)[k] == s;
                assert(sessions@[k] == sessions@[i as int]);
            }
        }
        if s != session {
            rest.push(s);
        }
        i = i + 1;
    }
    proof {
        assert(sessions@.take(i as int) =~= sessions@);
    }
    rest
}

impl PresenceTable {
    #[verifier::type_invariant]
    spec fn inv(self) -> bool {
        entries_wf(self.entries@)
    }

    /// A table in which no peer is reachable.
    pub fn new() -> (table: PresenceTable)
        ensures
            table@ == Presence::empty(),
            table@.wf(),
    {
        let table = PresenceTable { entries: Vec::new() };
        proof {
            assert(peers_of(table.entries@) =~= Seq::empty());
            assert(sessions_map(table.entries@) =~= Map::empty());
        }
        table
    }

    /// Records that `session` reaches `peer`. Recording it again changes
    /// nothing.
    pub fn record_connected(&mut self, peer: PeerId, session: SessionId)
        ensures
            final(self)@ == old(self)@.connect(peer@, session),
            final(self)@.wf(),
    {
        proof {
            use_type_invariant(&*self);
        }
        let mut entries: Vec<PeerSessions> = Vec::new();
        std::mem::swap(&mut self.entries, &mut entries);
        let ghost before = entries@;
        let ghost want = model_of(before).connect(peer@, session);
        match find_peer(&entries, &peer) {
            Some(i) => {
                proof {
                    lemma_lookup(before, i as int);
                }
                if !holds_session(&entries[i].sessions, session) {
                    entries[i].sessions.push(session);
                    proof {
                        let after = entries@;
                        lemma_push_members(before[i as int].sessions@, session);
                        assert(peers_of(after) =~= peers_of(before));
                        assert(entries_wf(after)) by {
                            assert forall|k: int| 0 <= k < after.len() implies (
                            #[trigger] after[k]).sessions@.len() > 0
                                && after[k].sessions@.no_duplicates() by {
                                if k != i {
                                    assert(after[k] == before[k]);
                                }
                            }
                        }
                        assert(sessions_map(after) =~= want.sessions) by {
                            assert forall|p: Seq<u8>| #[trigger]
                                sessions_map(after).contains_key(p) implies sessions_map(after)[p]
                                == want.sessions[p] by {
                                let k = lemma_entry_of(after, p);
                                lemma_lookup(after, k);
                                lemma_lookup(before, k);
                                if k != i {
                                    assert(after[k] == before[k]);
                                    assert(peers_of(before)[k] != peers_of(before)[i as int]);
                                } else {
                                    assert(after[k].sessions@.to_set() =~= before[k].sessions@.to_set().insert(
                                        session,
                                    ));
                                }
                            }
                        }
                    }
                } else {
                    proof {
                        assert(model_of(before).sessions_of(peer@).insert(session) =~= model_of(
                            before,
                        ).sessions_of(peer@));
                        assert(sessions_map(before) =~= want.sessions);
                    }
                }
            },
            None => {
                let mut sessions: Vec<SessionId> = Vec::new();
                sessions.push(session);
                let ghost peer_bytes = peer@;
                entries.push(PeerSessions { peer, sessions });
                proof {
                    let after = entries@;
                    lemma_push_members(peers_of(before), peer_bytes);
                    assert(peers_of(after) =~= peers_of(before).push(peer_bytes));
                    assert(entries_wf(after)) by {
                        assert forall|k: int| 0 <= k < after.len() implies (
                        #[trigger] after[k]).sessions@.len() > 0
                            && after[k].sessions@.no_duplicates() by {
                            if k < before.len() {
                                assert(after[k] == before[k]);
                            }
                        }
                    }
                    assert(sessions_map(after) =~= want.sessions) by {
                        assert forall|p: Seq<u8>| #[trigger]
                            sessions_map(after).contains_key(p) implies sessions_map(after)[p]
                            == want.sessions[p] by {
                            let k = lemma_entry_of(after, p);
                            lemma_lookup(after, k);
                            if k < before.len() {
                                assert(after[k] == before[k]);
                                lemma_lookup(before, k);
                                assert(peers_of(before)[k] == p);
                            } else {
                                lemma_push_members(Seq::<SessionId>::empty(), session);
                                assert(after[k].sessions@ =~= Seq::<SessionId>::empty().push(
                                    session,
                                ));
                                assert(after[k].sessions@.to_set() =~= Set::empty().insert(
                                    session,
                                ));
                            }
                        }
                    }
                }
            },
        }
        proof {
            lemma_model_wf(entries@);
        }
        self.entries = entries;
    }

    /// Records that `session` closed, and returns the peers that are no
    /// longer reachable: those that no other session reaches. They leave
    /// the table.
    pub fn record_disconnected(&mut self, session: SessionId) -> (gone: Vec<PeerId>)
        ensures
            final(self)@ == old(self)@.disconnect(session),
            peer_views(gone@) == old(self)@.dropped(session),
            final(self)@.wf(),
    {
        proof {
            use_type_invariant(&*self);
        }
        let ghost before = self.entries@;
        let ghost model = model_of(before);
        let mut kept: Vec<PeerSessions> = Vec::new();
        let mut gone: Vec<PeerId> = Vec::new();
        let mut i: usize = 0;
        proof {
            reveal(Seq::filter);
            assert(peers_of(before).take(0) =~= Seq::empty());
            assert(peers_of(kept@) =~= Seq::empty());
            assert(peer_views(gone@) =~= Seq::empty());
        }
        while i < self.entries.len()
            invariant
                i <= before.len(),
                self.entries@ == before,
                model == model_of(before),
                entries_wf(before),
                peers_of(kept@) == peers_of(before).take(i as int).filter(
                    model.outlives_pred(session),
                ),
                peer_views(gone@) == peers_of(before).take(i as int).filter(
                    model.gone_pred(session),
                ),
                forall|k: int|
                    0 <= k < kept@.len() ==> {
                        &&& (#[trigger] kept@[k]).sessions@.len() > 0
                        &&& kept@[k].sessions@.no_duplicates()
                        &&& model.sessions.contains_key(kept@[k].peer@)
                        &&& kept@[k].sessions@.to_set() == model.sessions[kept@[k].peer@].remove(
                            session,
                        )
                    },
            decreases before.len() - i,
        {
            let entry = &self.entries[i];
            let rest = other_sessions(&entry.sessions, session);
            let peer = entry.peer.clone();
            proof {
                let p = entry.peer@;
                lemma_lookup(before, i as int);
                assert(peers_of(before).take(i + 1) =~= peers_of(before).take(i as int).push(p));
                lemma_filter_push(
                    peers_of(before).take(i as int),
                    p,
                    model.outlives_pred(session),
                );
                lemma_filter_push(peers_of(before).take(i as int), p, model.gone_pred(session));
                if rest@.len() > 0 {
                    assert(rest@.to_set().contains(rest@[0]));
                    assert(model.sessions[p].contains(rest@[0]));
                    assert(model.outlives(p, session));
                } else {
                    if model.outlives(p, session) {
                        let other = choose|other: SessionId|
                            #[trigger] model.sessions[p].contains(other) && other != session;
                        assert(rest@.to_set().contains(other));
                        assert(rest@.contains(other));
                    }
                }
            }
            if rest.len() == 0 {
                let ghost gone_before = gone@;
                gone.push(peer);
                proof {
                    assert(peer_views(gone@) =~= peer_views(gone_before).push(entry.peer@));
                }
            } else {
                let ghost kept_before = kept@;
                kept.push(PeerSessions { peer, sessions: rest });
                proof {
                    assert(peers_of(kept@) =~= peers_of(kept_before).push(entry.peer@));
                    assert forall|k: int| 0 <= k < kept@.len() implies {
                        &&& (#[trigger] kept@[k]).sessions@.len() > 0
                        &&& kept@[k].sessions@.no_duplicates()
                        &&& model.sessions.contains_key(kept@[k].peer@)
                        &&& kept@[k].sessions@.to_set() == model.sessions[kept@[k].peer@].remove(
                            session,
                        )
                    } by {
                        if k < kept_before.len() {
                            assert(kept@[k] == kept_before[k]);
                        }
                    }
                }
            }
            i = i + 1;
        }
        proof {
            let after = kept@;
            let want = model.disconnect(session);
            assert(peers_of(before).take(i as int) =~= peers_of(before));
            lemma_filter_members(peers_of(before), model.outlives_pred(session));
            assert(entries_wf(after));
            assert(sessions_map(after) =~= want.sessions) by {
                assert forall|p: Seq<u8>|
                    sessions_map(after).contains_key(p) <==> want.sessions.contains_key(p) by {
                    if model.outlives(p, session) {
                        assert(peers_of(before).contains(p));
                    }
                }
                assert forall|p: Seq<u8>| #[trigger]
                    sessions_map(after).contains_key(p) implies sessions_map(after)[p]
                    == want.sessions[p] by {
                    let k = lemma_entry_of(after, p);
                    lemma_lookup(after, k);
                }
            }
            lemma_model_wf(after);
        }
        self.entries = kept;
        gone
    }

    /// The peers that are reachable now, in the order in which they became
    /// reachable.
    pub fn currently_reachable_peers(&self) -> (peers: Vec<PeerId>)
        ensures
            peer_views(peers@) == self@.order,
    {
        let mut peers: Vec<PeerId> = Vec::new();
        let mut i: usize = 0;
        while i < self.entries.len()
            invariant
                i <= self.entries@.len(),
                peer_views(peers@) == peers_of(self.entries@).take(i as int),
            decreases self.entries@.len() - i,
        {
            let ghost peers_before = peers@;
            peers.push(self.entries[i].peer.clone());
            proof {
                assert(peer_views(peers@) =~= peer_views(peers_before).push(
                    self.entries@[i as int].peer@,
                ));
                assert(peers_of(self.entries@).take(i + 1) =~= peers_of(self.entries@).take(
                    i as int,
                ).push(self.entries@[i as int].peer@));
            }
            i = i + 1;
        }
        proof {
            assert(peers_of(self.entries@).take(i as int) =~= peers_of(self.entries@));
        }
        peers
    }

    /// Whether some session reaches `peer`.
    pub fn is_reachable(&self, peer: &PeerId) -> (reachable: bool)
        ensures
            reachable == self@.reachable(peer@),
    {
        match find_peer(&self.entries, peer) {
            Some(i) => {
                assert(peers_of(self.entries@)[i as int] == peer@);
                true
            },
            None => false,
        }
    }

    /// The sessions that reach `peer`, each of them once.
    pub fn sessions(&self, peer: &PeerId) -> (sessions: Vec<SessionId>)
        ensures
            sessions@.no_duplicates(),
            sessions@.to_set() == self@.sessions_of(peer@),
    {
        proof {
            use_type_invariant(self);
        }
        match find_peer(&self.entries, peer) {
            Some(i) => {
                proof {
                    lemma_lookup(self.entries@, i as int);
                }
                let sessions = self.entries[i].sessions.clone();
                assert(sessions@ =~= self.entries@[i as int].sessions@);
                sessions
            },
            None => {
                let sessions: Vec<SessionId> = Vec::new();
                assert(sessions@.to_set() =~= Set::empty());
                sessions
            },
        }
    }
}

} // verus!
