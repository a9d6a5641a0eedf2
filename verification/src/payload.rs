//! The two kinds of message that peers exchange.

use vstd::prelude::*;

verus! {

/// The texts held in `strings`, in order.
pub open spec fn texts(strings: Seq<String>) -> Seq<Seq<char>> {
    strings.map_values(|s: String| s@)
}

/// Announcement of peers that became reachable and of peers that no longer
/// are. Peers are named by the text form of their identity.
#[derive(Debug, PartialEq, Eq)]
pub struct Peers {
    pub reachable_peers: Vec<String>,
    pub disconnected_peers: Vec<String>,
}

/// A text addressed to one peer.
#[derive(Debug, PartialEq, Eq)]
pub struct Message {
    pub recipient: String,
    pub message: String,
}

/// What one frame on the wire carries.
#[derive(Debug, PartialEq, Eq)]
pub enum Payload {
    Peers(Peers),
    Message(Message),
}

/// An announcement of peers, as plain values.
pub struct PeersView {
    pub reachable_peers: Seq<Seq<char>>,
    pub disconnected_peers: Seq<Seq<char>>,
}

/// A directed message, as plain values.
pub struct MessageView {
    pub recipient: Seq<char>,
    pub message: Seq<char>,
}

/// A payload, as plain values.
pub enum PayloadView {
    Peers(PeersView),
    Message(MessageView),
}

impl View for Peers {
    type V = PeersView;

    open spec fn view(&self) -> PeersView {
        PeersView {
            reachable_peers: texts(self.reachable_peers@),
            disconnected_peers: texts(self.disconnected_peers@),
        }
    }
}

impl View for Message {
    type V = MessageView;

    open spec fn view(&self) -> MessageView {
        MessageView { recipient: self.recipient@, message: self.message@ }
    }
}

impl View for Payload {
    type V = PayloadView;

    open spec fn view(&self) -> PayloadView {
        match self {
            Payload::Peers(peers) => PayloadView::Peers(peers@),
            Payload::Message(message) => PayloadView::Message(message@),
        }
    }
}

/// A copy of each text, in order.
fn copy_texts(items: &Vec<String>) -> (copy: Vec<String>)
    ensures
        texts(copy@) == texts(items@),
{
    let mut copy: Vec<String> = Vec::new();
    let mut i: usize = 0;
    while i < items.len()
        invariant
            i <= items@.len(),
            texts(copy@) == texts(items@).take(i as int),
        decreases items@.len() - i,
    {
        let ghost before = texts(copy@);
        copy.push(items[i].clone());
        proof {
            assert(texts(copy@) =~= before.push(items@[i as int]@));
            assert(texts(items@).take(i + 1) =~= texts(items@).take(i as int).push(
                items@[i as int]@,
            ));
        }
        i = i + 1;
    }
    proof {
        assert(texts(items@).take(i as int) =~= texts(items@));
    }
    copy
}

impl Clone for Peers {
    fn clone(&self) -> (copy: Peers)
        ensures
            copy@ == self@,
    {
        Peers {
            reachable_peers: copy_texts(&self.reachable_peers),
            disconnected_peers: copy_texts(&self.disconnected_peers),
        }
    }
}

impl Clone for Message {
    fn clone(&self) -> (copy: Message)
        ensures
            copy@ == self@,
    {
        Message { recipient: self.recipient.clone(), message: self.message.clone() }
    }
}

impl Clone for Payload {
    fn clone(&self) -> (copy: Payload)
        ensures
            copy@ == self@,
    {
        match self {
            Payload::Peers(peers) => Payload::Peers(peers.clone()),
            Payload::Message(message) => Payload::Message(message.clone()),
        }
    }
}

} // verus!
