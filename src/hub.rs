//! The connection hub: who is connected, under which name, and which bytes
//! each event sends to which peer.
use vstd::prelude::*;
use crate::codec::{decode_frames, encode_frame, encoded, frames_of, lemma_round_trip, trim, views, CARET};
use crate::command::{parse_request, parsed, Request, RequestModel, SLASH};

verus! {

/// Frames longer than this are dropped unanswered.
pub const MAX_FRAME: usize = 100;

/// A connected peer as the model sees it: its id and its display name.
pub type PeerModel = (u64, Seq<u8>);

/// Bytes addressed to one peer, as the model sees them.
pub type SendModel = (u64, Seq<u8>);

/// One accepted connection.
pub struct Peer {
    /// The id that the caller gave the connection when it was accepted.
    pub id: u64,
    /// The peer's address, as it was when accepted.
    pub addr: Vec<u8>,
    /// The name shown before its chat lines.
    pub name: Vec<u8>,
}

/// Bytes to write to one connection.
pub struct Delivery {
    pub to: u64,
    pub bytes: Vec<u8>,
}

/// The registry of live connections and the rules of the chat.
pub struct Hub {
    peers: Vec<Peer>,
}

/// `: `
pub open spec fn chat_sep() -> Seq<u8> {
    seq![58u8, 32u8]
}

/// `Server: `
pub open spec fn server_label() -> Seq<u8> {
    seq![83u8, 101u8, 114u8, 118u8, 101u8, 114u8, 58u8, 32u8]
}

/// ` connected to chat!`
pub open spec fn connected_text() -> Seq<u8> {
    seq![32u8, 99u8, 111u8, 110u8, 110u8, 101u8, 99u8, 116u8, 101u8, 100u8, 32u8, 116u8, 111u8, 32u8, 99u8, 104u8, 97u8, 116u8, 33u8]
}

/// ` changed to `
pub open spec fn changed_text() -> Seq<u8> {
    seq![32u8, 99u8, 104u8, 97u8, 110u8, 103u8, 101u8, 100u8, 32u8, 116u8, 111u8, 32u8]
}

/// `System: Your name is `
pub open spec fn your_name_text() -> Seq<u8> {
    seq![83u8, 121u8, 115u8, 116u8, 101u8, 109u8, 58u8, 32u8, 89u8, 111u8, 117u8, 114u8, 32u8, 110u8, 97u8, 109u8, 101u8, 32u8, 105u8, 115u8, 32u8]
}

/// The reply to a command that is not known.
pub open spec fn unknown_text() -> Seq<u8> {
    seq![83u8, 121u8, 115u8, 116u8, 101u8, 109u8, 58u8, 32u8, 117u8, 110u8, 107u8, 110u8, 111u8, 119u8, 110u8, 32u8, 99u8, 111u8, 109u8, 109u8, 97u8, 110u8, 100u8]
}

/// The reply to `/help`: each command with what it does.
pub open spec fn help_text() -> Seq<u8> {
    seq![83u8, 121u8, 115u8, 116u8, 101u8, 109u8, 58u8, 32u8, 47u8, 104u8, 101u8, 108u8, 112u8, 32u8, 45u8, 32u8, 108u8, 105u8, 115u8, 116u8, 32u8, 116u8, 104u8, 101u8, 32u8, 99u8, 111u8, 109u8, 109u8, 97u8, 110u8, 100u8, 115u8, 32u8, 124u8, 32u8, 47u8, 110u8, 97u8, 109u8, 101u8, 32u8, 91u8, 110u8, 105u8, 99u8, 107u8, 110u8, 97u8, 109u8, 101u8, 93u8, 32u8, 45u8, 32u8, 99u8, 104u8, 97u8, 110u8, 103u8, 101u8, 32u8, 121u8, 111u8, 117u8, 114u8, 32u8, 110u8, 105u8, 99u8, 107u8, 110u8, 97u8, 109u8, 101u8, 32u8, 124u8, 32u8, 47u8, 119u8, 104u8, 111u8, 97u8, 109u8, 105u8, 32u8, 45u8, 32u8, 115u8, 104u8, 111u8, 119u8, 32u8, 121u8, 111u8, 117u8, 114u8, 32u8, 110u8, 97u8, 109u8, 101u8]
}

/// A chat line: the sender's name, `: `, the text.
pub open spec fn chat_line(name: Seq<u8>, text: Seq<u8>) -> Seq<u8> {
    name + chat_sep() + text
}

/// The notice sent to everyone when a peer joins.
pub open spec fn joined_notice(name: Seq<u8>) -> Seq<u8> {
    server_label() + name + connected_text()
}

/// The notice sent to everyone when a peer takes a new name.
pub open spec fn renamed_notice(old_name: Seq<u8>, new_name: Seq<u8>) -> Seq<u8> {
    server_label() + old_name + changed_text() + new_name
}

/// The reply to `/whoami`.
pub open spec fn whoami_reply(name: Seq<u8>) -> Seq<u8> {
    your_name_text() + name
}

/// The model of a list of deliveries.
pub open spec fn sent(v: Seq<Delivery>) -> Seq<SendModel> {
    v.map_values(|d: Delivery| (d.to, d.bytes@))
}

/// One frame carrying `msg` to every peer, in the order of the registry.
pub open spec fn broadcast(peers: Seq<PeerModel>, msg: Seq<u8>) -> Seq<SendModel> {
    peers.map_values(|p: PeerModel| (p.0, encoded(msg)))
}

/// The last index that holds `id`, or -1.
pub open spec fn position(peers: Seq<PeerModel>, id: u64) -> int
    decreases peers.len(),
{
    if peers.len() == 0 {
        -1
    } else if peers.last().0 == id {
        peers.len() - 1
    } else {
        position(peers.drop_last(), id)
    }
}

/// No two peers share an id.
pub open spec fn ids_unique(peers: Seq<PeerModel>) -> bool {
    forall|i: int, j: int| 0 <= i < peers.len() && 0 <= j < peers.len() && i != j ==> peers[i].0 != peers[j].0
}

/// What one frame from the peer at index `k` does: the peers after it and
/// what it sends.
pub open spec fn step_frame(peers: Seq<PeerModel>, k: int, f: Seq<u8>) -> (Seq<PeerModel>, Seq<SendModel>) {
    let me = peers[k];
    if f.len() > MAX_FRAME {
        (peers, seq![])
    } else {
        match parsed(f) {
            RequestModel::Chat(t) => (peers, broadcast(peers, chat_line(me.1, t))),
            RequestModel::Help => (peers, seq![(me.0, encoded(help_text()))]),
            RequestModel::WhoAmI => (peers, seq![(me.0, encoded(whoami_reply(me.1)))]),
            RequestModel::Unknown => (peers, seq![(me.0, encoded(unknown_text()))]),
            RequestModel::Name(n) => if n.len() == 0 {
                (peers, seq![])
            } else {
                (peers.update(k, (me.0, n)), broadcast(peers, renamed_notice(me.1, n)))
            },
        }
    }
}

/// What a run of frames from the peer at index `k` does, in order.
pub open spec fn step_frames(peers: Seq<PeerModel>, k: int, fs: Seq<Seq<u8>>) -> (Seq<PeerModel>, Seq<SendModel>)
    decreases fs.len(),
{
    if fs.len() == 0 {
        (peers, seq![])
    } else {
        let (p, s) = step_frames(peers, k, fs.drop_last());
        let (p2, s2) = step_frame(p, k, fs.last());
        (p2, s + s2)
    }
}

/// What a read of `raw` from connection `id` does.
pub open spec fn step_receive(peers: Seq<PeerModel>, id: u64, raw: Seq<u8>) -> (Seq<PeerModel>, Seq<SendModel>) {
    let k = position(peers, id);
    if k < 0 {
        (peers, seq![])
    } else {
        step_frames(peers, k, frames_of(raw))
    }
}

/// The registry once connection `id` is gone.
pub open spec fn without(peers: Seq<PeerModel>, id: u64) -> Seq<PeerModel> {
    let k = position(peers, id);
    if k < 0 {
        peers
    } else {
        peers.remove(k)
    }
}

proof fn lemma_position(peers: Seq<PeerModel>, id: u64)
    ensures
        -1 <= position(peers, id) < peers.len(),
        position(peers, id) >= 0 ==> peers[position(peers, id)].0 == id,
        position(peers, id) < 0 ==> forall|j: int| 0 <= j < peers.len() ==> peers[j].0 != id,
    decreases peers.len(),
{
    if peers.len() > 0 {
        lemma_position(peers.drop_last(), id);
        if peers.last().0 != id {
            assert forall|j: int| 0 <= j < peers.len() - 1 implies peers[j] == peers.drop_last()[j] by {}
        }
    }
}

proof fn lemma_step_frames_keeps(peers: Seq<PeerModel>, k: int, fs: Seq<Seq<u8>>)
    requires
        0 <= k < peers.len(),
        ids_unique(peers),
    ensures
        step_frames(peers, k, fs).0.len() == peers.len(),
        ids_unique(step_frames(peers, k, fs).0),
        forall|j: int| 0 <= j < peers.len() ==> #[trigger] step_frames(peers, k, fs).0[j].0 == peers[j].0,
    decreases fs.len(),
{
    if fs.len() > 0 {
        lemma_step_frames_keeps(peers, k, fs.drop_last());
    }
}

/// Copies `src` onto the end of `dst`.
fn push_all(dst: &mut Vec<u8>, src: &[u8])
    ensures
        final(dst)@ == old(dst)@ + src@,
{
    let mut i: usize = 0;
    while i < src.len()
        invariant
            i <= src@.len(),
            dst@ =~= old(dst)@ + src@.subrange(0, i as int),
        decreases src@.len() - i,
    {
        dst.push(src[i]);
        i = i + 1;
    }
    assert(src@.subrange(0, i as int) =~= src@);
}

impl Hub {
    /// The peers, each as its id and display name, in order of arrival.
    pub closed spec fn view(&self) -> Seq<PeerModel> {
        self.peers@.map_values(|p: Peer| (p.id, p.name@))
    }

    pub closed spec fn wf(&self) -> bool {
        ids_unique(self.view())
    }

    /// A hub with no connection.
    pub fn new() -> (r: Hub)
        ensures
            r.wf(),
            r.view() == Seq::<PeerModel>::empty(),
    {
        let r = Hub { peers: Vec::new() };
        assert(r.view() =~= Seq::<PeerModel>::empty());
        r
    }

    /// How many connections are registered.
    pub fn len(&self) -> (r: usize)
        ensures
            r == self.view().len(),
    {
        self.peers.len()
    }

    /// The index of connection `id`, if it is registered.
    pub fn find(&self, id: u64) -> (r: Option<usize>)
        ensures
            r is None <==> position(self.view(), id) < 0,
            r matches Some(k) ==> k == position(self.view(), id),
    {
        let ghost v = self.view();
        let mut i: usize = self.peers.len();
        assert(v.take(i as int) =~= v);
        while i > 0 && self.peers[i - 1].id != id
            invariant
                i <= self.peers@.len(),
                v == self.view(),
                position(v.take(i as int), id) == position(v, id),
            decreases i,
        {
            assert(v.take(i as int).drop_last() =~= v.take(i - 1));
            i = i - 1;
        }
        if i == 0 {
            None
        } else {
            Some(i - 1)
        }
    }

    /// One frame carrying `msg` to every connection.
    fn broadcast(&self, msg: &[u8]) -> (r: Vec<Delivery>)
        ensures
            sent(r@) == broadcast(self.view(), msg@),
    {
        let mut r: Vec<Delivery> = Vec::new();
        let mut j: usize = 0;
        while j < self.peers.len()
            invariant
                j <= self.peers@.len(),
                sent(r@) =~= broadcast(self.view(), msg@).take(j as int),
            decreases self.peers@.len() - j,
        {
            let bytes = encode_frame(msg);
            let ghost before = r@;
            let d = Delivery { to: self.peers[j].id, bytes };
            r.push(d);
            assert(sent(r@) =~= sent(before).push((d.to, d.bytes@)));
            assert(self.view()[j as int].0 == self.peers@[j as int].id);
            j = j + 1;
        }
        assert(broadcast(self.view(), msg@).take(j as int) =~= broadcast(self.view(), msg@));
        r
    }

    /// Registers connection `id`, whose peer is at `addr`, and tells
    /// everyone, the newcomer included, that it joined. An id that is
    /// already registered changes nothing and sends nothing.
    pub fn connect(&mut self, id: u64, addr: &[u8]) -> (r: Vec<Delivery>)
        requires
            old(self).wf(),
        ensures
            final(self).wf(),
            position(old(self).view(), id) >= 0 ==> final(self).view() == old(self).view() && r@.len() == 0,
            position(old(self).view(), id) < 0 ==> {
                &&& final(self).view() == old(self).view().push((id, addr@))
                &&& sent(r@) == broadcast(final(self).view(), joined_notice(addr@))
            },
    {
        if self.find(id).is_some() {
            return Vec::new();
        }
        proof {
            lemma_position(self.view(), id);
        }
        let mut a: Vec<u8> = Vec::new();
        push_all(&mut a, addr);
        let mut n: Vec<u8> = Vec::new();
        push_all(&mut n, addr);
        let ghost before = self.view();
        self.peers.push(Peer { id, addr: a, name: n });
        assert(self.view() =~= before.push((id, addr@)));
        let mut msg: Vec<u8> = Vec::new();
        push_all(&mut msg, &[83u8, 101u8, 114u8, 118u8, 101u8, 114u8, 58u8, 32u8]);
        push_all(&mut msg, addr);
        push_all(&mut msg, &[32u8, 99u8, 111u8, 110u8, 110u8, 101u8, 99u8, 116u8, 101u8, 100u8, 32u8, 116u8, 111u8, 32u8, 99u8, 104u8, 97u8, 116u8, 33u8]);
        self.broadcast(msg.as_slice())
    }

    /// Removes connection `id`, whether its peer closed the stream or a
    /// write to it failed; says whether it was registered.
    pub fn disconnect(&mut self, id: u64) -> (r: bool)
        requires
            old(self).wf(),
        ensures
            final(self).wf(),
            r == (position(old(self).view(), id) >= 0),
            final(self).view() == without(old(self).view(), id),
    {
        match self.find(id) {
            None => false,
            Some(k) => {
                proof {
                    lemma_position(self.view(), id);
                }
                let ghost before = self.view();
                self.peers.remove(k);
                assert(self.view() =~= before.remove(k as int));
                true
            },
        }
    }

    /// Handles one decoded frame from the connection at index `k`.
    fn handle_frame(&mut self, k: usize, f: &[u8]) -> (r: Vec<Delivery>)
        requires
            old(self).wf(),
            k < old(self).view().len(),
        ensures
            (final(self).view(), sent(r@)) == step_frame(old(self).view(), k as int, f@),
    {
        let ghost v = self.view();
        if f.len() > MAX_FRAME {
            return Vec::new();
        }
        let me = self.peers[k].id;
        match parse_request(f) {
            Request::Chat(t) => {
                let mut msg: Vec<u8> = Vec::new();
                push_all(&mut msg, self.peers[k].name.as_slice());
                push_all(&mut msg, &[58u8, 32u8]);
                push_all(&mut msg, t.as_slice());
                self.broadcast(msg.as_slice())
            },
            Request::Help => {
                let r = vec![Delivery { to: me, bytes: encode_frame(&[83u8, 121u8, 115u8, 116u8, 101u8, 109u8, 58u8, 32u8, 47u8, 104u8, 101u8, 108u8, 112u8, 32u8, 45u8, 32u8, 108u8, 105u8, 115u8, 116u8, 32u8, 116u8, 104u8, 101u8, 32u8, 99u8, 111u8, 109u8, 109u8, 97u8, 110u8, 100u8, 115u8, 32u8, 124u8, 32u8, 47u8, 110u8, 97u8, 109u8, 101u8, 32u8, 91u8, 110u8, 105u8, 99u8, 107u8, 110u8, 97u8, 109u8, 101u8, 93u8, 32u8, 45u8, 32u8, 99u8, 104u8, 97u8, 110u8, 103u8, 101u8, 32u8, 121u8, 111u8, 117u8, 114u8, 32u8, 110u8, 105u8, 99u8, 107u8, 110u8, 97u8, 109u8, 101u8, 32u8, 124u8, 32u8, 47u8, 119u8, 104u8, 111u8, 97u8, 109u8, 105u8, 32u8, 45u8, 32u8, 115u8, 104u8, 111u8, 119u8, 32u8, 121u8, 111u8, 117u8, 114u8, 32u8, 110u8, 97u8, 109u8, 101u8]) }];
                assert(sent(r@) =~= step_frame(v, k as int, f@).1);
                r
            },
            Request::WhoAmI => {
                let mut msg: Vec<u8> = Vec::new();
                push_all(&mut msg, &[83u8, 121u8, 115u8, 116u8, 101u8, 109u8, 58u8, 32u8, 89u8, 111u8, 117u8, 114u8, 32u8, 110u8, 97u8, 109u8, 101u8, 32u8, 105u8, 115u8, 32u8]);
                push_all(&mut msg, self.peers[k].name.as_slice());
                let r = vec![Delivery { to: me, bytes: encode_frame(msg.as_slice()) }];
                assert(sent(r@) =~= step_frame(v, k as int, f@).1);
                r
            },
            Request::Unknown => {
                let r = vec![Delivery { to: me, bytes: encode_frame(&[83u8, 121u8, 115u8, 116u8, 101u8, 109u8, 58u8, 32u8, 117u8, 110u8, 107u8, 110u8, 111u8, 119u8, 110u8, 32u8, 99u8, 111u8, 109u8, 109u8, 97u8, 110u8, 100u8]) }];
                assert(sent(r@) =~= step_frame(v, k as int, f@).1);
                r
            },
            Request::Name(n) => {
                if n.len() == 0 {
                    return Vec::new();
                }
                let mut msg: Vec<u8> = Vec::new();
                push_all(&mut msg, &[83u8, 101u8, 114u8, 118u8, 101u8, 114u8, 58u8, 32u8]);
                push_all(&mut msg, self.peers[k].name.as_slice());
                push_all(&mut msg, &[32u8, 99u8, 104u8, 97u8, 110u8, 103u8, 101u8, 100u8, 32u8, 116u8, 111u8, 32u8]);
                push_all(&mut msg, n.as_slice());
                let r = self.broadcast(msg.as_slice());
                let old_peer = self.peers.remove(k);
                self.peers.insert(k, Peer { id: old_peer.id, addr: old_peer.addr, name: n });
                assert(self.view() =~= v.update(k as int, (me, step_frame(v, k as int, f@).0[k as int].1)));
                r
            },
        }
    }

    /// Handles one read of `raw` from connection `id`: each frame it holds
    /// is chat text to relay or a command to answer, in order. A read from a
    /// connection that is not registered sends nothing.
    pub fn receive(&mut self, id: u64, raw: &[u8]) -> (r: Vec<Delivery>)
        requires
            old(self).wf(),
        ensures
            final(self).wf(),
            (final(self).view(), sent(r@)) == step_receive(old(self).view(), id, raw@),
    {
        let ghost v = self.view();
        let k = match self.find(id) {
            None => {
                return Vec::new();
            },
            Some(k) => k,
        };
        proof {
            lemma_position(v, id);
        }
        let frames = decode_frames(raw);
        let ghost fs = views(frames@);
        let mut out: Vec<Delivery> = Vec::new();
        let mut i: usize = 0;
        while i < frames.len()
            invariant
                v.len() == old(self).view().len(),
                k < v.len(),
                ids_unique(v),
                fs == views(frames@),
                i <= frames@.len(),
                (self.view(), sent(out@)) == step_frames(v, k as int, fs.take(i as int)),
            decreases frames@.len() - i,
        {
            proof {
                lemma_step_frames_keeps(v, k as int, fs.take(i as int));
                assert(fs.take(i + 1).drop_last() =~= fs.take(i as int));
            }
            let ghost before = out@;
            let mut d = self.handle_frame(k, frames[i].as_slice());
            let ghost dd = d@;
            out.append(&mut d);
            assert(sent(out@) =~= sent(before) + sent(dd));
            i = i + 1;
        }
        proof {
            assert(fs.take(i as int) =~= fs);
            lemma_step_frames_keeps(v, k as int, fs);
        }
        out
    }
}

/// The frames addressed to peer `c`, in the order they are sent.
pub open spec fn to_peer(sends: Seq<SendModel>, c: u64) -> Seq<Seq<u8>>
    decreases sends.len(),
{
    if sends.len() == 0 {
        seq![]
    } else if sends.last().0 == c {
        to_peer(sends.drop_last(), c).push(sends.last().1)
    } else {
        to_peer(sends.drop_last(), c)
    }
}

/// A frame that is plain chat text and travels unchanged.
pub open spec fn is_chat_text(f: Seq<u8>) -> bool {
    &&& 0 < f.len() <= MAX_FRAME
    &&& f[0] != SLASH
    &&& !f.contains(CARET)
    &&& trim(f) == f
}

/// The display name of a registered connection.
pub open spec fn name_of(peers: Seq<PeerModel>, id: u64) -> Seq<u8> {
    peers[position(peers, id)].1
}

/// Reads from the connections, one after another: the registry after
/// them and all that they send, in order.
pub open spec fn run(peers: Seq<PeerModel>, reads: Seq<(u64, Seq<u8>)>) -> (Seq<PeerModel>, Seq<SendModel>)
    decreases reads.len(),
{
    if reads.len() == 0 {
        (peers, seq![])
    } else {
        let (p, s) = run(peers, reads.drop_last());
        let (p2, s2) = step_receive(p, reads.last().0, reads.last().1);
        (p2, s + s2)
    }
}

proof fn lemma_to_peer_concat(a: Seq<SendModel>, b: Seq<SendModel>, c: u64)
    ensures
        to_peer(a + b, c) == to_peer(a, c) + to_peer(b, c),
    decreases b.len(),
{
    if b.len() == 0 {
        assert(a + b =~= a);
        assert(to_peer(a, c) + to_peer(b, c) =~= to_peer(a, c));
    } else {
        assert((a + b).drop_last() =~= a + b.drop_last());
        lemma_to_peer_concat(a, b.drop_last(), c);
        assert((a + b).last() == b.last());
        if b.last().0 == c {
            assert(to_peer(a, c) + to_peer(b, c) =~= (to_peer(a, c) + to_peer(b.drop_last(), c)).push(b.last().1));
        }
    }
}

proof fn lemma_to_peer_broadcast(peers: Seq<PeerModel>, msg: Seq<u8>, c: u64)
    requires
        ids_unique(peers),
    ensures
        position(peers, c) >= 0 ==> to_peer(broadcast(peers, msg), c) == seq![encoded(msg)],
        position(peers, c) < 0 ==> to_peer(broadcast(peers, msg), c) == Seq::<Seq<u8>>::empty(),
    decreases peers.len(),
{
    lemma_position(peers, c);
    if peers.len() > 0 {
        let q = peers.drop_last();
        assert(ids_unique(q));
        assert(broadcast(peers, msg).drop_last() =~= broadcast(q, msg));
        lemma_to_peer_broadcast(q, msg, c);
        lemma_position(q, c);
        if peers.last().0 == c {
            assert forall|j: int| 0 <= j < q.len() implies q[j].0 != c by {
                assert(peers[j] == q[j]);
                assert(peers[peers.len() - 1].0 == c);
            }
            if position(q, c) >= 0 {
                assert(q[position(q, c)].0 == c);
            }
        }
    }
}

/// A chat frame from a registered connection reaches every registered
/// connection, the sender too, once, and changes no name.
pub proof fn lemma_chat_reaches_all(peers: Seq<PeerModel>, a: u64, f: Seq<u8>)
    requires
        ids_unique(peers),
        position(peers, a) >= 0,
        is_chat_text(f),
    ensures
        step_receive(peers, a, encoded(f)) == (peers, broadcast(peers, chat_line(name_of(peers, a), f))),
{
    lemma_round_trip(f);
    let fs = frames_of(encoded(f));
    let k = position(peers, a);
    assert(fs.drop_last() =~= Seq::<Seq<u8>>::empty());
    assert(fs.last() == f);
    assert(step_frames(peers, k, fs.drop_last()) == (peers, Seq::<SendModel>::empty()));
    assert(parsed(f) == RequestModel::Chat(f));
    assert(step_frame(peers, k, f) == (peers, broadcast(peers, chat_line(name_of(peers, a), f))));
    assert(broadcast(peers, chat_line(name_of(peers, a), f)) =~= Seq::<SendModel>::empty() + broadcast(peers, chat_line(name_of(peers, a), f)));
}

/// Each message as the read that carries it: the sender and its encoding.
pub open spec fn as_reads(msgs: Seq<(u64, Seq<u8>)>) -> Seq<(u64, Seq<u8>)> {
    msgs.map_values(|m: (u64, Seq<u8>)| (m.0, encoded(m.1)))
}

/// Chat messages from registered connections, however their reads fall
/// in turn: every registered connection receives each of them exactly once,
/// in the order they were read, so the messages of one sender keep their
/// order.
pub proof fn lemma_fan_out(peers: Seq<PeerModel>, msgs: Seq<(u64, Seq<u8>)>, c: u64)
    requires
        ids_unique(peers),
        position(peers, c) >= 0,
        forall|i: int| 0 <= i < msgs.len() ==> position(peers, #[trigger] msgs[i].0) >= 0 && is_chat_text(msgs[i].1),
    ensures
        run(peers, as_reads(msgs)).0 == peers,
        to_peer(run(peers, as_reads(msgs)).1, c) == msgs.map_values(
            |m: (u64, Seq<u8>)| encoded(chat_line(name_of(peers, m.0), m.1)),
        ),
    decreases msgs.len(),
{
    if msgs.len() == 0 {
        assert(msgs.map_values(|m: (u64, Seq<u8>)| encoded(chat_line(name_of(peers, m.0), m.1))) =~= Seq::<Seq<u8>>::empty());
        assert(as_reads(msgs) =~= Seq::<(u64, Seq<u8>)>::empty());
    } else {
        let q = msgs.drop_last();
        assert forall|i: int| 0 <= i < q.len() implies position(peers, #[trigger] q[i].0) >= 0 && is_chat_text(q[i].1) by {
            assert(q[i] == msgs[i]);
        }
        lemma_fan_out(peers, q, c);
        let m = msgs.last();
        assert(m == msgs[msgs.len() - 1]);
        assert(as_reads(msgs).drop_last() =~= as_reads(q));
        assert(as_reads(msgs).last() == (m.0, encoded(m.1)));
        lemma_chat_reaches_all(peers, m.0, m.1);
        let msg = chat_line(name_of(peers, m.0), m.1);
        lemma_to_peer_concat(run(peers, as_reads(q)).1, broadcast(peers, msg), c);
        lemma_to_peer_broadcast(peers, msg, c);
        assert(msgs.map_values(|m: (u64, Seq<u8>)| encoded(chat_line(name_of(peers, m.0), m.1))) =~= q.map_values(
            |m: (u64, Seq<u8>)| encoded(chat_line(name_of(peers, m.0), m.1)),
        ).push(encoded(msg)));
    }
}

proof fn lemma_sends_stay_inside(peers: Seq<PeerModel>, k: int, fs: Seq<Seq<u8>>, b: u64)
    requires
        0 <= k < peers.len(),
        ids_unique(peers),
        position(peers, b) < 0,
    ensures
        forall|i: int| 0 <= i < step_frames(peers, k, fs).1.len() ==> (#[trigger] step_frames(peers, k, fs).1[i]).0 != b,
    decreases fs.len(),
{
    lemma_position(peers, b);
    if fs.len() > 0 {
        lemma_sends_stay_inside(peers, k, fs.drop_last(), b);
        lemma_step_frames_keeps(peers, k, fs.drop_last());
        let p = step_frames(peers, k, fs.drop_last()).0;
        let s = step_frames(peers, k, fs.drop_last()).1;
        let s2 = step_frame(p, k, fs.last()).1;
        assert forall|j: int| 0 <= j < p.len() implies p[j].0 != b by {
            assert(p[j].0 == peers[j].0);
        }
        assert forall|i: int| 0 <= i < s2.len() implies s2[i].0 != b by {}
        assert forall|i: int| 0 <= i < (s + s2).len() implies (s + s2)[i].0 != b by {
            if i >= s.len() {
                assert((s + s2)[i] == s2[i - s.len()]);
            }
        }
    }
}

/// Once connection `b` is removed, nothing that connection `a` sends is
/// written to `b`, and a chat message from `a` reaches every connection
/// left, once.
pub proof fn lemma_gone_peer_is_skipped(peers: Seq<PeerModel>, a: u64, b: u64, raw: Seq<u8>)
    requires
        ids_unique(peers),
    ensures
        forall|i: int| 0 <= i < step_receive(without(peers, b), a, raw).1.len()
            ==> (#[trigger] step_receive(without(peers, b), a, raw).1[i]).0 != b,
        position(peers, a) >= 0 && a != b && is_chat_text(raw) ==> step_receive(without(peers, b), a, encoded(raw))
            == (without(peers, b), broadcast(without(peers, b), chat_line(name_of(without(peers, b), a), raw))),
{
    let rest = without(peers, b);
    lemma_position(peers, b);
    lemma_position(peers, a);
    let kb = position(peers, b);
    assert(ids_unique(rest));
    assert forall|j: int| 0 <= j < rest.len() implies rest[j].0 != b by {
        if kb >= 0 {
            if j < kb {
                assert(rest[j] == peers[j]);
            } else {
                assert(rest[j] == peers[j + 1]);
            }
        }
    }
    lemma_position(rest, b);
    lemma_position(rest, a);
    if position(rest, a) >= 0 {
        lemma_sends_stay_inside(rest, position(rest, a), frames_of(raw), b);
    }
    if position(peers, a) >= 0 && a != b && is_chat_text(raw) {
        let ka = position(peers, a);
        if kb >= 0 {
            let j = if ka < kb { ka } else { ka - 1 };
            assert(rest[j].0 == a);
        } else {
            assert(rest[ka].0 == a);
        }
        lemma_chat_reaches_all(rest, a, raw);
    }
}

} // verus!
