//! One link: the protocol state of a connection to a peer, with the frames
//! that wait for its transport.
use vstd::prelude::*;

use crate::msg::{is_control_kind, kind_of, AppName, Computer, SbMsgData, SubKey};
use crate::wire::{enc_data, enc_frame, encode_frame, MAX_FRAME_LEN};

verus! {

/// What became of a frame handed to a link.
#[derive(Debug, Clone, Copy, PartialEq, Eq, Structural)]
pub enum SendStatus {
    /// The frame was queued for the transport.
    Sent,
    /// The peer has not asked for this kind from this origin.
    Filtered,
    /// The frame is larger than a transport carries; it was dropped.
    Oversize,
}

/// The state of a link, as the contracts see it.
pub struct LinkView {
    /// What this side wants from the peer.
    pub wanted: Seq<SubKey>,
    /// What the peer wants from this side.
    pub posts: Seq<SubKey>,
    pub last_sent: Option<u64>,
    pub last_received: u64,
    pub connected: bool,
    pub computer: Computer,
    pub app_name: AppName,
    pub send_seq: u16,
    pub recv_seq: Option<u16>,
    /// Frames waiting for the transport, oldest first.
    pub outbox: Seq<Seq<u8>>,
}

/// `a` followed by each key of `b` that is not already there.
pub open spec fn union_seq(a: Seq<SubKey>, b: Seq<SubKey>) -> Seq<SubKey>
    decreases b.len(),
{
    if b.len() == 0 {
        a
    } else {
        let u = union_seq(a, b.drop_last());
        if u.contains(b.last()) {
            u
        } else {
            u.push(b.last())
        }
    }
}

/// Whether a link carries a message of kind `kind` from origin `origin`.
pub open spec fn passes_filter(l: LinkView, kind: u64, origin: Computer) -> bool {
    is_control_kind(kind) || l.posts.contains((kind, origin))
}

/// The next sequence number after `s`, modulo 2^16.
pub open spec fn next_seq(s: u16) -> u16 {
    if s == 0xffff {
        0
    } else {
        (s + 1) as u16
    }
}

/// Sending the payload encoded as `data` (of kind `kind`) from
/// `origin`.`app` on link `l`: the new link and what became of the frame.
pub open spec fn link_send(l: LinkView, kind: u64, data: Seq<u8>, origin: Computer, app: AppName) -> (
    LinkView,
    SendStatus,
) {
    if !passes_filter(l, kind, origin) {
        (l, SendStatus::Filtered)
    } else {
        let f = enc_frame(data, origin, app, l.send_seq);
        if f.len() > MAX_FRAME_LEN {
            (l, SendStatus::Oversize)
        } else {
            (LinkView { outbox: l.outbox.push(f), send_seq: next_seq(l.send_seq), ..l }, SendStatus::Sent)
        }
    }
}

/// A connection to one peer: subscription bookkeeping, heartbeat timers and
/// sequence counters. Times are in microseconds on a clock that the caller reads.
pub struct CfeConnection {
    pub requested_subs: Vec<SubKey>,
    pub posts: Vec<SubKey>,
    pub last_heartbeat_sent: Option<u64>,
    pub last_heartbeat_received: u64,
    pub connected: bool,
    pub computer: Computer,
    pub app_name: AppName,
    pub send_seq: u16,
    pub recv_seq: Option<u16>,
    pub outbox: Vec<Vec<u8>>,
}

impl View for CfeConnection {
    type V = LinkView;

    open spec fn view(&self) -> LinkView {
        LinkView {
            wanted: self.requested_subs@,
            posts: self.posts@,
            last_sent: self.last_heartbeat_sent,
            last_received: self.last_heartbeat_received,
            connected: self.connected,
            computer: self.computer,
            app_name: self.app_name,
            send_seq: self.send_seq,
            recv_seq: self.recv_seq,
            outbox: self.outbox@.map_values(|f: Vec<u8>| f@),
        }
    }
}

/// Whether `v` holds `k`.
pub fn contains_key(v: &Vec<SubKey>, k: SubKey) -> (r: bool)
    ensures
        r == v@.contains(k),
{
    let mut j: usize = 0;
    while j < v.len()
        invariant
            j <= v@.len(),
            forall|x: int| 0 <= x < j ==> v@[x] != k,
        decreases v@.len() - j,
    {
        let e = v[j];
        if e.0 == k.0 && e.1 == k.1 {
            assert(v@[j as int] == k);
            return true;
        }
        j = j + 1;
    }
    false
}

/// Adds to `dst` each key of `src` that it does not hold yet, in order.
pub fn merge_keys(dst: &mut Vec<SubKey>, src: &Vec<SubKey>)
    ensures
        final(dst)@ == union_seq(old(dst)@, src@),
{
    let ghost start = dst@;
    let mut i: usize = 0;
    while i < src.len()
        invariant
            i <= src@.len(),
            dst@ == union_seq(start, src@.take(i as int)),
        decreases src@.len() - i,
    {
        let k = src[i];
        proof {
            assert(src@.take(i + 1).drop_last() =~= src@.take(i as int));
            assert(src@.take(i + 1).last() == k);
        }
        if !contains_key(dst, k) {
            dst.push(k);
        }
        i = i + 1;
    }
    assert(src@.take(i as int) =~= src@);
}

impl CfeConnection {
    /// A link with no subscriptions, not connected, and a heartbeat due at once.
    pub fn new() -> (r: CfeConnection)
        ensures
            r@.wanted.len() == 0,
            r@.posts.len() == 0,
            r@.last_sent is None,
            r@.last_received == 0,
            !r@.connected,
            r@.computer == Computer::Unset,
            r@.app_name == AppName::Unset,
            r@.send_seq == 0,
            r@.recv_seq is None,
            r@.outbox.len() == 0,
    {
        let r = CfeConnection {
            requested_subs: Vec::new(),
            posts: Vec::new(),
            last_heartbeat_sent: None,
            last_heartbeat_received: 0,
            connected: false,
            computer: Computer::Unset,
            app_name: AppName::Unset,
            send_seq: 0,
            recv_seq: None,
            outbox: Vec::new(),
        };
        assert(r@.outbox =~= Seq::<Seq<u8>>::empty());
        r
    }

    /// Sends `data` from `computer`.`app_name` on this link, stamped with the
    /// link's sequence number, if the peer has asked for it (control kinds
    /// always pass) and the frame fits a transport.
    pub fn send_message(&mut self, data: &SbMsgData, computer: Computer, app_name: AppName) -> (r:
        SendStatus)
        ensures
            (final(self)@, r) == link_send(old(self)@, kind_of(*data), enc_data(*data), computer, app_name),
    {
        let desc = data.get_id();
        let wanted = desc == 0 || desc == 1 || contains_key(&self.posts, (desc, computer));
        if !wanted {
            return SendStatus::Filtered;
        }
        let frame = encode_frame(data, computer, app_name, self.send_seq);
        if frame.len() > MAX_FRAME_LEN {
            return SendStatus::Oversize;
        }
        let ghost pre = self@;
        self.outbox.push(frame);
        self.send_seq = self.send_seq.wrapping_add(1);
        assert(self@.outbox =~= pre.outbox.push(frame@));
        assert(self@ == link_send(pre, kind_of(*data), enc_data(*data), computer, app_name).0);
        SendStatus::Sent
    }

    /// Adds `(kind of t, computer)` to what this side wants from the peer.
    /// It is sent with the next subscription request.
    pub fn subscribe(&mut self, t: SbMsgData, computer: Computer)
        ensures
            final(self)@ == (LinkView {
                wanted: union_seq(old(self)@.wanted, seq![(kind_of(t), computer)]),
                ..old(self)@
            }),
    {
        let i: u64 = t.get_id();
        let one = vec![(i, computer)];
        proof {
            assert(one@ =~= seq![(kind_of(t), computer)]);
            assert(one@.drop_last() =~= Seq::<SubKey>::empty());
        }
        merge_keys(&mut self.requested_subs, &one);
    }

    /// Hands the queued frames to the caller, oldest first, and empties the queue.
    pub fn take_frames(&mut self) -> (r: Vec<Vec<u8>>)
        ensures
            r@.map_values(|f: Vec<u8>| f@) == old(self)@.outbox,
            final(self)@ == (LinkView { outbox: Seq::empty(), ..old(self)@ }),
    {
        let mut r: Vec<Vec<u8>> = Vec::new();
        std::mem::swap(&mut r, &mut self.outbox);
        assert(self@.outbox =~= Seq::<Seq<u8>>::empty());
        r
    }
}

/// A frame sent on a link carries the link's sequence number, which then
/// advances by one modulo 2^16; a frame that is not sent leaves the link as
/// it was.
pub proof fn lemma_send_sequence(l: LinkView, kind: u64, data: Seq<u8>, origin: Computer, app: AppName)
    ensures
        link_send(l, kind, data, origin, app).1 == SendStatus::Sent ==> {
            &&& link_send(l, kind, data, origin, app).0.send_seq == next_seq(l.send_seq)
            &&& link_send(l, kind, data, origin, app).0.outbox == l.outbox.push(
                enc_frame(data, origin, app, l.send_seq),
            )
        },
        link_send(l, kind, data, origin, app).1 != SendStatus::Sent ==> link_send(
            l,
            kind,
            data,
            origin,
            app,
        ).0 == l,
{
}

/// Two frames sent one after the other on a link carry sequence numbers
/// that follow each other modulo 2^16.
pub proof fn lemma_consecutive_sequences(
    l: LinkView,
    k1: u64,
    d1: Seq<u8>,
    o1: Computer,
    a1: AppName,
    k2: u64,
    d2: Seq<u8>,
    o2: Computer,
    a2: AppName,
)
    requires
        link_send(l, k1, d1, o1, a1).1 == SendStatus::Sent,
        link_send(link_send(l, k1, d1, o1, a1).0, k2, d2, o2, a2).1 == SendStatus::Sent,
    ensures
        link_send(link_send(l, k1, d1, o1, a1).0, k2, d2, o2, a2).0.outbox == l.outbox.push(
            enc_frame(d1, o1, a1, l.send_seq),
        ).push(enc_frame(d2, o2, a2, next_seq(l.send_seq))),
{
}

/// A frame goes out on a link exactly when the peer asked for its kind from
/// its origin, or its kind is a control kind, and it fits a transport.
pub proof fn lemma_link_filter(l: LinkView, kind: u64, data: Seq<u8>, origin: Computer, app: AppName)
    ensures
        (link_send(l, kind, data, origin, app).0.outbox.len() > l.outbox.len()) <==> (
        passes_filter(l, kind, origin) && enc_frame(data, origin, app, l.send_seq).len()
            <= MAX_FRAME_LEN),
        (link_send(l, kind, data, origin, app).1 == SendStatus::Filtered) <==> !passes_filter(
            l,
            kind,
            origin,
        ),
{
}

/// The keys of `union_seq(a, b)` are those of `a` and those of `b`.
pub proof fn lemma_union_seq(a: Seq<SubKey>, b: Seq<SubKey>)
    ensures
        union_seq(a, b).to_set() == a.to_set().union(b.to_set()),
    decreases b.len(),
{
    if b.len() == 0 {
        assert(b.to_set() =~= Set::<SubKey>::empty());
        assert(a.to_set().union(b.to_set()) =~= a.to_set());
    } else {
        let init = b.drop_last();
        lemma_union_seq(a, init);
        let u = union_seq(a, init);
        assert(b =~= init.push(b.last()));
        assert(b.to_set() =~= init.to_set().insert(b.last())) by {
            init.lemma_push_to_set_commute(b.last());
        }
        if u.contains(b.last()) {
            assert(u.to_set().contains(b.last()));
            assert(union_seq(a, b).to_set() =~= a.to_set().union(b.to_set()));
        } else {
            u.lemma_push_to_set_commute(b.last());
            assert(union_seq(a, b).to_set() =~= a.to_set().union(b.to_set()));
        }
    }
}

} // verus!
