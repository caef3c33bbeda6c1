//! The bus core: the links of a node, the routing of inbound frames, the
//! heartbeat that watches each link, and the relay between links.
use vstd::prelude::*;

use crate::link::{
    lemma_union_seq, link_send, merge_keys, next_seq, union_seq, CfeConnection, LinkView,
    SendStatus,
};
use crate::msg::{
    RelayOut, RelayOutConnectionStatus, is_control_kind, kind_of, severity_rank, AppName, Computer, EventSeverity, SbEvent, SbMsg, SbMsgData, SubKey,
    KIND_HEARTBEAT, KIND_SUB_REQ,
};
use crate::perf::{elapsed, elapsed_between};
use crate::wire::{enc_data, enc_frame, enc_sub_req_data, MAX_FRAME_LEN};

verus! {

/// Microseconds between two heartbeats on a link.
pub const HEARTBEAT_DELAY: u64 = 1_000_000;

/// Heartbeat periods of silence after which a link is taken as lost.
pub const MAX_HEARTBEAT_MISS: u64 = 3;

/// The state of the bus, as the contracts see it.
pub struct BusView {
    pub links: Seq<LinkView>,
    pub computer: Computer,
    pub app_name: AppName,
    pub relay: bool,
    pub log_level: EventSeverity,
    /// Every event logged, oldest first, with its severity.
    pub journal: Seq<(SbEvent, EventSeverity)>,
}

pub open spec fn set_link(b: BusView, i: int, l: LinkView) -> BusView {
    BusView { links: b.links.update(i, l), ..b }
}

/// The journal entry for a frame dropped because it is larger than a
/// transport carries.
pub open spec fn drop_entry() -> (SbEvent, EventSeverity) {
    (SbEvent::SerializeError, EventSeverity::Error)
}

/// `b` with a dropped frame noted in the journal, where `dropped` holds.
/// Such a note is not published: it concerns the sending side alone.
pub open spec fn note_if(b: BusView, dropped: bool) -> BusView {
    if dropped {
        BusView { journal: b.journal.push(drop_entry()), ..b }
    } else {
        b
    }
}

/// Sending a payload of this node on link `i`; a frame too large for a
/// transport is dropped and noted in the journal.
pub open spec fn bus_send_to(b: BusView, i: int, kind: u64, data: Seq<u8>) -> BusView {
    let r = link_send(b.links[i], kind, data, b.computer, b.app_name);
    note_if(set_link(b, i, r.0), r.1 == SendStatus::Oversize)
}

/// Whether sending from `origin`.`app` on some link but `skip` drops the
/// frame as too large.
pub open spec fn forward_drops(
    b: BusView,
    skip: int,
    kind: u64,
    data: Seq<u8>,
    origin: Computer,
    app: AppName,
) -> bool {
    exists|j: int|
        0 <= j < b.links.len() && j != skip && (#[trigger] link_send(
            b.links[j],
            kind,
            data,
            origin,
            app,
        )).1 == SendStatus::Oversize
}

/// Sending a payload from `origin`.`app` on every link but `skip`
/// (`skip` is -1 to send on every link). Where a link drops the frame as too
/// large, the drop is noted in the journal once.
pub open spec fn bus_forward(
    b: BusView,
    skip: int,
    kind: u64,
    data: Seq<u8>,
    origin: Computer,
    app: AppName,
) -> BusView {
    note_if(
        BusView {
            links: Seq::new(
                b.links.len(),
                |j: int|
                    if j == skip {
                        b.links[j]
                    } else {
                        link_send(b.links[j], kind, data, origin, app).0
                    },
            ),
            ..b
        },
        forward_drops(b, skip, kind, data, origin, app),
    )
}

/// Publishing a payload of this node on every link.
pub open spec fn bus_publish(b: BusView, kind: u64, data: Seq<u8>) -> BusView {
    bus_forward(b, -1, kind, data, b.computer, b.app_name)
}

/// The payload that carries a logged event.
pub open spec fn log_data(e: SbEvent, sev: EventSeverity) -> SbMsgData {
    match sev {
        EventSeverity::Trace => SbMsgData::TraceMsg(e),
        EventSeverity::Debug => SbMsgData::DebugMsg(e),
        EventSeverity::Info => SbMsgData::InfoMsg(e),
        EventSeverity::Warn => SbMsgData::WarnMsg(e),
        EventSeverity::Error => SbMsgData::ErrorMsg(e),
    }
}

/// Logging an event: it joins the journal, and it is published where its
/// severity reaches the log level.
pub open spec fn bus_log(b: BusView, e: SbEvent, sev: EventSeverity) -> BusView {
    let b1 = BusView { journal: b.journal.push((e, sev)), ..b };
    if severity_rank(b.log_level) <= severity_rank(sev) {
        bus_publish(b1, kind_of(log_data(e, sev)), enc_data(log_data(e, sev)))
    } else {
        b1
    }
}

/// What link `i` wants, joined with what the links before `n`, other than
/// `i`, have been asked for.
pub open spec fn relay_subs(links: Seq<LinkView>, i: int, n: nat) -> Seq<SubKey>
    decreases n,
{
    if n == 0 {
        links[i].wanted
    } else {
        let u = relay_subs(links, i, (n - 1) as nat);
        if n - 1 == i {
            u
        } else {
            union_seq(u, links[n - 1].posts)
        }
    }
}

/// The keys of the subscription request for link `i`.
pub open spec fn sub_request(b: BusView, i: int) -> Seq<SubKey> {
    if b.relay {
        relay_subs(b.links, i, b.links.len())
    } else {
        b.links[i].wanted
    }
}

/// Sending the subscription request on link `i`.
pub open spec fn bus_send_subs(b: BusView, i: int) -> BusView {
    bus_send_to(b, i, KIND_SUB_REQ, enc_sub_req_data(sub_request(b, i)))
}

/// Sending the subscription request on each link but `skip`, among the first `n`.
pub open spec fn resub_upto(b: BusView, skip: int, n: nat) -> BusView
    decreases n,
{
    if n == 0 {
        b
    } else {
        let b1 = resub_upto(b, skip, (n - 1) as nat);
        if n - 1 == skip {
            b1
        } else {
            bus_send_subs(b1, n - 1)
        }
    }
}

pub open spec fn heartbeat_due(l: LinkView, now: u64) -> bool {
    match l.last_sent {
        None => true,
        Some(t) => elapsed(t, now) >= HEARTBEAT_DELAY,
    }
}

pub open spec fn heartbeat_lost(l: LinkView, now: u64) -> bool {
    elapsed(l.last_received, now) >= HEARTBEAT_DELAY * MAX_HEARTBEAT_MISS
}

/// The heartbeat pass on link `i`.
pub open spec fn hb_step(b: BusView, i: int, now: u64) -> BusView {
    let b1 = if heartbeat_due(b.links[i], now) {
        bus_send_to(
            set_link(b, i, LinkView { last_sent: Some(now), ..b.links[i] }),
            i,
            KIND_HEARTBEAT,
            enc_data(SbMsgData::Heartbeat),
        )
    } else {
        b
    };
    let l = b1.links[i];
    if l.connected && heartbeat_lost(l, now) {
        bus_log(
            set_link(b1, i, LinkView { connected: false, ..l }),
            SbEvent::HeartBeatStopped(l.computer, l.app_name),
            EventSeverity::Warn,
        )
    } else {
        b1
    }
}

/// The heartbeat pass on the first `n` links.
pub open spec fn hb_upto(b: BusView, now: u64, n: nat) -> BusView
    decreases n,
{
    if n == 0 {
        b
    } else {
        hb_step(hb_upto(b, now, (n - 1) as nat), n - 1, now)
    }
}

/// The heartbeat pass on every link.
pub open spec fn bus_heartbeat(b: BusView, now: u64) -> BusView {
    hb_upto(b, now, b.links.len())
}

/// Checking the sequence number `s` of a frame that came on link `i`.
pub open spec fn check_seq(b: BusView, i: int, s: u16) -> BusView {
    let b1 = match b.links[i].recv_seq {
        Some(prev) => if next_seq(prev) != s {
            if s == 0 {
                bus_send_subs(b, i)
            } else {
                bus_log(b, SbEvent::SequenceCountError, EventSeverity::Error)
            }
        } else {
            b
        },
        None => b,
    };
    set_link(b1, i, LinkView { recv_seq: Some(s), ..b1.links[i] })
}

/// Taking note of a frame `m` on link `i`: the link is alive; a heartbeat
/// names the peer; a link that was down comes up, and where the frame is a
/// heartbeat the peer is sent the subscription request to catch up.
pub open spec fn refresh(b: BusView, i: int, m: SbMsg, now: u64) -> BusView {
    let l = b.links[i];
    let l1 = if m.data is Heartbeat {
        LinkView { last_received: now, computer: m.computer, app_name: m.app_name, ..l }
    } else {
        LinkView { last_received: now, ..l }
    };
    let b1 = set_link(b, i, l1);
    if l1.connected {
        b1
    } else {
        let b2 = if m.data is Heartbeat {
            bus_send_subs(b1, i)
        } else {
            b1
        };
        let b3 = set_link(b2, i, LinkView { connected: true, ..b2.links[i] });
        bus_log(b3, SbEvent::HeartBeatStarted(l1.computer, l1.app_name), EventSeverity::Info)
    }
}

/// Whether a frame is handed to the application (control kinds are not).
pub open spec fn delivered(m: SbMsg) -> bool {
    !(m.data is Heartbeat) && !(m.data is SbSubReq)
}

/// Acting on the kind of frame `m` from link `i`.
pub open spec fn dispatch(b: BusView, i: int, m: SbMsg) -> BusView {
    match m.data {
        SbMsgData::SbSubReq(r) => {
            let b1 = set_link(b, i, LinkView { posts: r.subs@, ..b.links[i] });
            if b.relay {
                resub_upto(b1, i, b1.links.len())
            } else {
                b1
            }
        },
        SbMsgData::Heartbeat => b,
        _ => if b.relay {
            bus_forward(b, i, kind_of(m.data), enc_data(m.data), m.computer, m.app_name)
        } else {
            b
        },
    }
}

/// Routing frame `m` that came on link `i`.
pub open spec fn bus_route(b: BusView, m: SbMsg, i: int, now: u64) -> BusView {
    dispatch(refresh(check_seq(b, i, m.sequence), i, m, now), i, m)
}

proof fn lemma_view_update(v: Seq<CfeConnection>, i: int, c: CfeConnection)
    requires
        0 <= i < v.len(),
    ensures
        v.update(i, c).map_values(|x: CfeConnection| x@) =~= v.map_values(|x: CfeConnection| x@).update(
            i,
            c@,
        ),
{
}

/// The bus of one node.
pub struct Cfe {
    pub connections: Vec<CfeConnection>,
    pub computer: Computer,
    pub app_name: AppName,
    pub relay: bool,
    pub log_level: EventSeverity,
    pub journal: Vec<(SbEvent, EventSeverity)>,
}

impl View for Cfe {
    type V = BusView;

    open spec fn view(&self) -> BusView {
        BusView {
            links: self.connections@.map_values(|c: CfeConnection| c@),
            computer: self.computer,
            app_name: self.app_name,
            relay: self.relay,
            log_level: self.log_level,
            journal: self.journal@,
        }
    }
}

/// A copy of `v`.
fn copy_keys(v: &Vec<SubKey>) -> (r: Vec<SubKey>)
    ensures
        r@ == v@,
{
    let mut r: Vec<SubKey> = Vec::new();
    let mut j: usize = 0;
    while j < v.len()
        invariant
            j <= v@.len(),
            r@ == v@.take(j as int),
        decreases v@.len() - j,
    {
        r.push(v[j]);
        j = j + 1;
        assert(r@ =~= v@.take(j as int));
    }
    assert(v@.take(j as int) =~= v@);
    r
}

impl Cfe {
    /// A bus for application `app_name` on `computer`, with no links and
    /// relaying off.
    pub fn init_cfe(computer: Computer, app_name: AppName, log_level: EventSeverity) -> (r: Cfe)
        ensures
            r@.links.len() == 0,
            r@.computer == computer,
            r@.app_name == app_name,
            !r@.relay,
            r@.log_level == log_level,
            r@.journal.len() == 0,
    {
        let r = Cfe {
            connections: Vec::new(),
            computer,
            app_name,
            relay: false,
            log_level,
            journal: Vec::new(),
        };
        assert(r@.links =~= Seq::<LinkView>::empty());
        r
    }

    /// Sends `data` from `origin`.`app` on each link but `skip`.
    fn forward(&mut self, skip: Option<usize>, data: &SbMsgData, origin: Computer, app: AppName)
        ensures
            final(self).connections@.len() == old(self).connections@.len(),
            final(self)@ == bus_forward(
                old(self)@,
                match skip {
                    Some(s) => s as int,
                    None => -1,
                },
                kind_of(*data),
                enc_data(*data),
                origin,
                app,
            ),
    {
        let ghost skip_i: int = match skip {
            Some(s) => s as int,
            None => -1,
        };
        let ghost start = self@;
        let n = self.connections.len();
        let mut dropped = false;
        let mut j: usize = 0;
        while j < n
            invariant
                j <= n,
                n == self.connections@.len(),
                n == start.links.len(),
                dropped == exists|x: int|
                    0 <= x < j && x != skip_i && (#[trigger] link_send(
                        start.links[x],
                        kind_of(*data),
                        enc_data(*data),
                        origin,
                        app,
                    )).1 == SendStatus::Oversize,
                skip_i == match skip {
                    Some(s) => s as int,
                    None => -1,
                },
                self@ == (BusView { links: self@.links, ..start }),
                forall|x: int|
                    0 <= x < j ==> self@.links[x] == (if x == skip_i {
                        start.links[x]
                    } else {
                        link_send(start.links[x], kind_of(*data), enc_data(*data), origin, app).0
                    }),
                forall|x: int| j <= x < n ==> self@.links[x] == start.links[x],
            decreases n - j,
        {
            let is_skip = match skip {
                Some(s) => s == j,
                None => false,
            };
            let ghost links_before = self@.links;
            if !is_skip {
                let ghost before = self.connections@;
                assert(before[j as int]@ == start.links[j as int]);
                let st = self.connections[j].send_message(data, origin, app);
                proof {
                    lemma_view_update(before, j as int, self.connections@[j as int]);
                }
                if st == SendStatus::Oversize {
                    dropped = true;
                }
                assert(self@.links == links_before.update(
                    j as int,
                    link_send(start.links[j as int], kind_of(*data), enc_data(*data), origin, app).0,
                ));
            } else {
                assert(skip_i == j);
            }
            j = j + 1;
        }
        let ghost mid = self@;
        if dropped {
            self.journal.push((SbEvent::SerializeError, EventSeverity::Error));
        }
        assert(mid.links =~= bus_forward(start, skip_i, kind_of(*data), enc_data(*data), origin, app).links);
        assert(dropped == forward_drops(start, skip_i, kind_of(*data), enc_data(*data), origin, app));
    }

    /// Publishes `data` on every link; each link applies its own filter and
    /// stamps its own sequence number.
    pub fn send_message(&mut self, data: SbMsgData)
        ensures
            final(self).connections@.len() == old(self).connections@.len(),
            final(self)@ == bus_publish(old(self)@, kind_of(data), enc_data(data)),
    {
        let c = self.computer;
        let a = self.app_name;
        self.forward(None, &data, c, a);
    }

    /// Publishes `data` on link `i` alone.
    pub fn send_message_to(&mut self, data: SbMsgData, i: usize) -> (r: SendStatus)
        requires
            i < old(self)@.links.len(),
        ensures
            final(self).connections@.len() == old(self).connections@.len(),
            final(self)@ == bus_send_to(old(self)@, i as int, kind_of(data), enc_data(data)),
            r == link_send(old(self)@.links[i as int], kind_of(data), enc_data(data), old(self)@.computer, old(self)@.app_name).1,
    {
        let c = self.computer;
        let a = self.app_name;
        let ghost before = self.connections@;
        let r = self.connections[i].send_message(&data, c, a);
        proof {
            lemma_view_update(before, i as int, self.connections@[i as int]);
        }
        if r == SendStatus::Oversize {
            self.journal.push((SbEvent::SerializeError, EventSeverity::Error));
        }
        r
    }

    /// The keys of the subscription request for link `i`.
    fn build_subs(&self, i: usize) -> (r: Vec<SubKey>)
        requires
            i < self@.links.len(),
        ensures
            r@ == sub_request(self@, i as int),
    {
        let mut subs = copy_keys(&self.connections[i].requested_subs);
        if self.relay {
            let n = self.connections.len();
            let mut c: usize = 0;
            while c < n
                invariant
                    c <= n,
                    n == self@.links.len(),
                    i < n,
                    subs@ == relay_subs(self@.links, i as int, c as nat),
                decreases n - c,
            {
                if c != i {
                    merge_keys(&mut subs, &self.connections[c].posts);
                }
                c = c + 1;
            }
        }
        subs
    }

    /// Sends link `i` its subscription request: what it wants and, when
    /// relaying, what every other link has been asked for.
    pub fn send_subs(&mut self, i: usize)
        requires
            i < old(self)@.links.len(),
        ensures
            final(self).connections@.len() == old(self).connections@.len(),
            final(self)@ == bus_send_subs(old(self)@, i as int),
    {
        let subs = self.build_subs(i);
        let data = SbMsgData::SbSubReq(crate::msg::SbSubReq { subs });
        self.send_message_to(data, i);
    }

    /// Logs `event` at `severity`: it joins the journal, and is published on
    /// the bus where `severity` reaches the log level.
    pub fn log(&mut self, event: SbEvent, severity: EventSeverity)
        ensures
            final(self).connections@.len() == old(self).connections@.len(),
            final(self)@ == bus_log(old(self)@, event, severity),
    {
        self.journal.push((event, severity));
        if severity.passes(self.log_level) {
            let data = match severity {
                EventSeverity::Trace => SbMsgData::TraceMsg(event),
                EventSeverity::Debug => SbMsgData::DebugMsg(event),
                EventSeverity::Info => SbMsgData::InfoMsg(event),
                EventSeverity::Warn => SbMsgData::WarnMsg(event),
                EventSeverity::Error => SbMsgData::ErrorMsg(event),
            };
            self.send_message(data);
        }
    }

    /// The heartbeat pass on link `i`.
    fn heartbeat_link(&mut self, i: usize, now: u64)
        requires
            i < old(self)@.links.len(),
        ensures
            final(self).connections@.len() == old(self).connections@.len(),
            final(self)@ == hb_step(old(self)@, i as int, now),
    {
        let ghost b0 = self@;
        let due = match self.connections[i].last_heartbeat_sent {
            None => true,
            Some(t) => elapsed_between(t, now) >= HEARTBEAT_DELAY,
        };
        if due {
            let ghost before = self.connections@;
            self.connections[i].last_heartbeat_sent = Some(now);
            proof {
                lemma_view_update(before, i as int, self.connections@[i as int]);
            }
            self.send_message_to(SbMsgData::Heartbeat, i);
        }
        let ghost b1 = self@;
        if self.connections[i].connected && elapsed_between(
            self.connections[i].last_heartbeat_received,
            now,
        ) >= HEARTBEAT_DELAY * MAX_HEARTBEAT_MISS {
            let c = self.connections[i].computer;
            let a = self.connections[i].app_name;
            let ghost before = self.connections@;
            self.connections[i].connected = false;
            proof {
                lemma_view_update(before, i as int, self.connections@[i as int]);
            }
            self.log(SbEvent::HeartBeatStopped(c, a), EventSeverity::Warn);
        }
    }

    /// The heartbeat pass on every link: sends a heartbeat where one is due,
    /// and takes a link as lost after `MAX_HEARTBEAT_MISS` silent periods.
    pub fn heartbeat(&mut self, now: u64)
        ensures
            final(self).connections@.len() == old(self).connections@.len(),
            final(self)@ == bus_heartbeat(old(self)@, now),
    {
        let ghost start = self@;
        let n = self.connections.len();
        let mut i: usize = 0;
        while i < n
            invariant
                i <= n,
                n == self@.links.len(),
                n == start.links.len(),
                self@ == hb_upto(start, now, i as nat),
            decreases n - i,
        {
            self.heartbeat_link(i, now);
            i = i + 1;
        }
    }

    /// The housekeeping pass, run before each receive.
    pub fn poll(&mut self, now: u64)
        ensures
            final(self).connections@.len() == old(self).connections@.len(),
            final(self)@ == bus_heartbeat(old(self)@, now),
    {
        self.heartbeat(now);
    }

    /// Attaches a link: it takes the next index, is sent its subscription
    /// request, and a housekeeping pass follows.
    pub fn add_connection(&mut self, connection: CfeConnection, now: u64)
        requires
            old(self)@.links.len() < usize::MAX,
        ensures
            final(self).connections@.len() == old(self).connections@.len() + 1,
            final(self)@ == bus_heartbeat(
                bus_send_subs(
                    BusView { links: old(self)@.links.push(connection@), ..old(self)@ },
                    old(self)@.links.len() as int,
                ),
                now,
            ),
    {
        let ghost before = self@;
        self.connections.push(connection);
        assert(self@.links =~= before.links.push(connection@));
        let i = self.connections.len() - 1;
        self.send_subs(i);
        self.poll(now);
    }
}


/// An application that runs on the bus.
pub trait SbApp {
    /// Prepares the application.
    fn init(&mut self);

    /// Runs the application's main loop.
    fn start(&mut self);

    /// Prepares, then runs.
    fn run(&mut self) {
        self.init();
        self.start();
    }
}

impl Cfe {
    /// Hands the journal to the caller, oldest first, and empties it.
    pub fn take_journal(&mut self) -> (r: Vec<(SbEvent, EventSeverity)>)
        ensures
            r@ == old(self)@.journal,
            final(self)@ == (BusView { journal: Seq::empty(), ..old(self)@ }),
    {
        let mut r: Vec<(SbEvent, EventSeverity)> = Vec::new();
        std::mem::swap(&mut r, &mut self.journal);
        assert(self@.journal =~= Seq::<(SbEvent, EventSeverity)>::empty());
        r
    }

    /// The state of each link: the peer last named by its heartbeat, and
    /// whether the link is up.
    pub fn connection_status(&self) -> (r: RelayOut)
        ensures
            r.connection_status@.len() == self@.links.len(),
            forall|j: int|
                0 <= j < self@.links.len() ==> #[trigger] r.connection_status@[j] == (
                RelayOutConnectionStatus {
                    computer: self@.links[j].computer,
                    app_name: self@.links[j].app_name,
                    heartbeating: self@.links[j].connected,
                }),
    {
        let mut out: Vec<RelayOutConnectionStatus> = Vec::new();
        let mut j: usize = 0;
        while j < self.connections.len()
            invariant
                j <= self@.links.len(),
                out@.len() == j,
                forall|x: int|
                    0 <= x < j ==> #[trigger] out@[x] == (RelayOutConnectionStatus {
                        computer: self@.links[x].computer,
                        app_name: self@.links[x].app_name,
                        heartbeating: self@.links[x].connected,
                    }),
            decreases self@.links.len() - j,
        {
            let c = &self.connections[j];
            out.push(
                RelayOutConnectionStatus {
                    computer: c.computer,
                    app_name: c.app_name,
                    heartbeating: c.connected,
                },
            );
            j = j + 1;
        }
        RelayOut { connection_status: out }
    }
}

impl Cfe {
    /// Sends the subscription request on every link but `skip`.
    fn resend_subs_except(&mut self, skip: usize)
        ensures
            final(self).connections@.len() == old(self).connections@.len(),
            final(self)@ == resub_upto(old(self)@, skip as int, old(self)@.links.len()),
    {
        let ghost start = self@;
        let n = self.connections.len();
        let mut c: usize = 0;
        while c < n
            invariant
                c <= n,
                n == self@.links.len(),
                n == start.links.len(),
                self@ == resub_upto(start, skip as int, c as nat),
            decreases n - c,
        {
            if c != skip {
                self.send_subs(c);
            }
            c = c + 1;
        }
    }

    /// Checks the sequence number `s` of a frame that came on link `i`.
    fn check_sequence(&mut self, i: usize, s: u16)
        requires
            i < old(self)@.links.len(),
        ensures
            final(self).connections@.len() == old(self).connections@.len(),
            final(self)@ == check_seq(old(self)@, i as int, s),
    {
        match self.connections[i].recv_seq {
            Some(prev) => {
                if prev.wrapping_add(1) != s {
                    if s == 0 {
                        self.send_subs(i);
                    } else {
                        self.log(SbEvent::SequenceCountError, EventSeverity::Error);
                    }
                }
            },
            None => {},
        }
        let ghost before = self.connections@;
        self.connections[i].recv_seq = Some(s);
        proof {
            lemma_view_update(before, i as int, self.connections@[i as int]);
        }
    }

    /// Takes note of frame `m` on link `i` at `now`.
    fn note_alive(&mut self, i: usize, m: &SbMsg, now: u64)
        requires
            i < old(self)@.links.len(),
        ensures
            final(self).connections@.len() == old(self).connections@.len(),
            final(self)@ == refresh(old(self)@, i as int, *m, now),
    {
        let ghost b1 = self@;
        let ghost before = self.connections@;
        self.connections[i].last_heartbeat_received = now;
        if let SbMsgData::Heartbeat = m.data {
            self.connections[i].computer = m.computer;
            self.connections[i].app_name = m.app_name;
        }
        proof {
            lemma_view_update(before, i as int, self.connections@[i as int]);
        }
        let ghost l1 = if m.data is Heartbeat {
            LinkView {
                last_received: now,
                computer: m.computer,
                app_name: m.app_name,
                ..b1.links[i as int]
            }
        } else {
            LinkView { last_received: now, ..b1.links[i as int] }
        };
        assert(self@.links =~= set_link(b1, i as int, l1).links);
        if !self.connections[i].connected {
            if let SbMsgData::Heartbeat = m.data {
                self.send_subs(i);
            }
            let ghost b2 = self@;
            let ghost before = self.connections@;
            self.connections[i].connected = true;
            proof {
                lemma_view_update(before, i as int, self.connections@[i as int]);
            }
            assert(self@.links =~= set_link(
                b2,
                i as int,
                LinkView { connected: true, ..b2.links[i as int] },
            ).links);
            let c = self.connections[i].computer;
            let a = self.connections[i].app_name;
            self.log(SbEvent::HeartBeatStarted(c, a), EventSeverity::Info);
        }
    }

    /// Routes frame `m`, which came on link `i`: checks its sequence number
    /// (a restarted peer is sent the subscription request again), takes note
    /// that the link is alive, then acts on its kind. A subscription request
    /// replaces what the peer is sent and, when relaying, is passed on to the
    /// other links; a heartbeat is taken in; any other frame is relayed to
    /// the other links when relaying, and handed back.
    pub fn route(&mut self, m: SbMsg, i: usize, now: u64) -> (r: Option<SbMsg>)
        requires
            i < old(self)@.links.len(),
        ensures
            final(self).connections@.len() == old(self).connections@.len(),
            final(self)@ == bus_route(old(self)@, m, i as int, now),
            r == (if delivered(m) {
                Some(m)
            } else {
                None
            }),
    {
        self.check_sequence(i, m.sequence);
        self.note_alive(i, &m, now);
        let ghost b2 = self@;
        match &m.data {
            SbMsgData::SbSubReq(req) => {
                let subs = copy_keys(&req.subs);
                let ghost before = self.connections@;
                self.connections[i].posts = subs;
                proof {
                    lemma_view_update(before, i as int, self.connections@[i as int]);
                }
                assert(self@.links =~= set_link(
                    b2,
                    i as int,
                    LinkView { posts: req.subs@, ..b2.links[i as int] },
                ).links);
                if self.relay {
                    self.resend_subs_except(i);
                }
                None
            },
            SbMsgData::Heartbeat => None,
            _ => {
                if self.relay {
                    self.forward(Some(i), &m.data, m.computer, m.app_name);
                }
                Some(m)
            },
        }
    }

    /// One receive step at time `now`: the housekeeping pass, then the
    /// routing of `incoming` (a frame and the index of its link), if any.
    /// Returns the frame where it is for the application.
    pub fn recv_message(&mut self, now: u64, incoming: Option<(SbMsg, usize)>) -> (r: Option<SbMsg>)
        requires
            match incoming {
                Some((_, i)) => i < old(self)@.links.len(),
                None => true,
            },
        ensures
            final(self).connections@.len() == old(self).connections@.len(),
            match incoming {
                Some((m, i)) => {
                    &&& final(self)@ == bus_route(bus_heartbeat(old(self)@, now), m, i as int, now)
                    &&& r == if delivered(m) {
                        Some(m)
                    } else {
                        None
                    }
                },
                None => final(self)@ == bus_heartbeat(old(self)@, now) && r is None,
            },
    {
        self.poll(now);
        match incoming {
            Some((m, i)) => self.route(m, i, now),
            None => None,
        }
    }
}

/// A message that this node publishes goes out on link `j` exactly when the
/// peer of `j` asked for its kind from this node, or its kind is a control
/// kind, and its frame fits a transport; it then carries `j`'s own sequence
/// number. A frame that does not fit is dropped, and the drop is noted in
/// the journal.
pub proof fn lemma_publish_filter(b: BusView, d: SbMsgData, j: int)
    requires
        0 <= j < b.links.len(),
    ensures
        ({
            let after = bus_publish(b, kind_of(d), enc_data(d));
            let l = after.links[j];
            let frame = enc_frame(enc_data(d), b.computer, b.app_name, b.links[j].send_seq);
            let asked = is_control_kind(kind_of(d)) || b.links[j].posts.contains(
                (kind_of(d), b.computer),
            );
            &&& (l.outbox.len() > b.links[j].outbox.len()) <==> (asked && frame.len()
                <= MAX_FRAME_LEN)
            &&& l.outbox.len() > b.links[j].outbox.len() ==> l.outbox == b.links[j].outbox.push(
                frame,
            )
            &&& l.outbox.len() <= b.links[j].outbox.len() ==> l == b.links[j]
            &&& asked && frame.len() > MAX_FRAME_LEN ==> after.journal == b.journal.push(
                drop_entry(),
            )
        }),
{
    let kind = kind_of(d);
    let data = enc_data(d);
    let r = link_send(b.links[j], kind, data, b.computer, b.app_name);
    if r.1 == SendStatus::Oversize {
        assert(forward_drops(b, -1, kind, data, b.computer, b.app_name));
    }
}

/// Length facts of the fixed-width fields.
proof fn lemma_field_lengths()
    ensures
        forall|x: u16| #[trigger] crate::wire::enc_u16(x).len() == 2,
        forall|x: u32| #[trigger] crate::wire::enc_u32(x).len() == 4,
{
    vstd::bytes::lemma_auto_spec_u16_to_from_le_bytes();
    vstd::bytes::lemma_auto_spec_u32_to_from_le_bytes();
}

/// A frame around a short payload fits a transport.
proof fn lemma_short_not_dropped(
    l: LinkView,
    kind: u64,
    data: Seq<u8>,
    origin: Computer,
    app: AppName,
)
    requires
        data.len() <= 64,
    ensures
        link_send(l, kind, data, origin, app).1 != SendStatus::Oversize,
{
    lemma_field_lengths();
}

/// Heartbeats and log messages are short.
proof fn lemma_short_payloads(e: SbEvent, sev: EventSeverity)
    ensures
        enc_data(SbMsgData::Heartbeat).len() <= 64,
        enc_data(log_data(e, sev)).len() <= 64,
{
    lemma_field_lengths();
}

/// Forwarding a short payload drops nothing and notes nothing.
proof fn lemma_short_forward(
    b: BusView,
    skip: int,
    kind: u64,
    data: Seq<u8>,
    origin: Computer,
    app: AppName,
)
    requires
        data.len() <= 64,
    ensures
        !forward_drops(b, skip, kind, data, origin, app),
        bus_forward(b, skip, kind, data, origin, app).journal == b.journal,
{
    assert forall|j: int| 0 <= j < b.links.len() && j != skip implies (#[trigger] link_send(
        b.links[j],
        kind,
        data,
        origin,
        app,
    )).1 != SendStatus::Oversize by {
        lemma_short_not_dropped(b.links[j], kind, data, origin, app);
    }
}

/// Logging adds exactly its own entry to the journal.
proof fn lemma_log_journal(b: BusView, e: SbEvent, sev: EventSeverity)
    ensures
        bus_log(b, e, sev).journal == b.journal.push((e, sev)),
        bus_log(b, e, sev).links.len() == b.links.len(),
        forall|j: int|
            0 <= j < b.links.len() ==> (#[trigger] bus_log(b, e, sev).links[j]).connected
                == b.links[j].connected,
{
    lemma_short_payloads(e, sev);
    let b1 = BusView { journal: b.journal.push((e, sev)), ..b };
    lemma_short_forward(
        b1,
        -1,
        kind_of(log_data(e, sev)),
        enc_data(log_data(e, sev)),
        b.computer,
        b.app_name,
    );
}

/// A receiver that has last seen a sequence number other than 0 and 2^16 - 1
/// and then sees 0 takes it as a restarted peer: it sends the subscription
/// request on that link and logs no sequence error (the journal gains at
/// most the note of a request too large to send).
pub proof fn lemma_restart_detection(b: BusView, i: int, prev: u16)
    requires
        0 <= i < b.links.len(),
        b.links[i].recv_seq == Some(prev),
        prev != 0,
        prev != 0xffff,
    ensures
        check_seq(b, i, 0) == set_link(
            bus_send_subs(b, i),
            i,
            LinkView { recv_seq: Some(0u16), ..bus_send_subs(b, i).links[i] },
        ),
        check_seq(b, i, 0).journal == b.journal || check_seq(b, i, 0).journal == b.journal.push(
            drop_entry(),
        ),
{
}

/// A connected link that has been silent for `MAX_HEARTBEAT_MISS` heartbeat
/// periods goes down in the heartbeat pass, with exactly one
/// "heartbeat stopped" event.
pub proof fn lemma_heartbeat_lost(b: BusView, i: int, now: u64)
    requires
        0 <= i < b.links.len(),
        b.links[i].connected,
        heartbeat_lost(b.links[i], now),
    ensures
        !hb_step(b, i, now).links[i].connected,
        hb_step(b, i, now).journal == b.journal.push(
            (
                SbEvent::HeartBeatStopped(b.links[i].computer, b.links[i].app_name),
                EventSeverity::Warn,
            ),
        ),
{
    let e = SbEvent::HeartBeatStopped(b.links[i].computer, b.links[i].app_name);
    lemma_short_payloads(e, EventSeverity::Warn);
    let bs = set_link(b, i, LinkView { last_sent: Some(now), ..b.links[i] });
    lemma_short_not_dropped(
        bs.links[i],
        KIND_HEARTBEAT,
        enc_data(SbMsgData::Heartbeat),
        b.computer,
        b.app_name,
    );
    let b1 = if heartbeat_due(b.links[i], now) {
        bus_send_to(bs, i, KIND_HEARTBEAT, enc_data(SbMsgData::Heartbeat))
    } else {
        b
    };
    let l = b1.links[i];
    lemma_log_journal(set_link(b1, i, LinkView { connected: false, ..l }), e, EventSeverity::Warn);
}

/// A link that is down stays down in the heartbeat pass and logs nothing.
pub proof fn lemma_heartbeat_down_quiet(b: BusView, i: int, now: u64)
    requires
        0 <= i < b.links.len(),
        !b.links[i].connected,
    ensures
        !hb_step(b, i, now).links[i].connected,
        hb_step(b, i, now).journal == b.journal,
{
    lemma_short_payloads(SbEvent::Empty, EventSeverity::Warn);
    let bs = set_link(b, i, LinkView { last_sent: Some(now), ..b.links[i] });
    lemma_short_not_dropped(
        bs.links[i],
        KIND_HEARTBEAT,
        enc_data(SbMsgData::Heartbeat),
        b.computer,
        b.app_name,
    );
}

/// Whether an entry is a "heartbeat started" event.
pub open spec fn is_started(x: (SbEvent, EventSeverity)) -> bool {
    x.0 is HeartBeatStarted
}

/// How many "heartbeat started" events a journal holds.
pub open spec fn started_count(j: Seq<(SbEvent, EventSeverity)>) -> nat
    decreases j.len(),
{
    if j.len() == 0 {
        0
    } else {
        started_count(j.drop_last()) + if is_started(j.last()) {
            1nat
        } else {
            0nat
        }
    }
}

/// `j2` is `j1` followed by notes of dropped frames only.
pub open spec fn grows_by_drops(j1: Seq<(SbEvent, EventSeverity)>, j2: Seq<(SbEvent, EventSeverity)>) -> bool {
    &&& j1.len() <= j2.len()
    &&& j2.subrange(0, j1.len() as int) == j1
    &&& forall|k: int| j1.len() <= k < j2.len() ==> j2[k] == drop_entry()
}

proof fn lemma_drops_keep_count(j1: Seq<(SbEvent, EventSeverity)>, j2: Seq<(SbEvent, EventSeverity)>)
    requires
        grows_by_drops(j1, j2),
    ensures
        started_count(j2) == started_count(j1),
    decreases j2.len(),
{
    if j2.len() > j1.len() {
        let j3 = j2.drop_last();
        assert(j3.subrange(0, j1.len() as int) =~= j2.subrange(0, j1.len() as int));
        lemma_drops_keep_count(j1, j3);
    } else {
        assert(j2 =~= j1);
    }
}

proof fn lemma_drops_trans(
    j1: Seq<(SbEvent, EventSeverity)>,
    j2: Seq<(SbEvent, EventSeverity)>,
    j3: Seq<(SbEvent, EventSeverity)>,
)
    requires
        grows_by_drops(j1, j2),
        grows_by_drops(j2, j3),
    ensures
        grows_by_drops(j1, j3),
{
    assert(j3.subrange(0, j1.len() as int) =~= j3.subrange(0, j2.len() as int).subrange(
        0,
        j1.len() as int,
    ));
    assert forall|k: int| j1.len() <= k < j3.len() implies j3[k] == drop_entry() by {
        if k < j2.len() {
            assert(j3[k] == j3.subrange(0, j2.len() as int)[k]);
        }
    }
}

proof fn lemma_note_grows(b: BusView, dropped: bool)
    ensures
        grows_by_drops(b.journal, note_if(b, dropped).journal),
{
    assert(note_if(b, dropped).journal.subrange(0, b.journal.len() as int) =~= b.journal);
}

proof fn lemma_resub_keeps(b: BusView, skip: int, n: nat)
    requires
        n <= b.links.len(),
    ensures
        grows_by_drops(b.journal, resub_upto(b, skip, n).journal),
        resub_upto(b, skip, n).links.len() == b.links.len(),
        resub_upto(b, skip, n).relay == b.relay,
        resub_upto(b, skip, n).computer == b.computer,
        resub_upto(b, skip, n).app_name == b.app_name,
        forall|j: int|
            0 <= j < b.links.len() ==> {
                &&& (#[trigger] resub_upto(b, skip, n).links[j]).connected == b.links[j].connected
                &&& resub_upto(b, skip, n).links[j].wanted == b.links[j].wanted
                &&& resub_upto(b, skip, n).links[j].posts == b.links[j].posts
            },
    decreases n,
{
    if n == 0 {
        assert(b.journal.subrange(0, b.journal.len() as int) =~= b.journal);
    } else {
        lemma_resub_keeps(b, skip, (n - 1) as nat);
        let b1 = resub_upto(b, skip, (n - 1) as nat);
        if n - 1 != skip {
            let r = link_send(
                b1.links[n - 1],
                KIND_SUB_REQ,
                enc_sub_req_data(sub_request(b1, n - 1)),
                b1.computer,
                b1.app_name,
            );
            lemma_note_grows(set_link(b1, n - 1, r.0), r.1 == SendStatus::Oversize);
            lemma_drops_trans(b.journal, b1.journal, resub_upto(b, skip, n).journal);
        }
        assert forall|j: int| 0 <= j < b.links.len() implies {
            &&& (#[trigger] resub_upto(b, skip, n).links[j]).connected == b.links[j].connected
            &&& resub_upto(b, skip, n).links[j].wanted == b.links[j].wanted
            &&& resub_upto(b, skip, n).links[j].posts == b.links[j].posts
        } by {
            assert(b1.links[j].connected == b.links[j].connected);
            assert(b1.links[j].wanted == b.links[j].wanted);
        }
    }
}

/// Sending the subscription request on a link notes at most a drop.
proof fn lemma_send_subs_grows(b: BusView, i: int)
    requires
        0 <= i < b.links.len(),
    ensures
        grows_by_drops(b.journal, bus_send_subs(b, i).journal),
        bus_send_subs(b, i).links[i].connected == b.links[i].connected,
{
    let r = link_send(b.links[i], KIND_SUB_REQ, enc_sub_req_data(sub_request(b, i)), b.computer, b.app_name);
    lemma_note_grows(set_link(b, i, r.0), r.1 == SendStatus::Oversize);
}

/// Routing a frame leaves the link it came on up. A link that was down comes
/// up with exactly one "heartbeat started" event; on a link that was up,
/// routing logs no such event.
pub proof fn lemma_route_revives(b: BusView, m: SbMsg, i: int, now: u64)
    requires
        0 <= i < b.links.len(),
    ensures
        bus_route(b, m, i, now).links[i].connected,
        !b.links[i].connected ==> started_count(bus_route(b, m, i, now).journal) == started_count(
            b.journal,
        ) + 1,
        b.links[i].connected ==> started_count(bus_route(b, m, i, now).journal) == started_count(
            b.journal,
        ),
{
    // the sequence check adds no start event
    let b0 = check_seq(b, i, m.sequence);
    match b.links[i].recv_seq {
        Some(prev) => if next_seq(prev) != m.sequence {
            if m.sequence == 0 {
                lemma_send_subs_grows(b, i);
                lemma_drops_keep_count(b.journal, b0.journal);
            } else {
                lemma_log_journal(b, SbEvent::SequenceCountError, EventSeverity::Error);
                assert(b0.journal.drop_last() =~= b.journal);
            }
        },
        None => {},
    }
    assert(started_count(b0.journal) == started_count(b.journal));
    assert(b0.links[i].connected == b.links[i].connected);
    // taking note of the frame adds one start event exactly where the link was down
    let l = b0.links[i];
    let l1 = if m.data is Heartbeat {
        LinkView { last_received: now, computer: m.computer, app_name: m.app_name, ..l }
    } else {
        LinkView { last_received: now, ..l }
    };
    let bl = set_link(b0, i, l1);
    let b1 = refresh(b0, i, m, now);
    if !l1.connected {
        let b2 = if m.data is Heartbeat {
            bus_send_subs(bl, i)
        } else {
            bl
        };
        if m.data is Heartbeat {
            lemma_send_subs_grows(bl, i);
            lemma_drops_keep_count(bl.journal, b2.journal);
        }
        let b3 = set_link(b2, i, LinkView { connected: true, ..b2.links[i] });
        let e = SbEvent::HeartBeatStarted(l1.computer, l1.app_name);
        lemma_log_journal(b3, e, EventSeverity::Info);
        assert(b1.journal.drop_last() =~= b3.journal);
        assert(started_count(b1.journal) == started_count(b.journal) + 1);
    }
    assert(b1.links[i].connected);
    // acting on the kind adds notes of dropped frames at most
    let b4 = bus_route(b, m, i, now);
    match m.data {
        SbMsgData::SbSubReq(r) => {
            let b2 = set_link(b1, i, LinkView { posts: r.subs@, ..b1.links[i] });
            if b1.relay {
                lemma_resub_keeps(b2, i, b2.links.len());
                lemma_drops_keep_count(b2.journal, b4.journal);
            }
        },
        SbMsgData::Heartbeat => {},
        _ => {
            if b1.relay {
                let fwd = BusView {
                    links: Seq::new(
                        b1.links.len(),
                        |j: int|
                            if j == i {
                                b1.links[j]
                            } else {
                                link_send(b1.links[j], kind_of(m.data), enc_data(m.data), m.computer, m.app_name).0
                            },
                    ),
                    ..b1
                };
                lemma_note_grows(fwd, forward_drops(b1, i, kind_of(m.data), enc_data(m.data), m.computer, m.app_name));
                lemma_drops_keep_count(b1.journal, b4.journal);
            }
        },
    }
}

proof fn lemma_relay_subs_set(links: Seq<LinkView>, i: int, n: nat)
    requires
        0 <= i < links.len(),
        n <= links.len(),
    ensures
        relay_subs(links, i, n).to_set() == links[i].wanted.to_set().union(
            Set::new(
                |k: SubKey| exists|j: int| 0 <= j < n && j != i && #[trigger] links[j].posts.contains(k),
            ),
        ),
    decreases n,
{
    let target = links[i].wanted.to_set().union(
        Set::new(|k: SubKey| exists|j: int| 0 <= j < n && j != i && #[trigger] links[j].posts.contains(k)),
    );
    if n == 0 {
        assert(relay_subs(links, i, n).to_set() =~= target);
    } else {
        lemma_relay_subs_set(links, i, (n - 1) as nat);
        let u = relay_subs(links, i, (n - 1) as nat);
        if n - 1 == i {
            assert(relay_subs(links, i, n).to_set() =~= target) by {
                assert forall|k: SubKey| target.contains(k) implies u.to_set().contains(k) by {
                    if !links[i].wanted.to_set().contains(k) {
                        let j = choose|j: int| 0 <= j < n && j != i && #[trigger] links[j].posts.contains(k);
                        assert(0 <= j < n - 1);
                    }
                }
            }
        } else {
            lemma_union_seq(u, links[n - 1].posts);
            assert(relay_subs(links, i, n).to_set() =~= target) by {
                assert forall|k: SubKey| target.contains(k) implies relay_subs(links, i, n).to_set().contains(k) by {
                    if !links[i].wanted.to_set().contains(k) {
                        let j = choose|j: int| 0 <= j < n && j != i && #[trigger] links[j].posts.contains(k);
                        if j == n - 1 {
                            assert(links[n - 1].posts.to_set().contains(k));
                        } else {
                            assert(u.to_set().contains(k));
                        }
                    }
                }
                assert forall|k: SubKey| relay_subs(links, i, n).to_set().contains(k) implies target.contains(k) by {
                    if links[n - 1].posts.to_set().contains(k) && !u.to_set().contains(k) {
                        assert(links[n - 1].posts.contains(k));
                    }
                }
            }
        }
    }
}

/// When relaying, the subscription request for link `i` asks for what `i`
/// wants together with what every other link has been asked for.
pub proof fn lemma_relay_union(b: BusView, i: int)
    requires
        b.relay,
        0 <= i < b.links.len(),
    ensures
        sub_request(b, i).to_set() == b.links[i].wanted.to_set().union(
            Set::new(
                |k: SubKey|
                    exists|j: int|
                        0 <= j < b.links.len() && j != i && #[trigger] b.links[j].posts.contains(k),
            ),
        ),
{
    lemma_relay_subs_set(b.links, i, b.links.len());
}

proof fn lemma_relay_subs_same(l1: Seq<LinkView>, l2: Seq<LinkView>, i: int, n: nat)
    requires
        l1.len() == l2.len(),
        n <= l1.len(),
        0 <= i < l1.len(),
        forall|j: int|
            0 <= j < l1.len() ==> (#[trigger] l1[j]).wanted == l2[j].wanted && l1[j].posts
                == l2[j].posts,
    ensures
        relay_subs(l1, i, n) == relay_subs(l2, i, n),
    decreases n,
{
    if n > 0 {
        lemma_relay_subs_same(l1, l2, i, (n - 1) as nat);
        assert(l1[n - 1].posts == l2[n - 1].posts);
    }
    assert(l1[i].wanted == l2[i].wanted);
}

proof fn lemma_resub_sends(b: BusView, skip: int, n: nat, i: int)
    requires
        n <= b.links.len(),
        0 <= i < b.links.len(),
    ensures
        resub_upto(b, skip, n).links[i] == if i < n && i != skip {
            link_send(
                b.links[i],
                KIND_SUB_REQ,
                enc_sub_req_data(sub_request(b, i)),
                b.computer,
                b.app_name,
            ).0
        } else {
            b.links[i]
        },
    decreases n,
{
    if n > 0 {
        lemma_resub_sends(b, skip, (n - 1) as nat, i);
        let b1 = resub_upto(b, skip, (n - 1) as nat);
        lemma_resub_keeps(b, skip, (n - 1) as nat);
        if n - 1 != skip && i == n - 1 {
            lemma_relay_subs_same(b1.links, b.links, i, b.links.len());
            assert(sub_request(b1, i) == sub_request(b, i));
        }
    }
}

/// When relaying, after a subscription request comes in on link `j`, every
/// other link `i` is sent a subscription request, and the keys it carries
/// are what `i` wants together with what every link but `i` has been asked
/// for at that moment (link `j`'s new request included).
pub proof fn lemma_relay_resubscribes(b: BusView, m: SbMsg, j: int, now: u64, i: int)
    requires
        b.relay,
        m.data is SbSubReq,
        0 <= j < b.links.len(),
        0 <= i < b.links.len(),
        i != j,
    ensures
        ({
            let b1 = refresh(check_seq(b, j, m.sequence), j, m, now);
            let b2 = set_link(b1, j, LinkView { posts: m.data->SbSubReq_0.subs@, ..b1.links[j] });
            &&& bus_route(b, m, j, now).links[i] == link_send(
                b2.links[i],
                KIND_SUB_REQ,
                enc_sub_req_data(sub_request(b2, i)),
                b.computer,
                b.app_name,
            ).0
            &&& sub_request(b2, i).to_set() == b2.links[i].wanted.to_set().union(
                Set::new(
                    |k: SubKey|
                        exists|x: int|
                            0 <= x < b2.links.len() && x != i && #[trigger] b2.links[x].posts.contains(
                                k,
                            ),
                ),
            )
            &&& b2.links[j].posts == m.data->SbSubReq_0.subs@
        }),
{
    let b1 = refresh(check_seq(b, j, m.sequence), j, m, now);
    let b2 = set_link(b1, j, LinkView { posts: m.data->SbSubReq_0.subs@, ..b1.links[j] });
    lemma_resub_sends(b2, j, b2.links.len(), i);
    lemma_relay_union(b2, i);
}

/// Link `i` is sent its subscription request, stamped with its own sequence
/// number: the keys are what `i` wants and, when relaying, what every other
/// link has been asked for. Where the frame does not fit a transport it is
/// dropped, the link is left as it was, and the drop is noted in the journal.
pub proof fn lemma_send_subs_frame(b: BusView, i: int)
    requires
        0 <= i < b.links.len(),
    ensures
        ({
            let frame = enc_frame(
                enc_sub_req_data(sub_request(b, i)),
                b.computer,
                b.app_name,
                b.links[i].send_seq,
            );
            let after = bus_send_subs(b, i);
            &&& frame.len() <= MAX_FRAME_LEN ==> {
                &&& after.links[i].outbox == b.links[i].outbox.push(frame)
                &&& after.links[i].send_seq == next_seq(b.links[i].send_seq)
                &&& after.journal == b.journal
            }
            &&& frame.len() > MAX_FRAME_LEN ==> {
                &&& after.links[i] == b.links[i]
                &&& after.journal == b.journal.push(drop_entry())
            }
            &&& b.relay ==> sub_request(b, i).to_set() == b.links[i].wanted.to_set().union(
                Set::new(
                    |k: SubKey|
                        exists|j: int|
                            0 <= j < b.links.len() && j != i && #[trigger] b.links[j].posts.contains(
                                k,
                            ),
                ),
            )
            &&& !b.relay ==> sub_request(b, i) == b.links[i].wanted
        }),
{
    if b.relay {
        lemma_relay_union(b, i);
    }
}

} // verus!
