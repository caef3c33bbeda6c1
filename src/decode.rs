//! Reading envelopes back from frames.
use vstd::bytes::*;
use vstd::prelude::*;
use vstd::slice::slice_subrange;

use crate::msg::{
    AppName, Computer, DataView, MsgView, RelayOut, RelayOutConnectionStatus, SbEvent, SbMsg,
    SbMsgData, SbSubReq, SchOut, ExampleOut, SubKey,
};
use crate::perf::PerfData;
use crate::wire::{
    enc_app, enc_bool, enc_computer, enc_data, enc_event, enc_key, enc_keys, enc_msg, enc_perf,
    enc_status, enc_statuses, enc_u16, enc_u32, enc_u64,
};

verus! {

/// Why a frame could not be read.
#[derive(Debug, Clone, Copy, PartialEq, Eq, Structural)]
pub enum DecodeError {
    /// The frame is not the encoding of an envelope.
    Malformed,
}

pub open spec fn parse_u16(s: Seq<u8>, p: int) -> Option<(u16, int)> {
    if 0 <= p && p + 2 <= s.len() {
        Some((spec_u16_from_le_bytes(s.subrange(p, p + 2)), p + 2))
    } else {
        None
    }
}

pub open spec fn parse_u32(s: Seq<u8>, p: int) -> Option<(u32, int)> {
    if 0 <= p && p + 4 <= s.len() {
        Some((spec_u32_from_le_bytes(s.subrange(p, p + 4)), p + 4))
    } else {
        None
    }
}

pub open spec fn parse_u64(s: Seq<u8>, p: int) -> Option<(u64, int)> {
    if 0 <= p && p + 8 <= s.len() {
        Some((spec_u64_from_le_bytes(s.subrange(p, p + 8)), p + 8))
    } else {
        None
    }
}

pub open spec fn parse_bool(s: Seq<u8>, p: int) -> Option<(bool, int)> {
    if 0 <= p < s.len() && s[p] <= 1 {
        Some((s[p] == 1, p + 1))
    } else {
        None
    }
}

pub open spec fn computer_of(t: u32) -> Option<Computer> {
    if t == 0 {
        Some(Computer::Unset)
    } else if t == 1 {
        Some(Computer::Flight)
    } else if t == 2 {
        Some(Computer::Payload)
    } else if t == 3 {
        Some(Computer::Ground)
    } else {
        None
    }
}

pub open spec fn app_of(t: u32) -> Option<AppName> {
    if t == 0 {
        Some(AppName::Unset)
    } else if t == 1 {
        Some(AppName::Relay)
    } else if t == 2 {
        Some(AppName::Sch)
    } else if t == 3 {
        Some(AppName::Example)
    } else if t == 4 {
        Some(AppName::Ground)
    } else {
        None
    }
}

pub open spec fn parse_computer(s: Seq<u8>, p: int) -> Option<(Computer, int)> {
    match parse_u32(s, p) {
        Some((t, q)) => match computer_of(t) {
            Some(c) => Some((c, q)),
            None => None,
        },
        None => None,
    }
}

pub open spec fn parse_app(s: Seq<u8>, p: int) -> Option<(AppName, int)> {
    match parse_u32(s, p) {
        Some((t, q)) => match app_of(t) {
            Some(a) => Some((a, q)),
            None => None,
        },
        None => None,
    }
}

/// The event without fields whose tag is `t`.
pub open spec fn plain_event(t: u32) -> SbEvent {
    if t == 0 {
        SbEvent::Empty
    } else if t == 1 {
        SbEvent::AppInit
    } else if t == 5 {
        SbEvent::SerializeError
    } else if t == 6 {
        SbEvent::DeserializeError
    } else if t == 7 {
        SbEvent::PollError
    } else if t == 8 {
        SbEvent::SequenceCountError
    } else {
        SbEvent::ExampleRun
    }
}

pub open spec fn parse_event(s: Seq<u8>, p: int) -> Option<(SbEvent, int)> {
    match parse_u32(s, p) {
        Some((t, q)) => if t == 2 {
            match parse_u32(s, q) {
                Some((n, r)) => Some((SbEvent::SchBroke(n), r)),
                None => None,
            }
        } else if t == 3 || t == 4 {
            match parse_computer(s, q) {
                Some((c, r)) => match parse_app(s, r) {
                    Some((a, u)) => Some(
                        (
                            if t == 3 {
                                SbEvent::HeartBeatStarted(c, a)
                            } else {
                                SbEvent::HeartBeatStopped(c, a)
                            },
                            u,
                        ),
                    ),
                    None => None,
                },
                None => None,
            }
        } else if t <= 9 {
            Some((plain_event(t), q))
        } else {
            None
        },
        None => None,
    }
}

/// The `k`-th `u64` of the 8-byte fields from `p` on.
pub open spec fn u64_field(s: Seq<u8>, p: int, k: int) -> u64 {
    spec_u64_from_le_bytes(s.subrange(p + 8 * k, p + 8 * k + 8))
}

pub open spec fn parse_perf(s: Seq<u8>, p: int) -> Option<(PerfData, int)> {
    if 0 <= p && p + 48 <= s.len() {
        Some(
            (
                PerfData {
                    last_rate_time: u64_field(s, p, 0),
                    start_time: u64_field(s, p, 1),
                    beginning: u64_field(s, p, 2),
                    time_tag: u64_field(s, p, 3),
                    last_rate: u64_field(s, p, 4),
                    last_duration: u64_field(s, p, 5),
                },
                p + 48,
            ),
        )
    } else {
        None
    }
}

pub open spec fn parse_key(s: Seq<u8>, p: int) -> Option<(SubKey, int)> {
    match parse_u64(s, p) {
        Some((k, q)) => match parse_computer(s, q) {
            Some((c, r)) => Some(((k, c), r)),
            None => None,
        },
        None => None,
    }
}

/// `n` keys, one after another, from `p` on.
pub open spec fn parse_keys(s: Seq<u8>, p: int, n: nat) -> Option<(Seq<SubKey>, int)>
    decreases n,
{
    if n == 0 {
        Some((Seq::empty(), p))
    } else {
        match parse_keys(s, p, (n - 1) as nat) {
            Some((ks, q)) => match parse_key(s, q) {
                Some((k, r)) => Some((ks.push(k), r)),
                None => None,
            },
            None => None,
        }
    }
}

pub open spec fn parse_status(s: Seq<u8>, p: int) -> Option<(RelayOutConnectionStatus, int)> {
    match parse_computer(s, p) {
        Some((c, q)) => match parse_app(s, q) {
            Some((a, r)) => match parse_bool(s, r) {
                Some((h, u)) => Some(
                    (RelayOutConnectionStatus { computer: c, app_name: a, heartbeating: h }, u),
                ),
                None => None,
            },
            None => None,
        },
        None => None,
    }
}

/// `n` link states, one after another, from `p` on.
pub open spec fn parse_statuses(s: Seq<u8>, p: int, n: nat) -> Option<
    (Seq<RelayOutConnectionStatus>, int),
>
    decreases n,
{
    if n == 0 {
        Some((Seq::empty(), p))
    } else {
        match parse_statuses(s, p, (n - 1) as nat) {
            Some((ss, q)) => match parse_status(s, q) {
                Some((st, r)) => Some((ss.push(st), r)),
                None => None,
            },
            None => None,
        }
    }
}

/// The payload of kind `t` (a kind without fields, 3 to 8).
pub open spec fn tick_of(t: u32) -> DataView {
    if t == 3 {
        DataView::Sch100Hz
    } else if t == 4 {
        DataView::Sch50Hz
    } else if t == 5 {
        DataView::Sch25Hz
    } else if t == 6 {
        DataView::Sch10Hz
    } else if t == 7 {
        DataView::Sch5Hz
    } else {
        DataView::Sch1Hz
    }
}

/// The log payload of kind `t` (11 to 15) carrying `e`.
pub open spec fn log_of(t: u32, e: SbEvent) -> DataView {
    if t == 11 {
        DataView::ErrorMsg(e)
    } else if t == 12 {
        DataView::WarnMsg(e)
    } else if t == 13 {
        DataView::InfoMsg(e)
    } else if t == 14 {
        DataView::DebugMsg(e)
    } else {
        DataView::TraceMsg(e)
    }
}

pub open spec fn parse_data(s: Seq<u8>, p: int) -> Option<(DataView, int)> {
    match parse_u32(s, p) {
        Some((t, q)) => if t == 0 {
            Some((DataView::Heartbeat, q))
        } else if t == 1 {
            match parse_u64(s, q) {
                Some((n, r)) => match parse_keys(s, r, n as nat) {
                    Some((ks, u)) => Some((DataView::SbSubReq(ks), u)),
                    None => None,
                },
                None => None,
            }
        } else if t == 2 || t == 9 {
            match parse_perf(s, q) {
                Some((pd, r)) => Some(
                    (
                        if t == 2 {
                            DataView::SchOut(pd)
                        } else {
                            DataView::ExampleOut(pd)
                        },
                        r,
                    ),
                ),
                None => None,
            }
        } else if 3 <= t <= 8 {
            Some((tick_of(t), q))
        } else if t == 10 {
            match parse_u64(s, q) {
                Some((n, r)) => match parse_statuses(s, r, n as nat) {
                    Some((ss, u)) => Some((DataView::RelayOut(ss), u)),
                    None => None,
                },
                None => None,
            }
        } else if 11 <= t <= 15 {
            match parse_event(s, q) {
                Some((e, r)) => Some((log_of(t, e), r)),
                None => None,
            }
        } else {
            None
        },
        None => None,
    }
}

/// The envelope that the frame `s` encodes, if it encodes one.
pub open spec fn parse_msg(s: Seq<u8>) -> Option<MsgView> {
    match parse_data(s, 0) {
        Some((d, p)) => match parse_computer(s, p) {
            Some((c, q)) => match parse_app(s, q) {
                Some((a, r)) => match parse_u16(s, r) {
                    Some((n, u)) => if u == s.len() {
                        Some(MsgView { data: d, computer: c, app_name: a, sequence: n })
                    } else {
                        None
                    },
                    None => None,
                },
                None => None,
            },
            None => None,
        },
        None => None,
    }
}

/// An exec result with its position as an integer.
pub open spec fn lift<T>(r: Option<(T, usize)>) -> Option<(T, int)> {
    match r {
        Some((v, q)) => Some((v, q as int)),
        None => None,
    }
}

fn read_u16(s: &[u8], p: usize) -> (r: Option<(u16, usize)>)
    ensures
        lift(r) == parse_u16(s@, p as int),
{
    if p <= s.len() && s.len() - p >= 2 {
        let v = u16_from_le_bytes(slice_subrange(s, p, p + 2));
        Some((v, p + 2))
    } else {
        None
    }
}

fn read_u32(s: &[u8], p: usize) -> (r: Option<(u32, usize)>)
    ensures
        lift(r) == parse_u32(s@, p as int),
{
    if p <= s.len() && s.len() - p >= 4 {
        let v = u32_from_le_bytes(slice_subrange(s, p, p + 4));
        Some((v, p + 4))
    } else {
        None
    }
}

fn read_u64(s: &[u8], p: usize) -> (r: Option<(u64, usize)>)
    ensures
        lift(r) == parse_u64(s@, p as int),
{
    if p <= s.len() && s.len() - p >= 8 {
        let v = u64_from_le_bytes(slice_subrange(s, p, p + 8));
        Some((v, p + 8))
    } else {
        None
    }
}

fn read_bool(s: &[u8], p: usize) -> (r: Option<(bool, usize)>)
    ensures
        lift(r) == parse_bool(s@, p as int),
{
    if p < s.len() && s[p] <= 1 {
        Some((s[p] == 1, p + 1))
    } else {
        None
    }
}

fn read_computer(s: &[u8], p: usize) -> (r: Option<(Computer, usize)>)
    ensures
        lift(r) == parse_computer(s@, p as int),
{
    match read_u32(s, p) {
        Some((t, q)) => {
            if t == 0 {
                Some((Computer::Unset, q))
            } else if t == 1 {
                Some((Computer::Flight, q))
            } else if t == 2 {
                Some((Computer::Payload, q))
            } else if t == 3 {
                Some((Computer::Ground, q))
            } else {
                None
            }
        },
        None => None,
    }
}

fn read_app(s: &[u8], p: usize) -> (r: Option<(AppName, usize)>)
    ensures
        lift(r) == parse_app(s@, p as int),
{
    match read_u32(s, p) {
        Some((t, q)) => {
            if t == 0 {
                Some((AppName::Unset, q))
            } else if t == 1 {
                Some((AppName::Relay, q))
            } else if t == 2 {
                Some((AppName::Sch, q))
            } else if t == 3 {
                Some((AppName::Example, q))
            } else if t == 4 {
                Some((AppName::Ground, q))
            } else {
                None
            }
        },
        None => None,
    }
}

fn read_event(s: &[u8], p: usize) -> (r: Option<(SbEvent, usize)>)
    ensures
        lift(r) == parse_event(s@, p as int),
{
    let (t, q) = match read_u32(s, p) {
        Some(x) => x,
        None => return None,
    };
    if t == 2 {
        match read_u32(s, q) {
            Some((n, r)) => Some((SbEvent::SchBroke(n), r)),
            None => None,
        }
    } else if t == 3 || t == 4 {
        let (c, r) = match read_computer(s, q) {
            Some(x) => x,
            None => return None,
        };
        let (a, u) = match read_app(s, r) {
            Some(x) => x,
            None => return None,
        };
        if t == 3 {
            Some((SbEvent::HeartBeatStarted(c, a), u))
        } else {
            Some((SbEvent::HeartBeatStopped(c, a), u))
        }
    } else if t <= 9 {
        let e = if t == 0 {
            SbEvent::Empty
        } else if t == 1 {
            SbEvent::AppInit
        } else if t == 5 {
            SbEvent::SerializeError
        } else if t == 6 {
            SbEvent::DeserializeError
        } else if t == 7 {
            SbEvent::PollError
        } else if t == 8 {
            SbEvent::SequenceCountError
        } else {
            SbEvent::ExampleRun
        };
        Some((e, q))
    } else {
        None
    }
}

fn read_perf(s: &[u8], p: usize) -> (r: Option<(PerfData, usize)>)
    ensures
        lift(r) == parse_perf(s@, p as int),
{
    if p <= s.len() && s.len() - p >= 48 {
        let f0 = u64_from_le_bytes(slice_subrange(s, p, p + 8));
        let f1 = u64_from_le_bytes(slice_subrange(s, p + 8, p + 16));
        let f2 = u64_from_le_bytes(slice_subrange(s, p + 16, p + 24));
        let f3 = u64_from_le_bytes(slice_subrange(s, p + 24, p + 32));
        let f4 = u64_from_le_bytes(slice_subrange(s, p + 32, p + 40));
        let f5 = u64_from_le_bytes(slice_subrange(s, p + 40, p + 48));
        let pd = PerfData {
            last_rate_time: f0,
            start_time: f1,
            beginning: f2,
            time_tag: f3,
            last_rate: f4,
            last_duration: f5,
        };
        Some((pd, p + 48))
    } else {
        None
    }
}

fn read_key(s: &[u8], p: usize) -> (r: Option<(SubKey, usize)>)
    ensures
        lift(r) == parse_key(s@, p as int),
{
    let (k, q) = match read_u64(s, p) {
        Some(x) => x,
        None => return None,
    };
    match read_computer(s, q) {
        Some((c, r)) => Some(((k, c), r)),
        None => None,
    }
}

proof fn lemma_keys_fail(s: Seq<u8>, p: int, m: nat, n: nat)
    requires
        parse_keys(s, p, m) is None,
        m <= n,
    ensures
        parse_keys(s, p, n) is None,
    decreases n - m,
{
    if m < n {
        lemma_keys_fail(s, p, m, (n - 1) as nat);
    }
}

proof fn lemma_statuses_fail(s: Seq<u8>, p: int, m: nat, n: nat)
    requires
        parse_statuses(s, p, m) is None,
        m <= n,
    ensures
        parse_statuses(s, p, n) is None,
    decreases n - m,
{
    if m < n {
        lemma_statuses_fail(s, p, m, (n - 1) as nat);
    }
}

fn read_keys(s: &[u8], p: usize, n: u64) -> (r: Option<(Vec<SubKey>, usize)>)
    ensures
        match r {
            Some((v, q)) => parse_keys(s@, p as int, n as nat) == Some((v@, q as int)),
            None => parse_keys(s@, p as int, n as nat) is None,
        },
{
    let mut out: Vec<SubKey> = Vec::new();
    let mut pos = p;
    let mut i: u64 = 0;
    while i < n
        invariant
            i <= n,
            parse_keys(s@, p as int, i as nat) == Some((out@, pos as int)),
        decreases n - i,
    {
        match read_key(s, pos) {
            Some((k, q)) => {
                out.push(k);
                pos = q;
            },
            None => {
                proof {
                    lemma_keys_fail(s@, p as int, (i + 1) as nat, n as nat);
                }
                return None;
            },
        }
        i = i + 1;
    }
    Some((out, pos))
}

fn read_status(s: &[u8], p: usize) -> (r: Option<(RelayOutConnectionStatus, usize)>)
    ensures
        lift(r) == parse_status(s@, p as int),
{
    let (c, q) = match read_computer(s, p) {
        Some(x) => x,
        None => return None,
    };
    let (a, r) = match read_app(s, q) {
        Some(x) => x,
        None => return None,
    };
    match read_bool(s, r) {
        Some((h, u)) => Some((RelayOutConnectionStatus { computer: c, app_name: a, heartbeating: h }, u)),
        None => None,
    }
}

fn read_statuses(s: &[u8], p: usize, n: u64) -> (r: Option<(Vec<RelayOutConnectionStatus>, usize)>)
    ensures
        match r {
            Some((v, q)) => parse_statuses(s@, p as int, n as nat) == Some((v@, q as int)),
            None => parse_statuses(s@, p as int, n as nat) is None,
        },
{
    let mut out: Vec<RelayOutConnectionStatus> = Vec::new();
    let mut pos = p;
    let mut i: u64 = 0;
    while i < n
        invariant
            i <= n,
            parse_statuses(s@, p as int, i as nat) == Some((out@, pos as int)),
        decreases n - i,
    {
        match read_status(s, pos) {
            Some((st, q)) => {
                out.push(st);
                pos = q;
            },
            None => {
                proof {
                    lemma_statuses_fail(s@, p as int, (i + 1) as nat, n as nat);
                }
                return None;
            },
        }
        i = i + 1;
    }
    Some((out, pos))
}

fn read_data(s: &[u8], p: usize) -> (r: Option<(SbMsgData, usize)>)
    ensures
        match r {
            Some((d, q)) => parse_data(s@, p as int) == Some((d@, q as int)),
            None => parse_data(s@, p as int) is None,
        },
{
    let (t, q) = match read_u32(s, p) {
        Some(x) => x,
        None => return None,
    };
    if t == 0 {
        Some((SbMsgData::Heartbeat, q))
    } else if t == 1 {
        let (n, r) = match read_u64(s, q) {
            Some(x) => x,
            None => return None,
        };
        match read_keys(s, r, n) {
            Some((subs, u)) => Some((SbMsgData::SbSubReq(SbSubReq { subs }), u)),
            None => None,
        }
    } else if t == 2 || t == 9 {
        match read_perf(s, q) {
            Some((perf, r)) => {
                if t == 2 {
                    Some((SbMsgData::SchOut(SchOut { perf }), r))
                } else {
                    Some((SbMsgData::ExampleOut(ExampleOut { perf }), r))
                }
            },
            None => None,
        }
    } else if 3 <= t && t <= 8 {
        let d = if t == 3 {
            SbMsgData::Sch100Hz
        } else if t == 4 {
            SbMsgData::Sch50Hz
        } else if t == 5 {
            SbMsgData::Sch25Hz
        } else if t == 6 {
            SbMsgData::Sch10Hz
        } else if t == 7 {
            SbMsgData::Sch5Hz
        } else {
            SbMsgData::Sch1Hz
        };
        Some((d, q))
    } else if t == 10 {
        let (n, r) = match read_u64(s, q) {
            Some(x) => x,
            None => return None,
        };
        match read_statuses(s, r, n) {
            Some((connection_status, u)) => Some(
                (SbMsgData::RelayOut(RelayOut { connection_status }), u),
            ),
            None => None,
        }
    } else if 11 <= t && t <= 15 {
        let (e, r) = match read_event(s, q) {
            Some(x) => x,
            None => return None,
        };
        let d = if t == 11 {
            SbMsgData::ErrorMsg(e)
        } else if t == 12 {
            SbMsgData::WarnMsg(e)
        } else if t == 13 {
            SbMsgData::InfoMsg(e)
        } else if t == 14 {
            SbMsgData::DebugMsg(e)
        } else {
            SbMsgData::TraceMsg(e)
        };
        Some((d, r))
    } else {
        None
    }
}

impl SbMsg {
    /// Reads the envelope that `bytes` encodes, the whole of it; fails on
    /// anything else.
    pub fn deserialize(bytes: &[u8]) -> (r: Result<SbMsg, DecodeError>)
        ensures
            match r {
                Ok(m) => parse_msg(bytes@) == Some(m@),
                Err(_) => parse_msg(bytes@) is None,
            },
    {
        let (data, p) = match read_data(bytes, 0) {
            Some(x) => x,
            None => return Err(DecodeError::Malformed),
        };
        let (computer, q) = match read_computer(bytes, p) {
            Some(x) => x,
            None => return Err(DecodeError::Malformed),
        };
        let (app_name, r) = match read_app(bytes, q) {
            Some(x) => x,
            None => return Err(DecodeError::Malformed),
        };
        let (sequence, u) = match read_u16(bytes, r) {
            Some(x) => x,
            None => return Err(DecodeError::Malformed),
        };
        if u != bytes.len() {
            return Err(DecodeError::Malformed);
        }
        Ok(SbMsg { data, computer, app_name, sequence })
    }
}

/// `s` holds `x` from position `p` on.
pub open spec fn at(s: Seq<u8>, p: int, x: Seq<u8>) -> bool {
    0 <= p && p + x.len() <= s.len() && s.subrange(p, p + x.len()) == x
}

proof fn lemma_at_split(s: Seq<u8>, p: int, a: Seq<u8>, b: Seq<u8>)
    requires
        at(s, p, a + b),
    ensures
        at(s, p, a),
        at(s, p + a.len(), b),
{
    let whole = s.subrange(p, p + a.len() + b.len());
    assert(whole == a + b);
    assert(s.subrange(p, p + a.len()) =~= whole.subrange(0, a.len() as int));
    assert((a + b).subrange(0, a.len() as int) =~= a);
    assert(s.subrange(p + a.len(), p + a.len() + b.len()) =~= whole.subrange(
        a.len() as int,
        (a.len() + b.len()) as int,
    ));
    assert((a + b).subrange(a.len() as int, (a.len() + b.len()) as int) =~= b);
}

proof fn lemma_u16(s: Seq<u8>, p: int, x: u16)
    requires
        at(s, p, enc_u16(x)),
    ensures
        parse_u16(s, p) == Some((x, p + 2)),
        enc_u16(x).len() == 2,
{
    lemma_auto_spec_u16_to_from_le_bytes();
}

proof fn lemma_u32(s: Seq<u8>, p: int, x: u32)
    requires
        at(s, p, enc_u32(x)),
    ensures
        parse_u32(s, p) == Some((x, p + 4)),
        enc_u32(x).len() == 4,
{
    lemma_auto_spec_u32_to_from_le_bytes();
}

proof fn lemma_u64(s: Seq<u8>, p: int, x: u64)
    requires
        at(s, p, enc_u64(x)),
    ensures
        parse_u64(s, p) == Some((x, p + 8)),
        enc_u64(x).len() == 8,
{
    lemma_auto_spec_u64_to_from_le_bytes();
}

proof fn lemma_computer(s: Seq<u8>, p: int, c: Computer)
    requires
        at(s, p, enc_computer(c)),
    ensures
        parse_computer(s, p) == Some((c, p + 4)),
        enc_computer(c).len() == 4,
{
    lemma_auto_spec_u32_to_from_le_bytes();
}

proof fn lemma_app(s: Seq<u8>, p: int, a: AppName)
    requires
        at(s, p, enc_app(a)),
    ensures
        parse_app(s, p) == Some((a, p + 4)),
        enc_app(a).len() == 4,
{
    lemma_auto_spec_u32_to_from_le_bytes();
}

proof fn lemma_event(s: Seq<u8>, p: int, e: SbEvent)
    requires
        at(s, p, enc_event(e)),
    ensures
        parse_event(s, p) == Some((e, p + enc_event(e).len())),
{
    lemma_auto_spec_u32_to_from_le_bytes();
    match e {
        SbEvent::SchBroke(n) => {
            lemma_at_split(s, p, enc_u32(2), enc_u32(n));
            lemma_u32(s, p, 2);
            lemma_u32(s, p + 4, n);
        },
        SbEvent::HeartBeatStarted(c, a) => {
            assert(enc_event(e) == enc_u32(3) + (enc_computer(c) + enc_app(a)));
            lemma_at_split(s, p, enc_u32(3), enc_computer(c) + enc_app(a));
            lemma_at_split(s, p + 4, enc_computer(c), enc_app(a));
            lemma_u32(s, p, 3);
            lemma_computer(s, p + 4, c);
            lemma_app(s, p + 8, a);
        },
        SbEvent::HeartBeatStopped(c, a) => {
            assert(enc_event(e) == enc_u32(4) + (enc_computer(c) + enc_app(a)));
            lemma_at_split(s, p, enc_u32(4), enc_computer(c) + enc_app(a));
            lemma_at_split(s, p + 4, enc_computer(c), enc_app(a));
            lemma_u32(s, p, 4);
            lemma_computer(s, p + 4, c);
            lemma_app(s, p + 8, a);
        },
        _ => {
            assert(enc_event(e) =~= enc_u32(crate::wire::event_tag(e)));
            lemma_u32(s, p, crate::wire::event_tag(e));
        },
    }
}

proof fn lemma_perf(s: Seq<u8>, p: int, pd: PerfData)
    requires
        at(s, p, enc_perf(pd)),
    ensures
        parse_perf(s, p) == Some((pd, p + 48)),
        enc_perf(pd).len() == 48,
{
    lemma_auto_spec_u64_to_from_le_bytes();
    let a0 = enc_u64(pd.last_rate_time);
    let a1 = a0 + enc_u64(pd.start_time);
    let a2 = a1 + enc_u64(pd.beginning);
    let a3 = a2 + enc_u64(pd.time_tag);
    let a4 = a3 + enc_u64(pd.last_rate);
    lemma_at_split(s, p, a4, enc_u64(pd.last_duration));
    lemma_at_split(s, p, a3, enc_u64(pd.last_rate));
    lemma_at_split(s, p, a2, enc_u64(pd.time_tag));
    lemma_at_split(s, p, a1, enc_u64(pd.beginning));
    lemma_at_split(s, p, a0, enc_u64(pd.start_time));
    lemma_u64(s, p, pd.last_rate_time);
    lemma_u64(s, p + 8, pd.start_time);
    lemma_u64(s, p + 16, pd.beginning);
    lemma_u64(s, p + 24, pd.time_tag);
    lemma_u64(s, p + 32, pd.last_rate);
    lemma_u64(s, p + 40, pd.last_duration);
}

proof fn lemma_keys(s: Seq<u8>, p: int, ks: Seq<SubKey>)
    requires
        at(s, p, enc_keys(ks)),
    ensures
        parse_keys(s, p, ks.len()) == Some((ks, p + enc_keys(ks).len())),
    decreases ks.len(),
{
    if ks.len() == 0 {
        assert(ks =~= Seq::<SubKey>::empty());
    } else {
        let init = ks.drop_last();
        let k = ks.last();
        lemma_at_split(s, p, enc_keys(init), enc_key(k));
        lemma_keys(s, p, init);
        let q = p + enc_keys(init).len();
        lemma_at_split(s, q, enc_u64(k.0), enc_computer(k.1));
        lemma_u64(s, q, k.0);
        lemma_computer(s, q + 8, k.1);
        assert(init.push(k) =~= ks);
    }
}

proof fn lemma_statuses(s: Seq<u8>, p: int, ss: Seq<RelayOutConnectionStatus>)
    requires
        at(s, p, enc_statuses(ss)),
    ensures
        parse_statuses(s, p, ss.len()) == Some((ss, p + enc_statuses(ss).len())),
    decreases ss.len(),
{
    if ss.len() == 0 {
        assert(ss =~= Seq::<RelayOutConnectionStatus>::empty());
    } else {
        let init = ss.drop_last();
        let st = ss.last();
        lemma_at_split(s, p, enc_statuses(init), enc_status(st));
        lemma_statuses(s, p, init);
        let q = p + enc_statuses(init).len();
        lemma_at_split(s, q, enc_computer(st.computer) + enc_app(st.app_name), enc_bool(st.heartbeating));
        lemma_at_split(s, q, enc_computer(st.computer), enc_app(st.app_name));
        lemma_computer(s, q, st.computer);
        lemma_app(s, q + 4, st.app_name);
        assert(s[q + 8] == enc_bool(st.heartbeating)[0]);
        assert(init.push(st) =~= ss);
    }
}

proof fn lemma_data(s: Seq<u8>, p: int, d: SbMsgData)
    requires
        at(s, p, enc_data(d)),
    ensures
        parse_data(s, p) == Some((d@, p + enc_data(d).len())),
{
    lemma_auto_spec_u32_to_from_le_bytes();
    lemma_auto_spec_u64_to_from_le_bytes();
    match d {
        SbMsgData::SbSubReq(r) => {
            let ks = r.subs@;
            assert(ks.len() == r.subs.len());
            lemma_at_split(s, p, enc_u32(1) + enc_u64(ks.len() as u64), enc_keys(ks));
            lemma_at_split(s, p, enc_u32(1), enc_u64(ks.len() as u64));
            lemma_u32(s, p, 1);
            lemma_u64(s, p + 4, ks.len() as u64);
            lemma_keys(s, p + 12, ks);
        },
        SbMsgData::SchOut(o) => {
            lemma_at_split(s, p, enc_u32(2), enc_perf(o.perf));
            lemma_u32(s, p, 2);
            lemma_perf(s, p + 4, o.perf);
        },
        SbMsgData::ExampleOut(o) => {
            lemma_at_split(s, p, enc_u32(9), enc_perf(o.perf));
            lemma_u32(s, p, 9);
            lemma_perf(s, p + 4, o.perf);
        },
        SbMsgData::RelayOut(r) => {
            let ss = r.connection_status@;
            assert(ss.len() == r.connection_status.len());
            lemma_at_split(s, p, enc_u32(10) + enc_u64(ss.len() as u64), enc_statuses(ss));
            lemma_at_split(s, p, enc_u32(10), enc_u64(ss.len() as u64));
            lemma_u32(s, p, 10);
            lemma_u64(s, p + 4, ss.len() as u64);
            lemma_statuses(s, p + 12, ss);
        },
        SbMsgData::ErrorMsg(e) => {
            lemma_at_split(s, p, enc_u32(11), enc_event(e));
            lemma_u32(s, p, 11);
            lemma_event(s, p + 4, e);
        },
        SbMsgData::WarnMsg(e) => {
            lemma_at_split(s, p, enc_u32(12), enc_event(e));
            lemma_u32(s, p, 12);
            lemma_event(s, p + 4, e);
        },
        SbMsgData::InfoMsg(e) => {
            lemma_at_split(s, p, enc_u32(13), enc_event(e));
            lemma_u32(s, p, 13);
            lemma_event(s, p + 4, e);
        },
        SbMsgData::DebugMsg(e) => {
            lemma_at_split(s, p, enc_u32(14), enc_event(e));
            lemma_u32(s, p, 14);
            lemma_event(s, p + 4, e);
        },
        SbMsgData::TraceMsg(e) => {
            lemma_at_split(s, p, enc_u32(15), enc_event(e));
            lemma_u32(s, p, 15);
            lemma_event(s, p + 4, e);
        },
        _ => {
            lemma_u32(s, p, crate::msg::kind_of(d) as u32);
        },
    }
}

/// Reading a frame back gives the envelope it was written from: for every
/// envelope `m`, the frame `enc_msg(m)` (what `SbMsg::serialize` returns)
/// parses to `m`, so `SbMsg::deserialize` returns `Ok` with an envelope
/// whose view is `m@`.
pub proof fn lemma_round_trip(m: SbMsg)
    ensures
        parse_msg(enc_msg(m)) == Some(m@),
{
    let s = enc_msg(m);
    let d = enc_data(m.data);
    let c = enc_computer(m.computer);
    let a = enc_app(m.app_name);
    let q = enc_u16(m.sequence);
    assert(s.subrange(0, s.len() as int) =~= s);
    lemma_at_split(s, 0, d + c + a, q);
    lemma_at_split(s, 0, d + c, a);
    lemma_at_split(s, 0, d, c);
    lemma_data(s, 0, m.data);
    lemma_computer(s, d.len() as int, m.computer);
    lemma_app(s, (d.len() + 4) as int, m.app_name);
    lemma_u16(s, (d.len() + 8) as int, m.sequence);
}

} // verus!
