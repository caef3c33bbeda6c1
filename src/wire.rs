//! The wire format of the envelope.
//!
//! Integers are little-endian and of fixed width; an enum is a `u32` tag
//! followed by its fields; a list is its length as a `u64` followed by its
//! items; a `bool` is one byte, 0 or 1. The tag of a payload is its message
//! kind.
use vstd::bytes::*;
use vstd::prelude::*;

use crate::msg::{
    kind_of, AppName, Computer, RelayOutConnectionStatus, SbEvent, SbMsg, SbMsgData, SubKey,
};
use crate::perf::PerfData;

verus! {

/// The largest frame that a transport carries (the largest UDP payload).
pub const MAX_FRAME_LEN: usize = 65507;

pub open spec fn enc_u16(x: u16) -> Seq<u8> {
    spec_u16_to_le_bytes(x)
}

pub open spec fn enc_u32(x: u32) -> Seq<u8> {
    spec_u32_to_le_bytes(x)
}

pub open spec fn enc_u64(x: u64) -> Seq<u8> {
    spec_u64_to_le_bytes(x)
}

pub open spec fn enc_bool(b: bool) -> Seq<u8> {
    seq![if b { 1u8 } else { 0u8 }]
}

pub open spec fn computer_tag(c: Computer) -> u32 {
    match c {
        Computer::Unset => 0,
        Computer::Flight => 1,
        Computer::Payload => 2,
        Computer::Ground => 3,
    }
}

pub open spec fn app_tag(a: AppName) -> u32 {
    match a {
        AppName::Unset => 0,
        AppName::Relay => 1,
        AppName::Sch => 2,
        AppName::Example => 3,
        AppName::Ground => 4,
    }
}

pub open spec fn event_tag(e: SbEvent) -> u32 {
    match e {
        SbEvent::Empty => 0,
        SbEvent::AppInit => 1,
        SbEvent::SchBroke(_) => 2,
        SbEvent::HeartBeatStarted(_, _) => 3,
        SbEvent::HeartBeatStopped(_, _) => 4,
        SbEvent::SerializeError => 5,
        SbEvent::DeserializeError => 6,
        SbEvent::PollError => 7,
        SbEvent::SequenceCountError => 8,
        SbEvent::ExampleRun => 9,
    }
}

pub open spec fn enc_computer(c: Computer) -> Seq<u8> {
    enc_u32(computer_tag(c))
}

pub open spec fn enc_app(a: AppName) -> Seq<u8> {
    enc_u32(app_tag(a))
}

pub open spec fn enc_event(e: SbEvent) -> Seq<u8> {
    enc_u32(event_tag(e)) + match e {
        SbEvent::SchBroke(n) => enc_u32(n),
        SbEvent::HeartBeatStarted(c, a) => enc_computer(c) + enc_app(a),
        SbEvent::HeartBeatStopped(c, a) => enc_computer(c) + enc_app(a),
        _ => Seq::empty(),
    }
}

pub open spec fn enc_perf(p: PerfData) -> Seq<u8> {
    enc_u64(p.last_rate_time) + enc_u64(p.start_time) + enc_u64(p.beginning) + enc_u64(p.time_tag)
        + enc_u64(p.last_rate) + enc_u64(p.last_duration)
}

pub open spec fn enc_key(k: SubKey) -> Seq<u8> {
    enc_u64(k.0) + enc_computer(k.1)
}

/// The items of a key list, one after another.
pub open spec fn enc_keys(ks: Seq<SubKey>) -> Seq<u8>
    decreases ks.len(),
{
    if ks.len() == 0 {
        Seq::empty()
    } else {
        enc_keys(ks.drop_last()) + enc_key(ks.last())
    }
}

pub open spec fn enc_status(s: RelayOutConnectionStatus) -> Seq<u8> {
    enc_computer(s.computer) + enc_app(s.app_name) + enc_bool(s.heartbeating)
}

/// The items of a status list, one after another.
pub open spec fn enc_statuses(ss: Seq<RelayOutConnectionStatus>) -> Seq<u8>
    decreases ss.len(),
{
    if ss.len() == 0 {
        Seq::empty()
    } else {
        enc_statuses(ss.drop_last()) + enc_status(ss.last())
    }
}

/// The payload of a subscription request with the keys `subs`.
pub open spec fn enc_sub_req_data(subs: Seq<SubKey>) -> Seq<u8> {
    enc_u32(1) + enc_u64(subs.len() as u64) + enc_keys(subs)
}

pub open spec fn enc_data(d: SbMsgData) -> Seq<u8> {
    match d {
        SbMsgData::SbSubReq(r) => enc_sub_req_data(r.subs@),
        SbMsgData::SchOut(o) => enc_u32(2) + enc_perf(o.perf),
        SbMsgData::ExampleOut(o) => enc_u32(9) + enc_perf(o.perf),
        SbMsgData::RelayOut(r) => enc_u32(10) + enc_u64(r.connection_status@.len() as u64)
            + enc_statuses(r.connection_status@),
        SbMsgData::ErrorMsg(e) => enc_u32(11) + enc_event(e),
        SbMsgData::WarnMsg(e) => enc_u32(12) + enc_event(e),
        SbMsgData::InfoMsg(e) => enc_u32(13) + enc_event(e),
        SbMsgData::DebugMsg(e) => enc_u32(14) + enc_event(e),
        SbMsgData::TraceMsg(e) => enc_u32(15) + enc_event(e),
        _ => enc_u32(kind_of(d) as u32),
    }
}

/// The frame of an envelope, given as its payload's encoding and its header fields.
pub open spec fn enc_frame(data: Seq<u8>, c: Computer, a: AppName, seq: u16) -> Seq<u8> {
    data + enc_computer(c) + enc_app(a) + enc_u16(seq)
}

/// The frame of an envelope.
pub open spec fn enc_msg(m: SbMsg) -> Seq<u8> {
    enc_frame(enc_data(m.data), m.computer, m.app_name, m.sequence)
}

fn put_u16(out: &mut Vec<u8>, x: u16)
    ensures
        final(out)@ == old(out)@ + enc_u16(x),
{
    let mut b = u16_to_le_bytes(x);
    out.append(&mut b);
}

fn put_u32(out: &mut Vec<u8>, x: u32)
    ensures
        final(out)@ == old(out)@ + enc_u32(x),
{
    let mut b = u32_to_le_bytes(x);
    out.append(&mut b);
}

fn put_u64(out: &mut Vec<u8>, x: u64)
    ensures
        final(out)@ == old(out)@ + enc_u64(x),
{
    let mut b = u64_to_le_bytes(x);
    out.append(&mut b);
}

fn put_bool(out: &mut Vec<u8>, b: bool)
    ensures
        final(out)@ == old(out)@ + enc_bool(b),
{
    let ghost pre = out@;
    out.push(if b { 1u8 } else { 0u8 });
    assert(out@ =~= pre + enc_bool(b));
}

fn put_computer(out: &mut Vec<u8>, c: Computer)
    ensures
        final(out)@ == old(out)@ + enc_computer(c),
{
    let t: u32 = match c {
        Computer::Unset => 0,
        Computer::Flight => 1,
        Computer::Payload => 2,
        Computer::Ground => 3,
    };
    put_u32(out, t);
}

fn put_app(out: &mut Vec<u8>, a: AppName)
    ensures
        final(out)@ == old(out)@ + enc_app(a),
{
    let t: u32 = match a {
        AppName::Unset => 0,
        AppName::Relay => 1,
        AppName::Sch => 2,
        AppName::Example => 3,
        AppName::Ground => 4,
    };
    put_u32(out, t);
}

fn put_event(out: &mut Vec<u8>, e: SbEvent)
    ensures
        final(out)@ == old(out)@ + enc_event(e),
{
    let ghost pre = out@;
    match e {
        SbEvent::Empty => put_u32(out, 0),
        SbEvent::AppInit => put_u32(out, 1),
        SbEvent::SchBroke(n) => {
            put_u32(out, 2);
            put_u32(out, n);
        },
        SbEvent::HeartBeatStarted(c, a) => {
            put_u32(out, 3);
            put_computer(out, c);
            put_app(out, a);
        },
        SbEvent::HeartBeatStopped(c, a) => {
            put_u32(out, 4);
            put_computer(out, c);
            put_app(out, a);
        },
        SbEvent::SerializeError => put_u32(out, 5),
        SbEvent::DeserializeError => put_u32(out, 6),
        SbEvent::PollError => put_u32(out, 7),
        SbEvent::SequenceCountError => put_u32(out, 8),
        SbEvent::ExampleRun => put_u32(out, 9),
    }
    assert(out@ =~= pre + enc_event(e));
}

fn put_perf(out: &mut Vec<u8>, p: &PerfData)
    ensures
        final(out)@ == old(out)@ + enc_perf(*p),
{
    let ghost pre = out@;
    put_u64(out, p.last_rate_time);
    put_u64(out, p.start_time);
    put_u64(out, p.beginning);
    put_u64(out, p.time_tag);
    put_u64(out, p.last_rate);
    put_u64(out, p.last_duration);
    assert(out@ =~= pre + enc_perf(*p));
}

fn put_keys(out: &mut Vec<u8>, ks: &Vec<SubKey>)
    ensures
        final(out)@ == old(out)@ + enc_u64(ks@.len() as u64) + enc_keys(ks@),
{
    let ghost pre = out@;
    put_u64(out, ks.len() as u64);
    let ghost mid = out@;
    let mut i: usize = 0;
    while i < ks.len()
        invariant
            i <= ks@.len(),
            out@ == mid + enc_keys(ks@.take(i as int)),
        decreases ks@.len() - i,
    {
        let k = ks[i];
        put_u64(out, k.0);
        put_computer(out, k.1);
        proof {
            assert(ks@.take(i + 1).drop_last() =~= ks@.take(i as int));
            assert(ks@.take(i + 1).last() == k);
        }
        assert(out@ =~= mid + enc_keys(ks@.take(i + 1)));
        i = i + 1;
    }
    assert(ks@.take(i as int) =~= ks@);
}

fn put_statuses(out: &mut Vec<u8>, ss: &Vec<RelayOutConnectionStatus>)
    ensures
        final(out)@ == old(out)@ + enc_u64(ss@.len() as u64) + enc_statuses(ss@),
{
    put_u64(out, ss.len() as u64);
    let ghost mid = out@;
    let mut i: usize = 0;
    while i < ss.len()
        invariant
            i <= ss@.len(),
            out@ == mid + enc_statuses(ss@.take(i as int)),
        decreases ss@.len() - i,
    {
        let s = ss[i];
        put_computer(out, s.computer);
        put_app(out, s.app_name);
        put_bool(out, s.heartbeating);
        proof {
            assert(ss@.take(i + 1).drop_last() =~= ss@.take(i as int));
            assert(ss@.take(i + 1).last() == s);
        }
        assert(out@ =~= mid + enc_statuses(ss@.take(i + 1)));
        i = i + 1;
    }
    assert(ss@.take(i as int) =~= ss@);
}

fn put_data(out: &mut Vec<u8>, d: &SbMsgData)
    ensures
        final(out)@ == old(out)@ + enc_data(*d),
{
    let ghost pre = out@;
    match d {
        SbMsgData::SbSubReq(r) => {
            put_u32(out, 1);
            put_keys(out, &r.subs);
        },
        SbMsgData::SchOut(o) => {
            put_u32(out, 2);
            put_perf(out, &o.perf);
        },
        SbMsgData::ExampleOut(o) => {
            put_u32(out, 9);
            put_perf(out, &o.perf);
        },
        SbMsgData::RelayOut(r) => {
            put_u32(out, 10);
            put_statuses(out, &r.connection_status);
        },
        SbMsgData::ErrorMsg(e) => {
            put_u32(out, 11);
            put_event(out, *e);
        },
        SbMsgData::WarnMsg(e) => {
            put_u32(out, 12);
            put_event(out, *e);
        },
        SbMsgData::InfoMsg(e) => {
            put_u32(out, 13);
            put_event(out, *e);
        },
        SbMsgData::DebugMsg(e) => {
            put_u32(out, 14);
            put_event(out, *e);
        },
        SbMsgData::TraceMsg(e) => {
            put_u32(out, 15);
            put_event(out, *e);
        },
        _ => {
            let k = d.get_id();
            put_u32(out, k as u32);
        },
    }
    assert(out@ =~= pre + enc_data(*d));
}

/// Encodes the envelope with payload `data`, origin `computer`.`app_name` and
/// sequence number `sequence`.
pub fn encode_frame(data: &SbMsgData, computer: Computer, app_name: AppName, sequence: u16) -> (r:
    Vec<u8>)
    ensures
        r@ == enc_frame(enc_data(*data), computer, app_name, sequence),
{
    let mut out: Vec<u8> = Vec::new();
    put_data(&mut out, data);
    put_computer(&mut out, computer);
    put_app(&mut out, app_name);
    put_u16(&mut out, sequence);
    assert(out@ =~= enc_frame(enc_data(*data), computer, app_name, sequence));
    out
}

impl SbMsg {
    /// The frame that carries this envelope.
    pub fn serialize(&self) -> (r: Vec<u8>)
        ensures
            r@ == enc_msg(*self),
    {
        encode_frame(&self.data, self.computer, self.app_name, self.sequence)
    }
}

} // verus!
