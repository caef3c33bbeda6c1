//! The message envelope and the payloads that travel on the bus.
use vstd::prelude::*;

use crate::perf::PerfData;

verus! {

/// A physical computer taking part in the bus.
#[derive(Debug, Clone, Copy, PartialEq, Eq, Structural)]
pub enum Computer {
    Unset,
    Flight,
    Payload,
    Ground,
}

/// A logical application instance on a computer.
#[derive(Debug, Clone, Copy, PartialEq, Eq, Structural)]
pub enum AppName {
    Unset,
    Relay,
    Sch,
    Example,
    Ground,
}

/// Error payload of the older single-kind error message.
#[derive(Debug, Clone, Copy, PartialEq, Eq, Structural)]
pub enum ErrorMsg {
    Unspecified,
}

/// Events that the bus and its applications report through the log.
#[derive(Debug, Clone, Copy, PartialEq, Eq, Structural)]
pub enum SbEvent {
    Empty,
    AppInit,
    SchBroke(u32),
    HeartBeatStarted(Computer, AppName),
    HeartBeatStopped(Computer, AppName),
    SerializeError,
    DeserializeError,
    PollError,
    SequenceCountError,
    ExampleRun,
}

/// Log severities, from the most verbose to the most severe.
#[derive(Debug, Clone, Copy, PartialEq, Eq, Structural)]
pub enum EventSeverity {
    Trace,
    Debug,
    Info,
    Warn,
    Error,
}

/// The rank of a severity: a larger rank is more severe.
pub open spec fn severity_rank(s: EventSeverity) -> nat {
    match s {
        EventSeverity::Trace => 0,
        EventSeverity::Debug => 1,
        EventSeverity::Info => 2,
        EventSeverity::Warn => 3,
        EventSeverity::Error => 4,
    }
}

impl EventSeverity {
    /// The rank of this severity (`Trace` is 0, `Error` is 4).
    pub fn rank(&self) -> (r: u8)
        ensures
            r as nat == severity_rank(*self),
    {
        match self {
            EventSeverity::Trace => 0,
            EventSeverity::Debug => 1,
            EventSeverity::Info => 2,
            EventSeverity::Warn => 3,
            EventSeverity::Error => 4,
        }
    }

    /// Whether a message of this severity passes a log level of `level`.
    pub fn passes(&self, level: EventSeverity) -> (r: bool)
        ensures
            r == (severity_rank(level) <= severity_rank(*self)),
    {
        level.rank() <= self.rank()
    }
}

/// A subscription key: a message kind as produced by one origin computer.
pub type SubKey = (u64, Computer);

/// A subscription request: the keys that the sender wants to receive.
#[derive(Debug, Clone)]
pub struct SbSubReq {
    pub subs: Vec<SubKey>,
}

/// A subscription response: the kinds granted.
#[derive(Debug, Clone)]
pub struct SbSubRes {
    pub subs: Vec<u64>,
}

/// Output of the scheduler application.
#[derive(Debug, Clone, Copy)]
pub struct SchOut {
    pub perf: PerfData,
}

/// Output of the example application.
#[derive(Debug, Clone, Copy)]
pub struct ExampleOut {
    pub perf: PerfData,
}

/// The state of one link of a relay, as reported by the relay.
#[derive(Debug, Clone, Copy, PartialEq, Eq, Structural)]
pub struct RelayOutConnectionStatus {
    pub computer: Computer,
    pub app_name: AppName,
    pub heartbeating: bool,
}

/// Output of the relay application: the state of each of its links.
#[derive(Debug, Clone)]
pub struct RelayOut {
    pub connection_status: Vec<RelayOutConnectionStatus>,
}

/// The payload of a message; its variant is the message kind.
#[derive(Debug, Clone)]
pub enum SbMsgData {
    /// The heartbeat: no payload.
    Heartbeat,
    SbSubReq(SbSubReq),
    SchOut(SchOut),
    Sch100Hz,
    Sch50Hz,
    Sch25Hz,
    Sch10Hz,
    Sch5Hz,
    Sch1Hz,
    ExampleOut(ExampleOut),
    RelayOut(RelayOut),
    ErrorMsg(SbEvent),
    WarnMsg(SbEvent),
    InfoMsg(SbEvent),
    DebugMsg(SbEvent),
    TraceMsg(SbEvent),
}

/// The kind number of the heartbeat.
pub const KIND_HEARTBEAT: u64 = 0;

/// The kind number of the subscription request.
pub const KIND_SUB_REQ: u64 = 1;

/// The fixed wire number of each message kind.
pub open spec fn kind_of(d: SbMsgData) -> u64 {
    match d {
        SbMsgData::Heartbeat => 0,
        SbMsgData::SbSubReq(_) => 1,
        SbMsgData::SchOut(_) => 2,
        SbMsgData::Sch100Hz => 3,
        SbMsgData::Sch50Hz => 4,
        SbMsgData::Sch25Hz => 5,
        SbMsgData::Sch10Hz => 6,
        SbMsgData::Sch5Hz => 7,
        SbMsgData::Sch1Hz => 8,
        SbMsgData::ExampleOut(_) => 9,
        SbMsgData::RelayOut(_) => 10,
        SbMsgData::ErrorMsg(_) => 11,
        SbMsgData::WarnMsg(_) => 12,
        SbMsgData::InfoMsg(_) => 13,
        SbMsgData::DebugMsg(_) => 14,
        SbMsgData::TraceMsg(_) => 15,
    }
}

/// Whether a kind is a control kind, which every link always carries.
pub open spec fn is_control_kind(k: u64) -> bool {
    k == KIND_HEARTBEAT || k == KIND_SUB_REQ
}

impl SbMsgData {
    /// The message kind: a fixed number for each variant, stable across builds.
    pub fn get_id(&self) -> (r: u64)
        ensures
            r == kind_of(*self),
    {
        match self {
            SbMsgData::Heartbeat => 0,
            SbMsgData::SbSubReq(_) => 1,
            SbMsgData::SchOut(_) => 2,
            SbMsgData::Sch100Hz => 3,
            SbMsgData::Sch50Hz => 4,
            SbMsgData::Sch25Hz => 5,
            SbMsgData::Sch10Hz => 6,
            SbMsgData::Sch5Hz => 7,
            SbMsgData::Sch1Hz => 8,
            SbMsgData::ExampleOut(_) => 9,
            SbMsgData::RelayOut(_) => 10,
            SbMsgData::ErrorMsg(_) => 11,
            SbMsgData::WarnMsg(_) => 12,
            SbMsgData::InfoMsg(_) => 13,
            SbMsgData::DebugMsg(_) => 14,
            SbMsgData::TraceMsg(_) => 15,
        }
    }
}

/// The message envelope: a payload, its origin, and the sending link's sequence number.
#[derive(Debug, Clone)]
pub struct SbMsg {
    pub data: SbMsgData,
    pub computer: Computer,
    pub app_name: AppName,
    pub sequence: u16,
}

/// A payload as the contracts see it: lists become sequences.
pub enum DataView {
    Heartbeat,
    SbSubReq(Seq<SubKey>),
    SchOut(PerfData),
    Sch100Hz,
    Sch50Hz,
    Sch25Hz,
    Sch10Hz,
    Sch5Hz,
    Sch1Hz,
    ExampleOut(PerfData),
    RelayOut(Seq<RelayOutConnectionStatus>),
    ErrorMsg(SbEvent),
    WarnMsg(SbEvent),
    InfoMsg(SbEvent),
    DebugMsg(SbEvent),
    TraceMsg(SbEvent),
}

impl View for SbMsgData {
    type V = DataView;

    open spec fn view(&self) -> DataView {
        match self {
            SbMsgData::Heartbeat => DataView::Heartbeat,
            SbMsgData::SbSubReq(r) => DataView::SbSubReq(r.subs@),
            SbMsgData::SchOut(o) => DataView::SchOut(o.perf),
            SbMsgData::Sch100Hz => DataView::Sch100Hz,
            SbMsgData::Sch50Hz => DataView::Sch50Hz,
            SbMsgData::Sch25Hz => DataView::Sch25Hz,
            SbMsgData::Sch10Hz => DataView::Sch10Hz,
            SbMsgData::Sch5Hz => DataView::Sch5Hz,
            SbMsgData::Sch1Hz => DataView::Sch1Hz,
            SbMsgData::ExampleOut(o) => DataView::ExampleOut(o.perf),
            SbMsgData::RelayOut(r) => DataView::RelayOut(r.connection_status@),
            SbMsgData::ErrorMsg(e) => DataView::ErrorMsg(*e),
            SbMsgData::WarnMsg(e) => DataView::WarnMsg(*e),
            SbMsgData::InfoMsg(e) => DataView::InfoMsg(*e),
            SbMsgData::DebugMsg(e) => DataView::DebugMsg(*e),
            SbMsgData::TraceMsg(e) => DataView::TraceMsg(*e),
        }
    }
}

/// An envelope as the contracts see it.
pub struct MsgView {
    pub data: DataView,
    pub computer: Computer,
    pub app_name: AppName,
    pub sequence: u16,
}

impl View for SbMsg {
    type V = MsgView;

    open spec fn view(&self) -> MsgView {
        MsgView {
            data: self.data@,
            computer: self.computer,
            app_name: self.app_name,
            sequence: self.sequence,
        }
    }
}

} // verus!
