use cfe::decode::DecodeError;
use cfe::msg::{
    AppName, Computer, EventSeverity, ExampleOut, RelayOut, RelayOutConnectionStatus, SbEvent,
    SbMsg, SbMsgData, SbSubReq, SchOut,
};
use cfe::perf::PerfData;
use cfe::wire::encode_frame;

fn envelope(data: SbMsgData) -> SbMsg {
    SbMsg { data, computer: Computer::Flight, app_name: AppName::Sch, sequence: 513 }
}

#[test]
fn heartbeat_frame_bytes() {
    let f = encode_frame(&SbMsgData::Heartbeat, Computer::Flight, AppName::Sch, 5);
    assert_eq!(f, vec![0, 0, 0, 0, 1, 0, 0, 0, 2, 0, 0, 0, 5, 0]);
}

#[test]
fn sub_req_frame_bytes() {
    let m = SbMsg {
        data: SbMsgData::SbSubReq(SbSubReq { subs: vec![(8, Computer::Ground)] }),
        computer: Computer::Payload,
        app_name: AppName::Relay,
        sequence: 0x0102,
    };
    let f = m.serialize();
    let mut expect = vec![1, 0, 0, 0, 1, 0, 0, 0, 0, 0, 0, 0];
    expect.extend_from_slice(&[8, 0, 0, 0, 0, 0, 0, 0, 3, 0, 0, 0]);
    expect.extend_from_slice(&[2, 0, 0, 0, 1, 0, 0, 0, 2, 1]);
    assert_eq!(f, expect);
}

#[test]
fn kinds_are_fixed_numbers() {
    assert_eq!(SbMsgData::Heartbeat.get_id(), 0);
    assert_eq!(SbMsgData::SbSubReq(SbSubReq { subs: vec![] }).get_id(), 1);
    assert_eq!(SbMsgData::Sch1Hz.get_id(), 8);
    assert_eq!(SbMsgData::RelayOut(RelayOut { connection_status: vec![] }).get_id(), 10);
    assert_eq!(SbMsgData::TraceMsg(SbEvent::Empty).get_id(), 15);
}

#[test]
fn round_trip_each_kind() {
    let perf = PerfData::new(1_234_567);
    let all = vec![
        SbMsgData::Heartbeat,
        SbMsgData::SbSubReq(SbSubReq { subs: vec![(3, Computer::Flight), (u64::MAX, Computer::Unset)] }),
        SbMsgData::SchOut(SchOut { perf }),
        SbMsgData::Sch100Hz,
        SbMsgData::Sch50Hz,
        SbMsgData::Sch25Hz,
        SbMsgData::Sch10Hz,
        SbMsgData::Sch5Hz,
        SbMsgData::Sch1Hz,
        SbMsgData::ExampleOut(ExampleOut { perf }),
        SbMsgData::RelayOut(RelayOut {
            connection_status: vec![
                RelayOutConnectionStatus { computer: Computer::Ground, app_name: AppName::Ground, heartbeating: true },
                RelayOutConnectionStatus { computer: Computer::Payload, app_name: AppName::Example, heartbeating: false },
            ],
        }),
        SbMsgData::ErrorMsg(SbEvent::SequenceCountError),
        SbMsgData::WarnMsg(SbEvent::HeartBeatStopped(Computer::Payload, AppName::Relay)),
        SbMsgData::InfoMsg(SbEvent::HeartBeatStarted(Computer::Ground, AppName::Ground)),
        SbMsgData::DebugMsg(SbEvent::SchBroke(42)),
        SbMsgData::TraceMsg(SbEvent::ExampleRun),
    ];
    for d in all {
        let m = envelope(d);
        let bytes = m.serialize();
        let back = SbMsg::deserialize(&bytes).expect("round trip");
        assert_eq!(back.serialize(), bytes);
        assert_eq!(back.data.get_id(), m.data.get_id());
        assert_eq!(back.sequence, 513);
        assert_eq!(back.computer, Computer::Flight);
        assert_eq!(back.app_name, AppName::Sch);
    }
}

#[test]
fn round_trip_keeps_fields() {
    let m = envelope(SbMsgData::SbSubReq(SbSubReq { subs: vec![(7, Computer::Payload), (2, Computer::Ground)] }));
    match SbMsg::deserialize(&m.serialize()).unwrap().data {
        SbMsgData::SbSubReq(r) => assert_eq!(r.subs, vec![(7, Computer::Payload), (2, Computer::Ground)]),
        _ => panic!("expected a subscription request"),
    }
    let mut perf = PerfData::new(100);
    perf.enter(350);
    perf.exit(400);
    match SbMsg::deserialize(&envelope(SbMsgData::SchOut(SchOut { perf })).serialize()).unwrap().data {
        SbMsgData::SchOut(o) => assert_eq!(o.perf, perf),
        _ => panic!("expected scheduler output"),
    }
    match SbMsg::deserialize(&envelope(SbMsgData::WarnMsg(SbEvent::SchBroke(9))).serialize()).unwrap().data {
        SbMsgData::WarnMsg(e) => assert_eq!(e, SbEvent::SchBroke(9)),
        _ => panic!("expected a warning"),
    }
}

#[test]
fn malformed_frames_are_refused() {
    let good = envelope(SbMsgData::Sch1Hz).serialize();
    assert_eq!(SbMsg::deserialize(&good[..good.len() - 1]).unwrap_err(), DecodeError::Malformed);
    let mut longer = good.clone();
    longer.push(0);
    assert_eq!(SbMsg::deserialize(&longer).unwrap_err(), DecodeError::Malformed);
    let mut bad_kind = good.clone();
    bad_kind[0] = 16;
    assert_eq!(SbMsg::deserialize(&bad_kind).unwrap_err(), DecodeError::Malformed);
    let mut bad_computer = good.clone();
    bad_computer[4] = 4;
    assert_eq!(SbMsg::deserialize(&bad_computer).unwrap_err(), DecodeError::Malformed);
    assert_eq!(SbMsg::deserialize(&[]).unwrap_err(), DecodeError::Malformed);
    // a list that claims more items than the frame holds
    let mut short_list = vec![1, 0, 0, 0, 5, 0, 0, 0, 0, 0, 0, 0];
    short_list.extend_from_slice(&[1, 0, 0, 0, 2, 0, 0, 0, 0, 0]);
    assert_eq!(SbMsg::deserialize(&short_list).unwrap_err(), DecodeError::Malformed);
    // a flag byte other than 0 or 1
    let mut st = envelope(SbMsgData::RelayOut(RelayOut {
        connection_status: vec![RelayOutConnectionStatus { computer: Computer::Ground, app_name: AppName::Ground, heartbeating: true }],
    }))
    .serialize();
    st[20] = 2;
    assert_eq!(SbMsg::deserialize(&st).unwrap_err(), DecodeError::Malformed);
}

#[test]
fn perf_figures() {
    let mut p = PerfData::new(1_000);
    p.enter(1_500);
    assert_eq!(p.last_rate, 500);
    assert_eq!(p.time_tag, 500);
    p.exit(1_620);
    assert_eq!(p.last_duration, 120);
    p.enter(2_000);
    assert_eq!(p.last_rate, 500);
    assert_eq!(p.time_tag, 1_000);
    p.exit(1_900);
    assert_eq!(p.last_duration, 0);
}

#[test]
fn severities_against_level() {
    assert!(EventSeverity::Error.passes(EventSeverity::Info));
    assert!(EventSeverity::Info.passes(EventSeverity::Info));
    assert!(!EventSeverity::Debug.passes(EventSeverity::Info));
    assert!(EventSeverity::Trace.passes(EventSeverity::Trace));
    assert_eq!(EventSeverity::Warn.rank(), 3);
}
