use cfe::bus::Cfe;
use cfe::link::{CfeConnection, SendStatus};
use cfe::msg::{
    AppName, Computer, EventSeverity, RelayOut, RelayOutConnectionStatus, SbEvent, SbMsg, SbMsgData,
    SbSubReq,
};

fn frames(cfe: &mut Cfe, i: usize) -> Vec<SbMsg> {
    cfe.connections[i]
        .take_frames()
        .iter()
        .map(|f| SbMsg::deserialize(f).expect("a frame the bus wrote reads back"))
        .collect()
}

fn heartbeat_from(computer: Computer, app_name: AppName, sequence: u16) -> SbMsg {
    SbMsg { data: SbMsgData::Heartbeat, computer, app_name, sequence }
}

fn sub_req(subs: Vec<(u64, Computer)>, computer: Computer, sequence: u16) -> SbMsg {
    SbMsg {
        data: SbMsgData::SbSubReq(SbSubReq { subs }),
        computer,
        app_name: AppName::Ground,
        sequence,
    }
}

fn count_sub_reqs(msgs: &[SbMsg]) -> usize {
    msgs.iter().filter(|m| matches!(m.data, SbMsgData::SbSubReq(_))).count()
}

fn flight_with_links(n: usize, now: u64) -> Cfe {
    let mut cfe = Cfe::init_cfe(Computer::Flight, AppName::Sch, EventSeverity::Info);
    for _ in 0..n {
        cfe.add_connection(CfeConnection::new(), now);
    }
    for i in 0..n {
        cfe.connections[i].take_frames();
    }
    cfe
}

#[test]
fn unsubscribed_link_carries_nothing_until_asked() {
    let now = 10_000_000;
    // link 0: the in-process scheduler; link 1: the UDP link to Ground
    let mut cfe = flight_with_links(2, now);
    for _ in 0..100 {
        cfe.send_message(SbMsgData::Sch1Hz);
    }
    let on_u = cfe.connections[1].take_frames();
    assert_eq!(on_u.iter().map(|f| f.len()).sum::<usize>(), 0);

    let req = sub_req(vec![(8, Computer::Flight)], Computer::Ground, 0);
    assert!(cfe.recv_message(now, Some((req, 1))).is_none());
    cfe.connections[1].take_frames();

    cfe.send_message(SbMsgData::Sch1Hz);
    let sent = frames(&mut cfe, 1);
    assert_eq!(sent.len(), 1);
    assert!(matches!(sent[0].data, SbMsgData::Sch1Hz));
    assert_eq!(sent[0].computer, Computer::Flight);
}

#[test]
fn peer_restart_resends_subscriptions_once() {
    let now = 10_000_000;
    let mut cfe = Cfe::init_cfe(Computer::Flight, AppName::Relay, EventSeverity::Trace);
    cfe.add_connection(CfeConnection::new(), now);
    cfe.connections[0].take_frames();
    let mut per_frame = Vec::new();
    for s in [5u16, 6, 7, 0, 1] {
        let m = SbMsg { data: SbMsgData::Sch1Hz, computer: Computer::Payload, app_name: AppName::Sch, sequence: s };
        let got = cfe.recv_message(now, Some((m, 0))).expect("a rate tick is delivered");
        assert_eq!(got.sequence, s);
        assert!(matches!(got.data, SbMsgData::Sch1Hz));
        per_frame.push(count_sub_reqs(&frames(&mut cfe, 0)));
    }
    assert_eq!(per_frame, vec![0, 0, 0, 1, 0]);
    assert!(!cfe.journal.iter().any(|(e, _)| *e == SbEvent::SequenceCountError));
}

#[test]
fn catch_up_request_only_on_heartbeat() {
    let now = 10_000_000;
    let mut cfe = flight_with_links(2, now);
    let tick = SbMsg { data: SbMsgData::Sch1Hz, computer: Computer::Payload, app_name: AppName::Sch, sequence: 0 };
    cfe.recv_message(now, Some((tick, 0)));
    assert!(cfe.connections[0].connected);
    assert_eq!(count_sub_reqs(&frames(&mut cfe, 0)), 0);
    cfe.recv_message(now, Some((heartbeat_from(Computer::Ground, AppName::Ground, 0), 1)));
    assert!(cfe.connections[1].connected);
    assert_eq!(count_sub_reqs(&frames(&mut cfe, 1)), 1);
}

#[test]
fn oversize_frame_is_dropped() {
    let now = 10_000_000;
    let mut cfe = flight_with_links(1, now);
    // 4 bytes of tag, 8 of length, 12 for each key: a payload of 65508 bytes
    let subs: Vec<(u64, Computer)> = (0..5458u64).map(|k| (k, Computer::Flight)).collect();
    let seq_before = cfe.connections[0].send_seq;
    let status = cfe.send_message_to(SbMsgData::SbSubReq(SbSubReq { subs }), 0);
    assert_eq!(status, SendStatus::Oversize);
    assert!(cfe.connections[0].take_frames().is_empty());
    assert_eq!(cfe.connections[0].send_seq, seq_before);
    // the next send is unaffected
    assert_eq!(cfe.send_message_to(SbMsgData::Heartbeat, 0), SendStatus::Sent);
    assert_eq!(frames(&mut cfe, 0)[0].sequence, seq_before);
    // the drop is noted once in the journal
    let drops = cfe.journal.iter().filter(|x| **x == (SbEvent::SerializeError, EventSeverity::Error)).count();
    assert_eq!(drops, 1);
}

#[test]
fn oversize_publish_is_noted_once() {
    let now = 10_000_000;
    let mut cfe = flight_with_links(2, now);
    let statuses: Vec<RelayOutConnectionStatus> = (0..7280)
        .map(|_| RelayOutConnectionStatus { computer: Computer::Ground, app_name: AppName::Ground, heartbeating: true })
        .collect();
    for i in 0..2 {
        let req = sub_req(vec![(10, Computer::Flight)], Computer::Ground, 0);
        cfe.recv_message(now, Some((req, i)));
        cfe.connections[i].take_frames();
    }
    cfe.take_journal();
    let seqs: Vec<u16> = cfe.connections.iter().map(|c| c.send_seq).collect();
    cfe.send_message(SbMsgData::RelayOut(RelayOut { connection_status: statuses }));
    assert!(cfe.connections[0].take_frames().is_empty());
    assert!(cfe.connections[1].take_frames().is_empty());
    assert_eq!(cfe.connections.iter().map(|c| c.send_seq).collect::<Vec<u16>>(), seqs);
    assert_eq!(cfe.take_journal(), vec![(SbEvent::SerializeError, EventSeverity::Error)]);
}

#[test]
fn publish_follows_the_filter() {
    let now = 10_000_000;
    let mut cfe = flight_with_links(2, now);
    let req = sub_req(vec![(3, Computer::Flight), (4, Computer::Payload)], Computer::Ground, 0);
    cfe.recv_message(now, Some((req, 0)));
    cfe.connections[0].take_frames();
    cfe.connections[1].take_frames();

    cfe.send_message(SbMsgData::Sch100Hz);
    cfe.send_message(SbMsgData::Sch50Hz); // asked for from Payload only
    cfe.send_message(SbMsgData::Heartbeat); // control kinds always pass
    let on0 = frames(&mut cfe, 0);
    let on1 = frames(&mut cfe, 1);
    assert_eq!(on0.len(), 2);
    assert!(matches!(on0[0].data, SbMsgData::Sch100Hz));
    assert!(matches!(on0[1].data, SbMsgData::Heartbeat));
    assert_eq!(on1.len(), 1);
    assert!(matches!(on1[0].data, SbMsgData::Heartbeat));
}

#[test]
fn link_send_reports_filtered() {
    let mut link = CfeConnection::new();
    assert_eq!(
        link.send_message(&SbMsgData::Sch5Hz, Computer::Flight, AppName::Sch),
        SendStatus::Filtered
    );
    assert!(link.take_frames().is_empty());
    assert_eq!(link.send_seq, 0);
}

#[test]
fn sequences_follow_each_other_and_wrap() {
    let mut link = CfeConnection::new();
    link.send_seq = 65534;
    for _ in 0..3 {
        assert_eq!(
            link.send_message(&SbMsgData::Heartbeat, Computer::Flight, AppName::Sch),
            SendStatus::Sent
        );
    }
    let seqs: Vec<u16> =
        link.take_frames().iter().map(|f| SbMsg::deserialize(f).unwrap().sequence).collect();
    assert_eq!(seqs, vec![65534, 65535, 0]);
    assert_eq!(link.send_seq, 1);
}

#[test]
fn sequence_gap_is_logged_not_fatal() {
    let now = 10_000_000;
    let mut cfe = flight_with_links(1, now);
    cfe.recv_message(now, Some((heartbeat_from(Computer::Ground, AppName::Ground, 3), 0)));
    frames(&mut cfe, 0);
    let m = SbMsg { data: SbMsgData::Sch10Hz, computer: Computer::Ground, app_name: AppName::Ground, sequence: 9 };
    let got = cfe.recv_message(now, Some((m, 0)));
    assert!(matches!(got, Some(SbMsg { data: SbMsgData::Sch10Hz, sequence: 9, .. })));
    assert_eq!(count_sub_reqs(&frames(&mut cfe, 0)), 0);
    assert_eq!(
        cfe.journal.iter().filter(|(e, _)| *e == SbEvent::SequenceCountError).count(),
        1
    );
    assert_eq!(cfe.connections[0].recv_seq, Some(9));
}

#[test]
fn restart_after_three_resends_request_without_error() {
    let now = 10_000_000;
    let mut cfe = flight_with_links(1, now);
    cfe.recv_message(now, Some((heartbeat_from(Computer::Ground, AppName::Ground, 3), 0)));
    frames(&mut cfe, 0);
    let journal_len = cfe.journal.len();
    cfe.recv_message(now, Some((heartbeat_from(Computer::Ground, AppName::Ground, 0), 0)));
    assert_eq!(count_sub_reqs(&frames(&mut cfe, 0)), 1);
    assert_eq!(cfe.journal.len(), journal_len);
}

#[test]
fn heartbeat_loss_and_return() {
    let mut cfe = flight_with_links(1, 0);
    cfe.recv_message(0, Some((heartbeat_from(Computer::Payload, AppName::Relay, 0), 0)));
    assert!(cfe.connections[0].connected);
    assert_eq!(cfe.connections[0].computer, Computer::Payload);
    let started = SbEvent::HeartBeatStarted(Computer::Payload, AppName::Relay);
    let stopped = SbEvent::HeartBeatStopped(Computer::Payload, AppName::Relay);

    cfe.poll(2_999_000);
    assert!(cfe.connections[0].connected);
    cfe.poll(3_000_000);
    assert!(!cfe.connections[0].connected);
    cfe.poll(4_000_000);
    cfe.poll(9_000_000);
    assert_eq!(cfe.journal.iter().filter(|(e, _)| *e == stopped).count(), 1);
    assert!(cfe.journal.contains(&(stopped, EventSeverity::Warn)));

    let m = SbMsg { data: SbMsgData::Sch1Hz, computer: Computer::Payload, app_name: AppName::Relay, sequence: 1 };
    assert!(cfe.recv_message(9_500_000, Some((m, 0))).is_some());
    assert!(cfe.connections[0].connected);
    assert_eq!(cfe.journal.iter().filter(|(e, _)| *e == started).count(), 2);
    let m = SbMsg { data: SbMsgData::Sch1Hz, computer: Computer::Payload, app_name: AppName::Relay, sequence: 2 };
    cfe.recv_message(9_600_000, Some((m, 0)));
    assert_eq!(cfe.journal.iter().filter(|(e, _)| *e == started).count(), 2);
}

#[test]
fn heartbeats_go_out_once_a_second() {
    let mut cfe = flight_with_links(1, 0);
    cfe.poll(500_000);
    assert!(frames(&mut cfe, 0).is_empty());
    cfe.poll(1_000_000);
    let hb = frames(&mut cfe, 0);
    assert_eq!(hb.len(), 1);
    assert!(matches!(hb[0].data, SbMsgData::Heartbeat));
    assert_eq!(hb[0].app_name, AppName::Sch);
}

#[test]
fn relay_advertises_union_of_other_links() {
    let now = 10_000_000;
    let mut cfe = flight_with_links(3, now);
    cfe.relay = true;
    cfe.connections[0].subscribe(SbMsgData::Sch1Hz, Computer::Ground);
    cfe.connections[1].subscribe(SbMsgData::Sch5Hz, Computer::Payload);
    cfe.recv_message(now, Some((sub_req(vec![(3, Computer::Flight)], Computer::Ground, 0), 1)));
    cfe.recv_message(now, Some((sub_req(vec![(9, Computer::Payload)], Computer::Payload, 0), 2)));
    for i in 0..3 {
        cfe.connections[i].take_frames();
    }
    cfe.recv_message(now, Some((sub_req(vec![(12, Computer::Ground)], Computer::Ground, 1), 0)));
    // link 0 was down; a request (not a heartbeat) brings it up with no catch-up
    assert_eq!(count_sub_reqs(&frames(&mut cfe, 0)), 0);
    for (i, expect) in [
        (1usize, vec![(7u64, Computer::Payload), (12, Computer::Ground), (9, Computer::Payload)]),
        (2, vec![(12, Computer::Ground), (3, Computer::Flight)]),
    ] {
        let sent = frames(&mut cfe, i);
        assert_eq!(sent.len(), 1);
        match &sent[0].data {
            SbMsgData::SbSubReq(r) => assert_eq!(r.subs, expect),
            _ => panic!("expected a subscription request"),
        }
    }
}

#[test]
fn relay_forwards_with_each_links_sequence() {
    let now = 10_000_000;
    let mut cfe = flight_with_links(3, now);
    cfe.relay = true;
    for i in 0..3 {
        let req = sub_req(vec![(9, Computer::Payload)], Computer::Ground, 0);
        cfe.recv_message(now, Some((req, i)));
    }
    cfe.connections[2].send_seq = 40;
    for i in 0..3 {
        cfe.connections[i].take_frames();
    }
    let m = SbMsg {
        data: SbMsgData::ExampleOut(cfe::msg::ExampleOut { perf: cfe::perf::PerfData::new(5) }),
        computer: Computer::Payload,
        app_name: AppName::Example,
        sequence: 1,
    };
    let got = cfe.recv_message(now, Some((m, 0))).expect("delivered");
    assert_eq!(got.sequence, 1);
    assert!(frames(&mut cfe, 0).is_empty());
    let on2 = frames(&mut cfe, 2);
    assert_eq!(on2.len(), 1);
    assert_eq!(on2[0].sequence, 40);
    assert_eq!(on2[0].computer, Computer::Payload);
    assert_eq!(frames(&mut cfe, 1).len(), 1);
}

#[test]
fn control_frames_are_not_delivered() {
    let now = 10_000_000;
    let mut cfe = flight_with_links(1, now);
    assert!(cfe.recv_message(now, Some((heartbeat_from(Computer::Ground, AppName::Ground, 0), 0))).is_none());
    assert!(cfe.recv_message(now, Some((sub_req(vec![], Computer::Ground, 1), 0))).is_none());
    assert!(cfe.recv_message(now, None).is_none());
}

#[test]
fn log_publishes_at_or_above_level() {
    let now = 10_000_000;
    let mut cfe = flight_with_links(1, now);
    let req = sub_req(vec![(13, Computer::Flight), (14, Computer::Flight)], Computer::Ground, 0);
    cfe.recv_message(now, Some((req, 0)));
    frames(&mut cfe, 0);
    cfe.log(SbEvent::AppInit, EventSeverity::Info);
    cfe.log(SbEvent::ExampleRun, EventSeverity::Debug);
    let sent = frames(&mut cfe, 0);
    assert_eq!(sent.len(), 1);
    assert!(matches!(sent[0].data, SbMsgData::InfoMsg(SbEvent::AppInit)));
    assert_eq!(cfe.journal[cfe.journal.len() - 1], (SbEvent::ExampleRun, EventSeverity::Debug));
}

#[test]
fn attach_sends_request_and_heartbeat() {
    let mut cfe = Cfe::init_cfe(Computer::Ground, AppName::Ground, EventSeverity::Info);
    let mut link = CfeConnection::new();
    link.subscribe(SbMsgData::SchOut(cfe::msg::SchOut { perf: cfe::perf::PerfData::new(0) }), Computer::Flight);
    link.subscribe(SbMsgData::SchOut(cfe::msg::SchOut { perf: cfe::perf::PerfData::new(0) }), Computer::Flight);
    cfe.add_connection(link, 0);
    let sent = frames(&mut cfe, 0);
    assert_eq!(sent.len(), 2);
    match &sent[0].data {
        SbMsgData::SbSubReq(r) => assert_eq!(r.subs, vec![(2, Computer::Flight)]),
        _ => panic!("expected a subscription request"),
    }
    assert_eq!(sent[0].sequence, 0);
    assert!(matches!(sent[1].data, SbMsgData::Heartbeat));
    assert_eq!(sent[1].sequence, 1);
}

#[test]
fn relay_out_round_trip_in_bus() {
    let m = SbMsg {
        data: SbMsgData::RelayOut(RelayOut {
            connection_status: vec![RelayOutConnectionStatus {
                computer: Computer::Ground,
                app_name: AppName::Ground,
                heartbeating: true,
            }],
        }),
        computer: Computer::Payload,
        app_name: AppName::Relay,
        sequence: 77,
    };
    let back = SbMsg::deserialize(&m.serialize()).unwrap();
    match back.data {
        SbMsgData::RelayOut(r) => assert!(r.connection_status[0].heartbeating),
        _ => panic!("expected relay output"),
    }
}
