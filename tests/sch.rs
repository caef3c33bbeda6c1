use cfe::bus::Cfe;
use cfe::link::CfeConnection;
use cfe::msg::{AppName, Computer, EventSeverity, SbMsg, SbMsgData, SbSubReq, SchOut};
use cfe::perf::PerfData;
use cfe::sch::Sch;
use cfe::stream::{length_prefixed, split_length_prefixed};

fn kinds_sent(sch: &mut Sch) -> Vec<u64> {
    sch.cf.connections[0]
        .take_frames()
        .iter()
        .map(|f| SbMsg::deserialize(f).unwrap().data.get_id())
        .collect()
}

fn scheduler() -> Sch {
    let mut cf = Cfe::init_cfe(Computer::Flight, AppName::Sch, EventSeverity::Info);
    cf.add_connection(CfeConnection::new(), 0);
    let all: Vec<(u64, Computer)> = (2..9u64).map(|k| (k, Computer::Flight)).collect();
    let req = SbMsg {
        data: SbMsgData::SbSubReq(SbSubReq { subs: all }),
        computer: Computer::Ground,
        app_name: AppName::Ground,
        sequence: 0,
    };
    cf.recv_message(0, Some((req, 0)));
    cf.connections[0].take_frames();
    Sch { cf, out: SchOut { perf: PerfData::new(0) }, counter: 0 }
}

#[test]
fn scheduler_ticks_by_cycle() {
    let mut sch = scheduler();
    assert!(sch.cycle(100));
    assert_eq!(kinds_sent(&mut sch), vec![3, 4, 5, 6, 2, 7, 8]);
    assert_eq!(sch.out.perf.start_time, 100);
    assert!(!sch.cycle(200));
    assert_eq!(kinds_sent(&mut sch), vec![3]);
    assert!(!sch.cycle(300));
    assert_eq!(kinds_sent(&mut sch), vec![3, 4]);
    assert_eq!(sch.counter, 3);
    sch.counter = 20;
    assert!(sch.cycle(400));
    assert_eq!(kinds_sent(&mut sch), vec![3, 4, 5, 6, 2, 7]);
    assert_eq!(sch.out.perf.last_rate, 100);
}

#[test]
fn length_prefix_bytes() {
    assert_eq!(length_prefixed(&[7, 8, 9]), vec![0, 0, 0, 3, 7, 8, 9]);
    let big = vec![1u8; 0x0102];
    assert_eq!(&length_prefixed(&big)[..4], &[0, 0, 1, 2]);
}

#[test]
fn length_prefix_round_trip() {
    let a = SbMsg { data: SbMsgData::Sch5Hz, computer: Computer::Flight, app_name: AppName::Sch, sequence: 4 }.serialize();
    let mut stream = length_prefixed(&a);
    stream.extend_from_slice(&length_prefixed(&[42]));
    let (first, used) = split_length_prefixed(&stream).unwrap();
    assert_eq!(first, a);
    assert_eq!(used, 4 + a.len());
    let (second, used2) = split_length_prefixed(&stream[used..]).unwrap();
    assert_eq!(second, vec![42]);
    assert_eq!(used2, 5);
}

#[test]
fn length_prefix_waits_for_whole_frame() {
    assert!(split_length_prefixed(&[0, 0, 0, 5, 1, 2]).is_none());
    assert!(split_length_prefixed(&[0, 0, 0]).is_none());
    assert!(split_length_prefixed(&[0, 0, 0, 0]).is_none());
}

#[test]
fn perf_default_starts_now() {
    let p = PerfData::default();
    assert_eq!(p.start_time, p.last_rate_time);
    assert_eq!(p.beginning, p.last_rate_time);
    assert_eq!((p.time_tag, p.last_rate, p.last_duration), (0, 0, 0));
    assert!(p.beginning > 0);
}

#[test]
fn relay_reports_each_link() {
    let mut cf = Cfe::init_cfe(Computer::Payload, AppName::Relay, EventSeverity::Info);
    cf.add_connection(CfeConnection::new(), 0);
    cf.add_connection(CfeConnection::new(), 0);
    let hb = SbMsg { data: SbMsgData::Heartbeat, computer: Computer::Ground, app_name: AppName::Ground, sequence: 0 };
    cf.recv_message(0, Some((hb, 1)));
    let out = cf.connection_status();
    assert_eq!(out.connection_status.len(), 2);
    assert_eq!(out.connection_status[0].computer, Computer::Unset);
    assert!(!out.connection_status[0].heartbeating);
    assert_eq!(out.connection_status[1].computer, Computer::Ground);
    assert_eq!(out.connection_status[1].app_name, AppName::Ground);
    assert!(out.connection_status[1].heartbeating);
}
