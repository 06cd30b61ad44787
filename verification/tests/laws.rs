use wipro::controller::esp_io::{command_line, handle_message, MessageOutcome};
use wipro::controller::tlv::{parse, parse_range, ESPEvent};
use wipro::firmware::console::{handle_command, id_message, split_command, ConsoleAction};
use wipro::firmware::csi::{
    calculate_precise_timestamp_ns, csi_message, offer_csi, reset_ftm_csi_buf, CsiData,
    FtmCsiState,
};
use wipro::firmware::espnow::{
    beacon_rest_ms, set_beacon, BeaconAction, BeaconRun, BeaconState,
};
use wipro::firmware::ftm::{
    contact_step, ftm_message, report_metadata, set_burst, FtmEntry, FtmReport, FtmState,
    PeerFtmStats,
};
use wipro::firmware::peers::{PeerContactStats, PeerInfo, PeerList};
use wipro::firmware::wipro::{dbg_message, find_csi, range_message};

fn host_reads(line: &str) -> MessageOutcome {
    let mut mac = Some("host".to_string());
    handle_message(&mut mac, parse(line).unwrap(), 3)
}

fn frame(us: u32) -> CsiData {
    let mut buf = [0u8; 384];
    for i in 0..384 {
        buf[i] = (i * 7 % 256) as u8;
    }
    CsiData {
        mac: [0x5c; 6],
        rssi: -77,
        seq: 65535,
        channel: 11,
        channel2: 2,
        timestamp_us: us,
        timestamp_mac_raw: 1 << 40,
        rxstart_time_cyc: 255,
        rxstart_time_cyc_dec: 2000,
        sig_mode: 3,
        stbc: true,
        mcs: 0,
        len: 384,
        buf,
    }
}

#[test]
fn host_reads_back_a_frame() {
    for time in [0i64, 1, i64::MAX, -1, i64::MIN] {
        let f = frame(123_456_789);
        match host_reads(csi_message(&f, time).as_str()) {
            MessageOutcome::Event(ESPEvent::CSI(e)) => {
                assert_eq!(e.mac_timestamp, time);
                assert_eq!(e.seq, 65535);
                assert_eq!(e.tgt_mac, "5C:5C:5C:5C:5C:5C");
                assert_eq!(e.timestamp, calculate_precise_timestamp_ns(&f, true));
                assert_eq!((e.channel, e.channel2, e.rssi, e.sig_mode), (11, 2, -77, 3));
                assert_eq!(e.payload_b64.len(), 512);
                assert_eq!((e.t_ms, e.own_mac.as_str()), (3, "host"));
            }
            _ => panic!("no CSI event"),
        }
    }
}

#[test]
fn host_reads_back_a_session_but_its_first_exchange() {
    let ns = calculate_precise_timestamp_ns(&frame(5000), true);
    let entry = |token: u8, t2: u64| FtmEntry {
        dlog_token: token,
        rssi: -(token as i8),
        rtt: 9,
        t1: u64::MAX - 1,
        t2,
        t3: 77,
        t4: 78,
    };
    let near = ns * 1000 + 1500;
    let written = [entry(1, near), entry(2, 5), entry(3, near), entry(4, near)];
    let report = FtmReport::new(report_metadata([2; 6], 0, 0, 0, 0, 4), &written);
    let mut state = FtmCsiState::new();
    reset_ftm_csi_buf(&mut state, &[0x5c; 6], 8);
    offer_csi(&mut state, frame(5000));
    offer_csi(&mut state, frame(9000));
    match host_reads(&ftm_message(&mut state, &report, 6)) {
        MessageOutcome::Event(ESPEvent::FTM(e)) => {
            assert_eq!(e.tgt_mac, "02:02:02:02:02:02");
            assert_eq!(e.reports.len(), 1);
            let r = &e.reports[0];
            assert_eq!((r.dlog_token, r.rssi, r.t1, r.t2, r.t3, r.t4), (3, -3, u64::MAX - 1, near, 77, 78));
            assert_eq!((r.channel, r.channel2, r.mac_timestamp), (11, 2, (1 << 40) + 6));
            assert_eq!(r.payload_b64.len(), 512);
        }
        _ => panic!("no FTM event"),
    }
}

#[test]
fn host_keeps_nothing_of_a_session_without_frames() {
    let entry = FtmEntry { dlog_token: 1, rssi: 2, rtt: 3, t1: 4, t2: 5, t3: 6, t4: 7 };
    for n in 0..4u8 {
        let report = FtmReport::new(report_metadata([2; 6], 0, 0, 0, 0, n), &[entry; 4]);
        let mut state = FtmCsiState::new();
        match host_reads(&ftm_message(&mut state, &report, 0)) {
            MessageOutcome::Event(ESPEvent::FTM(e)) => assert!(e.reports.is_empty()),
            _ => panic!("no FTM event"),
        }
    }
}

#[test]
fn host_and_node_match_the_same_frames() {
    let ns = calculate_precise_timestamp_ns(&frame(5000), true);
    for (shift, same) in [(-2000i64, false), (-1999, true), (0, true), (1999, true), (2000, false)] {
        let e = FtmEntry {
            dlog_token: 1,
            rssi: 2,
            rtt: 3,
            t1: 4,
            t2: (ns * 1000).wrapping_add(shift as u64),
            t3: 6,
            t4: 7,
        };
        assert_eq!(find_csi(&[frame(5000)], &e).is_some(), same);
        let report = FtmReport::new(report_metadata([2; 6], 0, 0, 0, 0, 2), &[e; 2]);
        let mut state = FtmCsiState::new();
        reset_ftm_csi_buf(&mut state, &[0x5c; 6], 8);
        offer_csi(&mut state, frame(5000));
        match host_reads(&ftm_message(&mut state, &report, 0)) {
            MessageOutcome::Event(ESPEvent::FTM(e)) => assert_eq!(e.reports.len() == 1, same),
            _ => panic!("no FTM event"),
        }
    }
}

#[test]
fn host_refuses_a_session_with_a_negative_time() {
    let entry = FtmEntry { dlog_token: 1, rssi: 2, rtt: 3, t1: 4, t2: 5, t3: 6, t4: 7 };
    let report = FtmReport::new(report_metadata([2; 6], 0, 0, 0, 0, 1), &[entry]);
    let mut state = FtmCsiState::new();
    reset_ftm_csi_buf(&mut state, &[0x5c; 6], 8);
    offer_csi(&mut state, frame(5000));
    match host_reads(&ftm_message(&mut state, &report, i64::MIN)) {
        MessageOutcome::Fault(e) => assert_eq!(e, "Invalid seq: invalid digit found in string"),
        _ => panic!("no fault"),
    }
}

#[test]
fn host_reads_back_raw_numbers_and_ranges() {
    match host_reads(&dbg_message(7, &[1, 2, 3, 4])) {
        MessageOutcome::Event(ESPEvent::DBG(e)) => {
            assert_eq!((e.data_type.as_str(), e.len, e.payload_b64.as_str()), ("fc32", 7, "AQIDBA=="));
        }
        _ => panic!("no DBG event"),
    }
    let line = range_message(&[1; 6], u64::MAX, "-0.25");
    let e = parse_range(parse(&line).unwrap(), "host", 3).unwrap();
    assert_eq!((e.tgt_mac.as_str(), e.timestamp, e.range.as_str()), ("01:01:01:01:01:01", u64::MAX, "-0.25"));
}

#[test]
fn host_learns_the_address_from_the_log() {
    let mut mac = None;
    let line = format!("I (12) wipro: {}\r\n", id_message(&[0x12; 6]));
    assert!(matches!(
        handle_message(&mut mac, parse(&line).unwrap(), 0),
        MessageOutcome::Ignored
    ));
    assert_eq!(mac.as_deref(), Some("12:12:12:12:12:12"));
}

#[test]
fn node_reads_the_commands_of_the_host() {
    let line = command_line("interval 900");
    let (cmd, args) = split_command(&line);
    assert_eq!(handle_command(cmd, args), ConsoleAction::Interval(900));
}

#[test]
fn every_due_peer_has_its_turn() {
    let mut list = PeerList::new();
    for i in 0..10u8 {
        let _ = list.add_or_update(PeerInfo {
            bssid: [i; 6],
            ftm_stats: PeerFtmStats { next_contact_after: (i as u64 * 7) % 10, seq: 0, should_init: true },
            contact_stats: PeerContactStats { last_seen: 0, rssi: 0, channel: 1 },
        });
    }
    let mut order = vec![];
    for _ in 0..10 {
        order.push(contact_step(&mut list, 100, false, 1).contact.unwrap().bssid[0]);
    }
    assert_eq!(order, [0, 3, 6, 9, 2, 5, 8, 1, 4, 7]);
    assert!(contact_step(&mut list, 100, false, 1).contact.is_none());
}

#[test]
fn settings_stay_in_range() {
    let mut ftm = FtmState::new();
    let mut beacon = BeaconState::new();
    for n in [-1, 0, 1, 16, 17, 24, 25, 64, i32::MIN, i32::MAX] {
        set_burst(&mut ftm, n);
        assert!([16, 24, 25, 32, 64].contains(&ftm.num_burst));
        set_beacon(&mut beacon, n);
        assert!(beacon.beacon_rate_ms > 0);
    }
}

#[test]
fn rounds_send_one_beacon_each() {
    let mut beacon = BeaconState::new();
    let mut run = BeaconRun::new();
    for (rate, sent) in [(0, 0), (30, 1), (1000, 1), (0, 0), (5, 1)] {
        set_beacon(&mut beacon, rate);
        let mut actions = vec![run.start(&beacon)];
        while beacon_rest_ms(*actions.last().unwrap()).is_none() {
            actions.push(run.next(true));
        }
        assert_eq!(actions.iter().filter(|a| **a == BeaconAction::Send).count(), sent);
        let rest = if sent == 1 { rate as u64 } else { 4000 };
        assert_eq!(beacon_rest_ms(*actions.last().unwrap()), Some(rest));
    }
}
