use wipro::firmware::config::Config;
use wipro::firmware::console::{
    apply_action, handle_command, help_lines, id_message, refusal_lines, split_command,
    ConsoleAction, Refusal, SettingChange,
};
use wipro::firmware::csi::{
    calculate_precise_timestamp_ns, csi_data, csi_message, dump_csi_buf, extend_rx_timestamp,
    mac_timestamp, offer_csi, process_csi, reset_ftm_csi_buf, sample_line, CsiData, CsiOutcome,
    FtmCsiState, Offer, RxInfo,
};
use wipro::firmware::espnow::{
    beacon_datagram, beacon_rest_ms, get_stats, radio_result, send_ftm_notification, send_to_peer, set_beacon,
    BeaconAction, BeaconRun, BeaconState, FtmSyncPacket, PacketStats,
};
use wipro::firmware::ftm::{
    contact_in_range, contact_step, ftm_entry_bytes, ftm_message, ftm_notification,
    report_metadata, session_announcement, session_config, session_step, set_burst, set_mute, set_run_wipro, FtmEntry,
    FtmNotification, FtmReport, FtmState, PeerFtmStats, SessionEvent, SessionStep,
};
use wipro::firmware::led::{grb, mac_hue};
use wipro::firmware::peers::{PeerContactStats, PeerInfo, PeerList};
use wipro::firmware::scan::{
    is_peer, records_to_fetch, rescan_after_secs, scan_results, ApRecord,
};
use wipro::firmware::timectl::get_mac_ff_time;
use wipro::firmware::wifi::{
    ap_settings, csi_settings, get_channel, get_ht40, plan_channel, set_channel, sta_credentials,
    sta_get_ip, MacCounter, SecondChannel, WifiState, ESP_ERR_INVALID_ARG,
};
use wipro::firmware::wipro::{
    bytes_to_u32_slice, bytes_to_word_pairs, bytes_to_words, dbg_message, diff_48bit, find_csi,
    is_measured, load_h_40, range_message, range_tasks, rtt_ps, set_l1_iters, Tap, WiproState,
};

const SECOND: u64 = 1_000_000;

fn frame(mac: u8, us: u32) -> CsiData {
    let mut buf = [0u8; 384];
    buf[0] = b'M';
    buf[1] = b'a';
    buf[2] = b'n';
    CsiData {
        mac: [mac; 6],
        rssi: -60,
        seq: 4095,
        channel: 6,
        channel2: 1,
        timestamp_us: us,
        timestamp_mac_raw: 0x1_0000_0010,
        rxstart_time_cyc: 80,
        rxstart_time_cyc_dec: 1000,
        sig_mode: 1,
        stbc: false,
        mcs: 7,
        len: 3,
        buf,
    }
}

fn peer(mac: u8, next: u64, seen: u64) -> PeerInfo {
    PeerInfo {
        bssid: [mac; 6],
        ftm_stats: PeerFtmStats { next_contact_after: next, seq: 7, should_init: true },
        contact_stats: PeerContactStats { last_seen: seen, rssi: -50, channel: 11 },
    }
}

#[test]
fn frames_are_timed_to_the_nanosecond() {
    let mut csi = frame(1, 1000);
    assert_eq!(calculate_precise_timestamp_ns(&csi, false), 1_000_000);
    assert_eq!(
        calculate_precise_timestamp_ns(&csi, true),
        1_000_000 + 1000 + 1562 - 20800
    );
    csi.rxstart_time_cyc_dec = 1024;
    assert_eq!(
        calculate_precise_timestamp_ns(&csi, true),
        1_000_000 + 1000 + 1599 - 20800
    );
    csi.rxstart_time_cyc_dec = 2047;
    csi.rxstart_time_cyc = 1;
    assert_eq!(calculate_precise_timestamp_ns(&csi, true), 1_000_000 + 12 + 1 - 20800);
    csi.timestamp_us = 0;
    csi.rxstart_time_cyc = 0;
    csi.rxstart_time_cyc_dec = 0;
    assert_eq!(
        calculate_precise_timestamp_ns(&csi, true),
        0u64.wrapping_sub(20800)
    );
}

#[test]
fn short_times_are_extended() {
    assert_eq!(extend_rx_timestamp(0x5_0000_0100, 0xff), 0x5_0000_00ff);
    assert_eq!(extend_rx_timestamp(0x5_0000_0100, 0x101), 0x4_0000_0101);
    assert_eq!(extend_rx_timestamp(0x5_0000_0100, 0x100), 0x4_0000_0100);
    assert_eq!(extend_rx_timestamp(5, 6), 0xffff_ffff_0000_0006);
}

#[test]
fn frames_are_collected() {
    let info = RxInfo {
        mac: [9; 6],
        rssi: -3,
        seq: 2,
        channel: 11,
        secondary_channel: 2,
        timestamp: 50,
        rxstart_time_cyc: 1,
        rxstart_time_cyc_dec: 2,
        sig_mode: 3,
        stbc: 4,
        mcs: 5,
        len: 400,
    };
    let csi = csi_data(&info, &[7u8; 400], 60);
    assert_eq!(csi.mac, [9; 6]);
    assert_eq!((csi.rssi, csi.seq, csi.channel, csi.channel2), (-3, 2, 11, 2));
    assert_eq!((csi.timestamp_us, csi.timestamp_mac_raw), (50, 50));
    assert_eq!((csi.rxstart_time_cyc, csi.rxstart_time_cyc_dec), (1, 2));
    assert_eq!((csi.sig_mode, csi.stbc, csi.mcs, csi.len), (3, true, 5, 400));
    assert_eq!(csi.buf, [7u8; 384]);
    let csi = csi_data(&info, &[1, 2], 60);
    assert_eq!(csi.buf[..3], [1, 2, 0]);
}

#[test]
fn frames_are_reported() {
    let m = csi_message(&frame(0xab, 1000), 0x1f4a);
    assert_eq!(
        m.as_str(),
        "\x02CSI\x01            1f4a\x014095\x01AB:AB:AB:AB:AB:AB\x01981762\x014\x01TWFu\x016\x011\x01-60\x011\x03\r\n"
    );
    let m = csi_message(&frame(0xab, 1000), -1);
    assert!(m.as_str().contains("\x01ffffffffffffffff\x01"));
    let mut full = frame(1, u32::MAX);
    full.len = 384;
    full.seq = u16::MAX;
    full.rssi = -128;
    assert_eq!(csi_message(&full, i64::MIN).as_str().matches('\x01').count(), 10);
    assert_eq!(
        sample_line(&frame(1, 1000), -5, "TWFu"),
        "6\x011\x01TWFu\x01981762\x01-5\x01"
    );
    assert_eq!(mac_timestamp(&frame(1, 1000), i64::MAX), i64::MIN + 0x1_0000_000f);
}

#[test]
fn sessions_keep_the_frames_of_their_peer() {
    let mut state = FtmCsiState::new();
    assert_eq!(state.mac, [0; 6]);
    assert_eq!(offer_csi(&mut state, frame(0, 1)), Offer::Foreign);
    reset_ftm_csi_buf(&mut state, &[5; 6], 2);
    assert_eq!(offer_csi(&mut state, frame(4, 1)), Offer::Foreign);
    assert_eq!(offer_csi(&mut state, frame(5, 1)), Offer::Kept);
    assert!(matches!(process_csi(&mut state, frame(5, 2), 0), CsiOutcome::Buffered));
    assert!(matches!(process_csi(&mut state, frame(5, 3), 0), CsiOutcome::Dropped));
    match process_csi(&mut state, frame(4, 1000), 1) {
        CsiOutcome::Report(m) => assert!(m.as_str().starts_with("\x02CSI\x01       100000011\x01")),
        _ => panic!("no report"),
    }
    let mut empty = frame(4, 3);
    empty.len = 0;
    assert!(matches!(process_csi(&mut state, empty, 0), CsiOutcome::NoData));
    assert_eq!(state.buffer.len(), 2);
    let pieces = dump_csi_buf(&mut state, true, 0).unwrap();
    assert_eq!(pieces.len(), 3);
    assert_eq!(pieces[0].as_str(), "CSI\x01");
    assert!(pieces[1].as_str().starts_with("6\x011\x01TWFu\x01"));
    assert!(!state.active);
    assert!(state.buffer.is_empty());
    assert!(dump_csi_buf(&mut state, true, 0).is_none());
    reset_ftm_csi_buf(&mut state, &[5; 6], 1);
    offer_csi(&mut state, frame(5, 1));
    assert!(dump_csi_buf(&mut state, false, 0).is_none());
    assert_eq!(state._get_num_csi(), 0);
}

#[test]
fn announcements_have_thirteen_bytes() {
    let p = FtmSyncPacket::new(0x01020304, true, -2);
    let bytes = p.as_bytes();
    assert_eq!(bytes, [4, 3, 2, 1, 1, 0xfe, 255, 255, 255, 255, 255, 255, 255]);
    let mut longer = bytes.clone();
    longer.push(99);
    assert_eq!(FtmSyncPacket::from_bytes(&longer), Some(p));
    assert_eq!(FtmSyncPacket::from_bytes(&bytes[..12]), None);
    let t = send_ftm_notification(&[6; 6], 9, false, i64::MAX, 1).unwrap();
    assert_eq!(t.peer, [6; 6]);
    assert_eq!(
        FtmSyncPacket::from_bytes(&t.data),
        Some(FtmSyncPacket { sequence: 9, is_initiator: 0, mac_time: i64::MIN })
    );
    assert_eq!(send_to_peer(&[6; 6], &[0; 251]).err(), Some(-1));
    assert_eq!(send_to_peer(&[6; 6], &[1; 250]).unwrap().data, vec![1; 250]);
    assert_eq!(radio_result(0), Ok(()));
    assert_eq!(radio_result(-3), Err(-3));
    assert_eq!(get_mac_ff_time(40, 2), 42);
}

#[test]
fn packets_are_counted() {
    let mut stats = PacketStats::new();
    stats.on_sent(true);
    stats.on_sent(false);
    let bytes = FtmSyncPacket::new(1, true, 2).as_bytes();
    let n = stats.on_received(&[3; 6], &bytes, 77).unwrap();
    assert_eq!(n.peer_mac, [3; 6]);
    assert_eq!(n.sync_info, FtmSyncPacket::new(1, true, 2));
    assert_eq!(n._rx_mac_time, 77);
    assert!(stats.on_received(&[3; 6], b"hello", 78).is_none());
    assert_eq!(get_stats(&stats), (1, 2));
    stats.sent = u32::MAX;
    stats.on_sent(true);
    assert_eq!(get_stats(&stats), (0, 2));
}

#[test]
fn beacons_have_a_pause() {
    let mut state = BeaconState::new();
    assert_eq!((state.should_beacon, state.beacon_rate_ms), (false, 200));
    assert!(!set_beacon(&mut state, 50));
    assert_eq!((state.should_beacon, state.beacon_rate_ms), (true, 50));
    assert!(!set_beacon(&mut state, -1));
    assert_eq!((state.should_beacon, state.beacon_rate_ms), (true, 200));
    assert!(set_beacon(&mut state, 0));
    assert_eq!((state.should_beacon, state.beacon_rate_ms), (false, 200));
}

#[test]
fn beacon_rounds() {
    let mut state = BeaconState::new();
    let mut run = BeaconRun::new();
    assert_eq!(run.start(&state), BeaconAction::Stop);
    assert_eq!(beacon_rest_ms(BeaconAction::Stop), Some(4000));
    set_beacon(&mut state, 70);
    assert_eq!(run.start(&state), BeaconAction::CheckNetwork);
    assert_eq!(run.next(false), BeaconAction::Join);
    assert_eq!(beacon_rest_ms(BeaconAction::Join), Some(3000));
    run.start(&state);
    assert_eq!(run.next(true), BeaconAction::Open);
    assert_eq!(run.next(false), BeaconAction::Retry);
    assert_eq!(beacon_rest_ms(BeaconAction::Retry), Some(1000));
    run.start(&state);
    run.next(true);
    assert_eq!(run.next(true), BeaconAction::Send);
    assert_eq!(beacon_rest_ms(BeaconAction::Send), None);
    assert_eq!(run.next(true), BeaconAction::Rest(70));
    run.start(&state);
    assert_eq!(run.next(true), BeaconAction::Send);
    assert_eq!(run.next(false), BeaconAction::CloseAndRest(70));
    assert_eq!(beacon_rest_ms(BeaconAction::CloseAndRest(70)), Some(70));
    run.start(&state);
    assert_eq!(run.next(true), BeaconAction::Open);
}

#[test]
fn channels() {
    assert_eq!(plan_channel(6, true), Some(SecondChannel::Above));
    assert_eq!(plan_channel(11, true), Some(SecondChannel::Below));
    assert_eq!(plan_channel(1, false), Some(SecondChannel::Unused));
    assert_eq!(plan_channel(7, true), None);
    let mut state = WifiState::new();
    assert_eq!((get_channel(&state), get_ht40(&state)), (6, true));
    assert_eq!(set_channel(&mut state, 11, false, 0), Ok(()));
    assert_eq!((get_channel(&state), get_ht40(&state)), (11, false));
    assert_eq!(set_channel(&mut state, 1, true, 5), Err(5));
    assert_eq!(set_channel(&mut state, 3, true, 0), Err(ESP_ERR_INVALID_ARG));
    assert_eq!(get_channel(&state), 11);
}

#[test]
fn counters_go_round() {
    let mut c = MacCounter::new();
    assert_eq!(c.get_mac_counter(0xffff_fff0), 0xffff_fff0);
    assert_eq!(c.get_mac_counter(0x7_0000_0010), 0x1_0000_0010);
    assert_eq!(c.get_mac_counter(0x20), 0x1_0000_0020);
    assert_eq!(c.get_mac_counter(0x1f), 0x2_0000_001f);
    let mut c = MacCounter { upper: u32::MAX, last_lower: 9 };
    assert_eq!(c.get_mac_counter(9), -0x1_0000_0000 + 9);
    assert_eq!(c.get_mac_counter(8), 8);
}

#[test]
fn network_settings() {
    assert_eq!(sta_get_ip(0), None);
    assert_eq!(sta_get_ip(0x0100_a8c0), Some([192, 168, 0, 1]));
    let (ssid, password) = sta_credentials("abc", &"p".repeat(70));
    assert_eq!(ssid[..4], [b'a', b'b', b'c', 0]);
    assert_eq!(ssid[31], 0);
    assert_eq!(password, [b'p'; 64]);
    let config = Config::new();
    assert_eq!(config.softap_prefix, "ESP_LOCALIZATION_TEST");
    assert_eq!((config.promi_en, config.contact_interval_ms), (false, 5000));
    let ap = ap_settings(config.softap_prefix, &WifiState::new());
    assert_eq!(ap.ssid.as_str(), "ESP_LOCALIZATION_TEST");
    assert_eq!((ap.ssid_hidden, ap.channel, ap.max_connections), (false, 6, 8));
    assert!(ap.ht40);
    assert!(ap.ftm_responder);
    assert!(csi_settings().lltf_en && !csi_settings().ltf_merge_en);
}

#[test]
fn peers_are_kept_once() {
    let mut list = PeerList::new();
    for i in 0..64u8 {
        assert!(list.add_or_update(peer(i, 0, 0)).is_ok());
    }
    assert_eq!(list.count(), 64);
    assert!(list.add_or_update(peer(64, 0, 0)).is_err());
    let mut news = peer(3, 99, 5);
    news.contact_stats.rssi = -1;
    let known = list.add_or_update(news).unwrap();
    assert_eq!(known.contact_stats.rssi, -1);
    assert_eq!(known.ftm_stats.next_contact_after, 0);
    assert_eq!(list.count(), 64);
    assert_eq!(list.find_by_bssid(&[3; 6]).unwrap().contact_stats.last_seen, 5);
    assert!(list.find_by_bssid(&[64; 6]).is_none());
    list.get_mut(2).unwrap().contact_stats.last_seen = 6;
    assert!(list.get_mut(64).is_none());
    list.remove_stale(5);
    let left: Vec<[u8; 6]> = list.all().iter().map(|p| p.bssid).collect();
    assert_eq!(left, [[2; 6], [3; 6]]);
    assert_eq!(peer(0xAF, 0, 0).bssid_str().as_str(), "af:af:af:af:af:af");
}

fn ap(name: &[u8], mac: u8) -> ApRecord {
    let mut ssid = [0u8; 33];
    ssid[..name.len()].copy_from_slice(name);
    ApRecord { ssid, bssid: [mac; 6], rssi: -20, primary: 1 }
}

#[test]
fn scans_find_other_nodes() {
    assert!(is_peer(&ap(b"ESP_X", 1), "ESP"));
    assert!(is_peer(&ap(b"ESP", 1), "ESP"));
    assert!(!is_peer(&ap(b"ES", 1), "ESP"));
    assert!(!is_peer(&ap(b"ESP\xff", 1), "ESP"));
    assert!(is_peer(&ap(b"ESP\0\xff", 1), "ESP"));
    assert!(is_peer(&ap(&[b'E'; 33], 1), "E"));
    assert_eq!(records_to_fetch(0), None);
    assert_eq!(records_to_fetch(5), Some(5));
    assert_eq!(records_to_fetch(33), Some(32));
    assert_eq!((rescan_after_secs(0), rescan_after_secs(3)), (5, 600));
    let mut list = PeerList::new();
    let _ = list.add_or_update(peer(9, 0, 10 * SECOND));
    let _ = list.add_or_update(peer(8, 0, 40 * SECOND));
    let found = scan_results(
        &mut list,
        &[ap(b"other", 1), ap(b"ESP1", 2), ap(b"ESP2", 3), ap(b"ESP1", 2)],
        "ESP",
        100 * SECOND,
    );
    assert_eq!(found, [1, 2, 3]);
    let left: Vec<u8> = list.all().iter().map(|p| p.bssid[0]).collect();
    assert_eq!(left, [8, 2, 3]);
    assert_eq!(list.all()[1].contact_stats.last_seen, 100 * SECOND);
    assert_eq!(list.all()[1].ftm_stats.next_contact_after, 100 * SECOND);
    let mut list = PeerList::new();
    let _ = list.add_or_update(peer(9, 0, 0));
    scan_results(&mut list, &[], "ESP", 59 * SECOND);
    assert_eq!(list.count(), 1);
}

#[test]
fn ranging_settings() {
    let mut state = FtmState::new();
    assert!(state.mute && state.num_burst == 16 && !state.estimate_range);
    set_mute(&mut state, false);
    set_run_wipro(&mut state, true);
    assert!(!state.mute && state.estimate_range);
    for n in [16, 24, 25, 32, 64] {
        assert!(set_burst(&mut state, n));
        assert_eq!(state.num_burst, n);
    }
    assert!(!set_burst(&mut state, 8));
    assert!(!set_burst(&mut state, 26));
    assert_eq!(state.num_burst, 64);
    let c = session_config([1; 6], 6, 24);
    assert_eq!((c.resp_mac, c.channel, c.frm_count, c.csi_capacity), ([1; 6], 6, 24, 48));
    assert!(c.burst_period == 2 && c.use_get_report_api);
}

#[test]
fn sessions_go_step_by_step() {
    let meta = report_metadata([1; 6], 1, 2, 3, 4, 200);
    assert_eq!(meta.num_entries, 64);
    assert!(matches!(session_step(SessionEvent::Asked(0)), SessionStep::Wait));
    assert!(matches!(session_step(SessionEvent::Asked(7)), SessionStep::DropAndFail(7)));
    assert!(matches!(session_step(SessionEvent::Done(Some(meta))), SessionStep::Fetch(64)));
    assert!(matches!(session_step(SessionEvent::Done(None)), SessionStep::Fail(1)));
    assert!(matches!(session_step(SessionEvent::Fetched(0)), SessionStep::Publish));
    assert!(matches!(session_step(SessionEvent::Fetched(2)), SessionStep::Fail(2)));
}

fn entry(t: [u64; 4]) -> FtmEntry {
    FtmEntry { dlog_token: 3, rssi: -1, rtt: 0x01020304, t1: t[0], t2: t[1], t3: t[2], t4: t[3] }
}

#[test]
fn sessions_are_reported() {
    let bytes = ftm_entry_bytes(&entry([1, 2, 3, 4]));
    assert_eq!(bytes[..9], [3, 255, 0, 0, 4, 3, 2, 1, 1]);
    assert_eq!(bytes.len(), 40);
    let meta = report_metadata([0x1f; 6], 0, 0, 0, 0, 2);
    let report = FtmReport::new(meta, &[entry([1, 2, 3, 4]), entry([5, 6, 7, 8]), entry([0; 4])]);
    let mut state = FtmCsiState::new();
    reset_ftm_csi_buf(&mut state, &[5; 6], 4);
    offer_csi(&mut state, frame(5, 1000));
    let text = ftm_message(&mut state, &report, 0);
    assert!(text.starts_with("\x02FTM\x011F:1F:1F:1F:1F:1F\x012\x01A/8AAAQDAgE"));
    assert!(text.ends_with("\x01CSI\x016\x011\x01TWFu\x01981762\x014294967312\x01\x03\r\n"));
    assert_eq!(text.matches('\x01').count(), 11);
    assert!(!state.active && state.buffer.is_empty());
    let text = ftm_message(&mut state, &report, 0);
    assert!(text.ends_with("==\x01\x03\r\n"));
}

#[test]
fn the_longest_due_peer_is_ranged() {
    let mut list = PeerList::new();
    for (mac, next) in [(1, 500), (2, 300), (3, 300), (4, 9_000_000)] {
        let _ = list.add_or_update(peer(mac, next, 0));
    }
    assert!(contact_in_range(&list, 1000, 5000));
    let plan = contact_step(&mut list, 1000, false, 5000);
    assert_eq!(plan.contact.unwrap().bssid, [2; 6]);
    assert_eq!(plan.contact.unwrap().contact_stats.channel, 11);
    assert_eq!(plan.rest_ticks, 300_000);
    let p = list.find_by_bssid(&[2; 6]).unwrap();
    assert_eq!((p.ftm_stats.seq, p.ftm_stats.next_contact_after), (8, 5_001_000));
    list.get_mut(2).unwrap().ftm_stats.should_init = false;
    let plan = contact_step(&mut list, 1000, true, 5000);
    assert!(plan.contact.is_none());
    let p = list.find_by_bssid(&[3; 6]).unwrap();
    assert_eq!((p.ftm_stats.seq, p.ftm_stats.next_contact_after), (7, 50_001_000));
    contact_step(&mut list, 1000, true, 5000);
    let plan = contact_step(&mut list, 1000, false, 5000);
    assert!(plan.contact.is_none());
    assert_eq!(plan.rest_ticks, 1_000_000);
    let plan = contact_step(&mut list, 4_500_000, false, 5000);
    assert_eq!(plan.rest_ticks, 502_000);
    let plan = contact_step(&mut list, 5_000_900, false, 5000);
    assert_eq!(plan.rest_ticks, 300_000);
    assert!(!contact_in_range(&list, 6_000_000, u64::MAX));
    assert!(contact_in_range(&list, 0, u64::MAX));
    assert_eq!(contact_step(&mut PeerList::new(), 0, false, 1).rest_ticks, 1_000_000);
}

#[test]
fn announcements_add_peers() {
    let mut list = PeerList::new();
    let n = FtmNotification {
        peer_mac: [4; 6],
        sync_info: FtmSyncPacket::new(12, true, 0),
        _rx_mac_time: 0,
    };
    ftm_notification(&mut list, &n, 6, 50);
    let p = list.find_by_bssid(&[4; 6]).unwrap();
    assert_eq!((p.ftm_stats.seq, p.ftm_stats.next_contact_after), (12, 50));
    assert!(p.ftm_stats.should_init);
    assert_eq!(
        (p.contact_stats.last_seen, p.contact_stats.rssi, p.contact_stats.channel),
        (50, 0, 6)
    );
    let n = FtmNotification { sync_info: FtmSyncPacket::new(13, true, 0), ..n };
    ftm_notification(&mut list, &n, 11, 60);
    let p = list.find_by_bssid(&[4; 6]).unwrap();
    assert_eq!((p.ftm_stats.seq, p.contact_stats.channel), (12, 11));
}

#[test]
fn sessions_are_announced_to_their_peer() {
    let mut list = PeerList::new();
    let mut p = peer(7, 0, 0);
    p.ftm_stats.seq = 31;
    p.ftm_stats.should_init = false;
    let _ = list.add_or_update(peer(6, 0, 0));
    let _ = list.add_or_update(p);
    let report = FtmReport::new(report_metadata(p.bssid, 0, 0, 0, 0, 0), &[]);
    let t = session_announcement(&list, &report, 50, -8).unwrap();
    assert_eq!(t.peer, p.bssid);
    assert_eq!(FtmSyncPacket::from_bytes(&t.data), Some(FtmSyncPacket::new(31, false, 42)));
    let report = FtmReport::new(report_metadata([200; 6], 0, 0, 0, 0, 0), &[]);
    assert!(session_announcement(&list, &report, 50, -8).is_none());
}

#[test]
fn help_names_every_command() {
    let names = [
        "help", "peers", "stats", "id", "mute", "beacon", "interval", "promi", "channel", "burst",
    ];
    let lines = help_lines();
    assert_eq!(lines.len(), names.len() + 1);
    assert_eq!(lines[0], "Available commands:");
    for (name, line) in names.iter().zip(&lines[1..]) {
        assert!(line.starts_with(&format!("  {name} ")));
        assert_ne!(handle_command(name, ""), ConsoleAction::Unknown);
    }
    assert_eq!(lines[6], "  beacon <ms>  - Set UDP beaconing period in milliseconds");
    assert_eq!(lines[10], "  burst <16|25|32|64> - Set number of FTMs to be sent");
    assert_eq!(handle_command("halp", ""), ConsoleAction::Unknown);
}

#[test]
fn commands_change_the_settings() {
    let mut config = Config::new();
    let mut ftm = FtmState::new();
    let mut beacon = BeaconState::new();
    let mut wifi = WifiState::new();
    let mut run = |cmd: &str, args: &str, code: i32| {
        let change = apply_action(
            handle_command(cmd, args),
            &mut config,
            &mut ftm,
            &mut beacon,
            &mut wifi,
            code,
        );
        let now = (
            config.contact_interval_ms,
            ftm.mute,
            ftm.num_burst,
            beacon.should_beacon,
            beacon.beacon_rate_ms,
            wifi.channel,
            wifi.use_ht40,
        );
        (change, now)
    };
    let (change, mut now) = run("help", "", 0);
    assert_eq!(change, SettingChange::Unchanged);
    assert_eq!((now.0, now.3, now.4, now.5, now.6), (5000, false, 200, 6, true));
    now.1 = !now.1;
    assert_eq!(
        run("mute", if now.1 { "1" } else { "0" }, 0),
        (SettingChange::Mute(now.1), now)
    );
    now.0 = 900;
    assert_eq!(run("interval", "900", 0), (SettingChange::Interval(900), now));
    now.2 = 64;
    assert_eq!(run("burst", "64", 0), (SettingChange::Burst(64), now));
    assert_eq!(run("burst", "65", 0), (SettingChange::BurstRefused, now));
    now.3 = true;
    now.4 = 70;
    assert_eq!(run("beacon", "70", 0), (SettingChange::Beacon(70), now));
    assert_eq!(run("channel", "11/20", 7), (SettingChange::ChannelRefused(7), now));
    now.5 = 11;
    now.6 = false;
    assert_eq!(run("channel", "11/20", 0), (SettingChange::Channel(11, false), now));
    for cmd in ["help", "peers", "stats", "id", "channel", "interval", "halp"] {
        assert_eq!(run(cmd, "", 0), (SettingChange::Unchanged, now));
    }
    now.4 = 200;
    assert_eq!(run("beacon", "-3", 0), (SettingChange::Beacon(200), now));
    now.3 = false;
    assert_eq!(run("beacon", "0", 0), (SettingChange::BeaconOff, now));
}

#[test]
fn beacons_are_empty_broadcasts() {
    let d = beacon_datagram();
    assert!(d.payload.is_empty());
    assert_eq!((d.address, d.port), ([255; 4], 5000));
}

#[test]
fn subcarriers_round_the_centre_and_the_edges_are_not_measured() {
    let measured: Vec<usize> = (0..128).filter(|i| is_measured(*i)).collect();
    assert_eq!(measured, (2..59).chain(70..127).collect::<Vec<usize>>());
}

#[test]
fn times_of_48_bits() {
    assert_eq!(diff_48bit(5, 3), 2);
    assert_eq!(diff_48bit(3, 5), -2);
    assert_eq!(diff_48bit(1, 0xffff_ffff_ffff), 2);
    assert_eq!(diff_48bit(0x8000_0000_0000, 0), -0x8000_0000_0000);
    assert_eq!(diff_48bit(i64::MIN, i64::MAX), 1);
    assert_eq!(rtt_ps(&entry([100, 250, 300, 400])), 250);
    assert_eq!(rtt_ps(&entry([0xffff_ffff_fff0, 5, 7, 20])), 34);
}

#[test]
fn ranges_come_from_matching_frames() {
    let mut state = WiproState::new();
    set_l1_iters(&mut state, 3);
    assert_eq!(state.num_l1_iters, 3);
    let mut wide = frame(1, 1000);
    wide.len = 384;
    wide.buf[128] = 0xff;
    wide.buf[129] = 5;
    wide.buf[382] = 1;
    wide.buf[383] = 0x80;
    let taps = load_h_40(&wide).unwrap();
    assert_eq!(taps.len(), 128);
    assert_eq!(taps[0], Tap { re: 5, im: -1 });
    assert_eq!(taps[127], Tap { re: -128, im: 1 });
    assert!(load_h_40(&frame(1, 1000)).is_none());
    let t2 = 981_762_000u64;
    let frames = [frame(1, 1), frame(1, 1000), wide];
    assert_eq!(find_csi(&frames, &entry([0, t2 + 1999, 0, 0])), Some(1));
    assert_eq!(find_csi(&frames, &entry([0, t2 - 1999, 0, 0])), Some(1));
    assert_eq!(find_csi(&frames, &entry([0, t2 + 2000, 0, 0])), None);
    let meta = report_metadata([1; 6], 0, 0, 0, 0, 2);
    let report = FtmReport::new(meta, &[entry([1, t2, t2 + 10, 50]), entry([0; 4])]);
    let tasks = range_tasks(&report, &[frame(1, 1), wide]);
    assert_eq!(tasks.len(), 1);
    assert_eq!((tasks[0].t2, tasks[0].rtt_ps), (t2, 39));
    assert_eq!(tasks[0].taps[0], Tap { re: 5, im: -1 });
    assert!(range_tasks(&report, &frames[..2]).is_empty());
}

#[test]
fn tables_are_read() {
    let bytes = [1, 0, 0, 0, 0, 1, 0, 0, 255, 255, 255, 255, 9, 9];
    assert_eq!(bytes_to_u32_slice(&bytes), [1, 256, u32::MAX]);
    assert_eq!(bytes_to_words(&bytes), [1, 256, u32::MAX]);
    assert_eq!(bytes_to_word_pairs(&bytes), [(1, 256)]);
    assert_eq!(f32::from_bits(bytes_to_words(&1.5f32.to_le_bytes())[0]), 1.5);
}

#[test]
fn ranges_and_raw_numbers_are_reported() {
    assert_eq!(
        range_message(&[0x0a; 6], 12, "3.5"),
        "\x02RANGE\x010A:0A:0A:0A:0A:0A\x0112\x013.5\x03\r\n"
    );
    assert_eq!(dbg_message(1, b"Man"), "\x02DBG\x01fc32\x011\x01TWFu\x03\r\n");
}

#[test]
fn colours() {
    assert_eq!(mac_hue(&[1, 2, 4, 8, 16, 32]), 63);
    assert_eq!(mac_hue(&[0xaa, 0xaa, 0xf1, 0, 0, 0]), 0xf1);
    assert_eq!(grb(1, 2, 3), [2, 1, 3]);
}

fn act(line: &str) -> ConsoleAction {
    let (cmd, args) = split_command(line);
    handle_command(cmd, args)
}

#[test]
fn lines_are_split_into_commands() {
    assert_eq!(split_command("  channel \t 6/40 x \r\n"), ("channel", "6/40 x"));
    assert_eq!(split_command("help"), ("help", ""));
    assert_eq!(split_command(" \n"), ("", ""));
}

#[test]
fn commands_are_read() {
    assert_eq!(act("help"), ConsoleAction::Help);
    assert_eq!(act("peers"), ConsoleAction::Peers);
    assert_eq!(act("stats"), ConsoleAction::Stats);
    assert_eq!(act("id\r\n"), ConsoleAction::Id);
    assert_eq!(act("mute 1"), ConsoleAction::Mute(true));
    assert_eq!(act("mute 0"), ConsoleAction::Mute(false));
    assert_eq!(act("mute"), ConsoleAction::Ignore);
    assert_eq!(act("mute on"), ConsoleAction::Ignore);
    assert_eq!(act("interval"), ConsoleAction::ShowInterval);
    assert_eq!(act("interval 250"), ConsoleAction::Interval(250));
    assert_eq!(act("interval 0"), ConsoleAction::Refuse(Refusal::IntervalZero));
    assert_eq!(act("interval -1"), ConsoleAction::Refuse(Refusal::IntervalInvalid));
    assert_eq!(act("promi 2"), ConsoleAction::Promi(true));
    assert_eq!(act("promi 0"), ConsoleAction::Promi(false));
    assert_eq!(act("promi x"), ConsoleAction::Refuse(Refusal::PromiInvalid));
    assert_eq!(act("promi"), ConsoleAction::Ignore);
    assert_eq!(act("channel"), ConsoleAction::ShowChannel);
    assert_eq!(act("channel 6/40"), ConsoleAction::Channel(6, true));
    assert_eq!(act("channel 11/20"), ConsoleAction::Channel(11, false));
    assert_eq!(act("channel 6"), ConsoleAction::Refuse(Refusal::ChannelFormat));
    assert_eq!(act("channel 6/40/1"), ConsoleAction::Refuse(Refusal::ChannelFormat));
    assert_eq!(act("channel 5/40"), ConsoleAction::Refuse(Refusal::ChannelUnused));
    assert_eq!(act("channel 5/41"), ConsoleAction::Refuse(Refusal::BandwidthUnused));
    assert_eq!(act("channel 256/40"), ConsoleAction::Refuse(Refusal::ChannelInvalid));
    assert_eq!(act("channel 6/ 40"), ConsoleAction::Refuse(Refusal::ChannelInvalid));
    assert_eq!(act("beacon 100"), ConsoleAction::Beacon(100));
    assert_eq!(act("beacon -5"), ConsoleAction::Beacon(-5));
    assert_eq!(act("beacon"), ConsoleAction::Ignore);
    assert_eq!(act("burst 24"), ConsoleAction::Burst(24));
    assert_eq!(act("burst x"), ConsoleAction::Ignore);
    assert_eq!(act(""), ConsoleAction::Ignore);
    assert_eq!(act("reboot"), ConsoleAction::Unknown);
    assert_eq!(refusal_lines(Refusal::IntervalZero), "Error: Interval must be greater than 0");
    assert_eq!(refusal_lines(Refusal::ChannelInvalid).lines().count(), 3);
    assert_eq!(id_message(&[0xa1; 6]), "\x02MAC\x01A1:A1:A1:A1:A1:A1\x03");
}
