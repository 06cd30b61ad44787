use wipro::controller::esp_io::{
    command_line, event_file, file_name, handle_message, mac_message_ok, read_line, LineOutcome,
    MessageOutcome, OutputFile,
};
use wipro::controller::tlv::{
    attach_csi, ftm_payload_reports, parse, parse_csi, parse_dbg, parse_ftm, parse_range, CSIEvent,
    DBGEvent, ESPEvent, FTMEvent, FTMReport, RangeEvent,
};
use wipro::number::{
    check_float, float_fault_message, int_fault_text, parse_i32, parse_unsigned,
};
use wipro::utf8::trim;

fn fields<'a>(texts: &[&'a str]) -> Vec<&'a [u8]> {
    texts.iter().map(|t| t.as_bytes()).collect()
}

const CSI: [&str; 11] = [
    "CSI",
    "            1f4a",
    "77",
    " AA:BB:CC:DD:EE:FF ",
    "123456789",
    "8",
    "AQIDBA==",
    "6",
    "1",
    "-55",
    "1",
];

#[test]
fn numbers_read_as_std_reads_them() {
    let texts = [
        "", "+", "-", "0", "7", "+7", "-7", "007", "255", "256", "65535", "65536", "1x", "x1", "9999999999",
        "18446744073709551615", "18446744073709551616", "18446744073709551616x", "--1", "+-1", " 1", "1 ",
        "2147483647", "2147483648", "-2147483648", "-2147483649", "-0", "٣",
    ];
    for t in texts {
        match (parse_unsigned(t.as_bytes(), 10, u64::MAX), t.parse::<u64>()) {
            (Ok(a), Ok(b)) => assert_eq!(a, b),
            (Err(f), Err(e)) => assert_eq!(int_fault_text(f), e.to_string(), "{}", t),
            (a, b) => panic!("{}: {:?} {:?}", t, a, b),
        }
        match (parse_unsigned(t.as_bytes(), 10, 255), t.parse::<u8>()) {
            (Ok(a), Ok(b)) => assert_eq!(a, b as u64),
            (Err(f), Err(e)) => assert_eq!(int_fault_text(f), e.to_string(), "{}", t),
            (a, b) => panic!("{}: {:?} {:?}", t, a, b),
        }
        match (parse_i32(t.as_bytes()), t.parse::<i32>()) {
            (Ok(a), Ok(b)) => assert_eq!(a, b),
            (Err(f), Err(e)) => assert_eq!(int_fault_text(f), e.to_string(), "{}", t),
            (a, b) => panic!("{}: {:?} {:?}", t, a, b),
        }
    }
    for t in ["0", "ff", "FF", "Fg", "ffffffffffffffff", "10000000000000000", "", "+a", "-a"] {
        match (parse_unsigned(t.as_bytes(), 16, u64::MAX), u64::from_str_radix(t, 16)) {
            (Ok(a), Ok(b)) => assert_eq!(a, b),
            (Err(f), Err(e)) => assert_eq!(int_fault_text(f), e.to_string(), "{}", t),
            (a, b) => panic!("{}: {:?} {:?}", t, a, b),
        }
    }
}

#[test]
fn white_space_goes_as_in_std() {
    for t in ["", " ", " a ", "\u{a0}\u{3000}b c\u{2009}\r\n", "\u{200b}x", "é\u{85}"] {
        assert_eq!(trim(t), t.trim());
    }
}

#[test]
fn fields_between_the_markers() {
    let line = "noise \x02CSI\x01a\x01\x01b\x03 tail\x03";
    assert_eq!(parse(line), Some(fields(&["CSI", "a", "", "b"])));
    assert_eq!(parse("\x02\x03"), Some(fields(&[""])));
    assert_eq!(parse("\x03 \x02x"), None);
    assert_eq!(parse("plain"), None);
    assert_eq!(parse("\x03\x02x\x03"), Some(fields(&["x"])));
}

#[test]
fn csi_message_is_read() {
    let e = parse_csi(fields(&CSI), "me", 42).unwrap();
    assert_eq!(e.t_ms, 42);
    assert_eq!(e.seq, 77);
    assert_eq!(e.own_mac, "me");
    assert_eq!(e.tgt_mac, "AA:BB:CC:DD:EE:FF");
    assert_eq!(e.timestamp, 123456789);
    assert_eq!(e.channel, 6);
    assert_eq!(e.channel2, 1);
    assert_eq!(e.rssi, -55);
    assert_eq!(e.payload_b64, "AQIDBA==");
    assert_eq!(e.mac_timestamp, 0x1f4a);
    assert_eq!(e.sig_mode, 1);
    assert_eq!(
        e.to_csv(),
        "42,123456789,me,AA:BB:CC:DD:EE:FF,77,AQIDBA==,8010,-55,1\n"
    );
}

#[test]
fn csi_time_of_sixteen_digits_is_signed() {
    let mut f = CSI;
    f[1] = "ffffffffffffffff";
    assert_eq!(parse_csi(fields(&f), "me", 0).unwrap().mac_timestamp, -1);
}

#[test]
fn csi_faults_are_named() {
    let fault = |i: usize, text: &'static str| {
        let mut f = CSI;
        f[i] = text;
        parse_csi(fields(&f), "me", 0).unwrap_err()
    };
    assert_eq!(fault(1, "xyz"), "Invalid hex field: invalid digit found in string");
    assert_eq!(fault(1, ""), "Invalid hex field: cannot parse integer from empty string");
    assert_eq!(fault(2, "2147483648"), "Invalid seq: number too large to fit in target type");
    assert_eq!(fault(2, "-2147483649"), "Invalid seq: number too small to fit in target type");
    assert_eq!(fault(4, " 1"), "Invalid timestamp: invalid digit found in string");
    assert_eq!(fault(5, "x"), "Invalid payload size: invalid digit found in string");
    assert_eq!(fault(5, "7"), "Incorrect CSI Size: expected 7, got 8");
    assert_eq!(fault(7, "-1"), "Invalid: invalid digit found in string");
    assert_eq!(fault(8, "4294967296"), "Invalid: number too large to fit in target type");
    assert_eq!(fault(9, "a"), "Invalid: invalid digit found in string");
    assert_eq!(fault(10, "256"), "Invalid: number too large to fit in target type");
    assert_eq!(
        parse_csi(fields(&CSI[..10]), "me", 0).unwrap_err(),
        "Invalid CSI message: expected 10 fields, got 10"
    );
    let mut f = fields(&CSI);
    let bad: &[u8] = &[0xff];
    let expected = std::str::from_utf8(bad).unwrap_err().to_string();
    f[3] = bad;
    assert_eq!(
        parse_csi(f, "me", 0).unwrap_err(),
        format!("Invalid UTF-8 in tgt_mac: {}", expected)
    );
    let long: &[u8] = &[b'A', 0xe2, 0x82, b'B', b'C', b'D', b'E', b'F'];
    let mut f = fields(&CSI);
    f[6] = long;
    assert_eq!(
        parse_csi(f, "me", 0).unwrap_err(),
        format!(
            "Invalid UTF-8 in payload: {}",
            std::str::from_utf8(long).unwrap_err()
        )
    );
}

#[test]
fn the_first_fault_counts() {
    let mut f = CSI;
    f[2] = "x";
    f[10] = "x";
    f[5] = "9";
    assert_eq!(
        parse_csi(fields(&f), "me", 0).unwrap_err(),
        "Invalid seq: invalid digit found in string"
    );
}

#[test]
fn dbg_message_is_read() {
    let e = parse_dbg(fields(&["DBG", " fc32 ", " 3\r", " AAAA\n"]), "me", 9).unwrap();
    assert_eq!(e.data_type, "fc32");
    assert_eq!(e.len, 3);
    assert_eq!(e.payload_b64, "AAAA");
    assert_eq!(e.to_csv(), "me,fc32,3,AAAA\n");
    assert_eq!(
        parse_dbg(fields(&["DBG", "fc32", "3"]), "me", 9).unwrap_err(),
        "Invalid DBG message: expected 4 fields, got 3"
    );
    assert_eq!(
        parse_dbg(fields(&["DBG", "fc32", "-3", ""]), "me", 9).unwrap_err(),
        "Invalid len: invalid digit found in string"
    );
}

#[test]
fn range_message_is_read() {
    let e = parse_range(fields(&["RANGE", "AA:BB", " 17 ", " 3.25 "]), "me", 9).unwrap();
    assert_eq!(e.tgt_mac, "AA:BB");
    assert_eq!(e.timestamp, 17);
    assert_eq!(e.range, "3.25");
    assert_eq!(e.range.parse::<f32>().unwrap(), 3.25);
    assert_eq!(e.to_csv(), "9,me,AA:BB,17,3.25\n");
    assert_eq!(
        parse_range(fields(&["RANGE"]), "me", 9).unwrap_err(),
        "Invalid RANGE message: expected 4 fields, got 1"
    );
    assert_eq!(
        parse_range(fields(&["RANGE", "a", "b", "c"]), "me", 9).unwrap_err(),
        "Invalid timestamp: invalid digit found in string"
    );
    assert_eq!(
        parse_range(fields(&["RANGE", "a", "17", " far "]), "me", 9).unwrap_err(),
        "Invalid range: invalid float literal"
    );
    assert_eq!(
        parse_range(fields(&["RANGE", "a", "17", "  "]), "me", 9).unwrap_err(),
        "Invalid range: cannot parse float from empty string"
    );
    let bytes: Vec<&[u8]> = vec![b"RANGE", b"a", b"17", b"\xff"];
    assert!(parse_range(bytes, "me", 9)
        .unwrap_err()
        .starts_with("Invalid UTF-8 in range: "));
}

#[test]
fn decimal_numbers_are_those_that_std_reads() {
    let parts = ["", "+", "-", ".", "5", "07", "e", "E", "inf", "InFiNiTy", "nan", "x", " ", "_"];
    let mut texts = vec![
        "-12.50e-03".to_string(),
        "1e999".to_string(),
        "infinit".to_string(),
        "0x1".to_string(),
        "1.2.3".to_string(),
        "+-1".to_string(),
        "1e+".to_string(),
        "\u{665}".to_string(),
    ];
    for a in parts {
        for b in parts {
            for c in parts {
                for d in parts {
                    texts.push(format!("{a}{b}{c}{d}"));
                }
            }
        }
    }
    for t in texts {
        let said = check_float(t.as_bytes()).map(float_fault_message);
        let by_std = t.parse::<f32>().err().map(|e| e.to_string());
        assert_eq!(said, by_std.as_deref(), "{t:?}");
    }
}

fn exchange_bytes(token: u8, rssi: i8, t: [u64; 4]) -> Vec<u8> {
    let mut b = vec![token, rssi as u8, 0, 0, 9, 9, 9, 9];
    for x in t {
        b.extend_from_slice(&x.to_le_bytes());
    }
    b
}

#[test]
fn payloads_hold_exchanges_of_forty_bytes() {
    let mut payload = exchange_bytes(3, -40, [1, 2, 3, u64::MAX]);
    payload.extend(exchange_bytes(4, 5, [6, 7, 8, 9]));
    let reports = ftm_payload_reports("me", "you", Ok(payload)).unwrap();
    assert_eq!(reports.len(), 2);
    assert_eq!(reports[0].own_mac, "me");
    assert_eq!(reports[0].tgt_mac, "you");
    assert_eq!(reports[0].dlog_token, 3);
    assert_eq!(reports[0].rssi, -40);
    assert_eq!(
        (reports[0].t1, reports[0].t2, reports[0].t3, reports[0].t4),
        (1, 2, 3, u64::MAX)
    );
    assert_eq!(reports[1].rssi, 5);
    assert_eq!(reports[1].payload_b64, "");
    assert_eq!(
        ftm_payload_reports("me", "you", Ok(vec![0; 41])).unwrap_err(),
        "Incorrect FTM Size: 41 (expected multiple of 40)"
    );
    assert_eq!(
        ftm_payload_reports("me", "you", Err("why".to_string())).unwrap_err(),
        "Error decoding FTM base64: why"
    );
    assert!(ftm_payload_reports("me", "you", Ok(vec![])).unwrap().is_empty());
}

fn report(t2: u64) -> FTMReport {
    FTMReport {
        own_mac: "me".to_string(),
        tgt_mac: "you".to_string(),
        dlog_token: 0,
        rssi: 0,
        t1: 0,
        t2,
        t3: 0,
        t4: 0,
        channel: 0,
        channel2: 0,
        payload_b64: String::new(),
        mac_timestamp: 0,
    }
}

#[test]
fn channel_state_goes_to_the_first_exchange_within_two_nanoseconds() {
    let reports = vec![report(7_002_000), report(7_001_999), report(7_000_000)];
    let msg = fields(&["6", "2", " QUJD ", "7000", "55", "rest"]);
    let with = attach_csi(reports, &msg, 0).unwrap();
    assert_eq!(with[0].payload_b64, "");
    assert_eq!(with[1].payload_b64, "QUJD");
    assert_eq!((with[1].channel, with[1].channel2, with[1].mac_timestamp), (6, 2, 55));
    assert_eq!(with[2].payload_b64, "");
    let again = attach_csi(vec![report(6_998_001)], &msg, 0).unwrap();
    assert_eq!(again[0].payload_b64, "QUJD");
    let none = attach_csi(vec![report(6_998_000)], &msg, 0).unwrap();
    assert_eq!(none[0].payload_b64, "");
    assert_eq!(
        attach_csi(vec![], &fields(&["6", "2", "x", "7000", "-1"]), 0).unwrap_err(),
        "Invalid seq: invalid digit found in string"
    );
}

#[test]
fn ftm_message_is_read_from_its_fifth_field() {
    let one = "AwoAAAAAAAABAAAAAAAAANAtawAAAAAAAwAAAAAAAAAEAAAAAAAAAA==";
    let msg = fields(&[
        "FTM", " AA:BB ", "2", one, one, "CSI", "6", "1", "QUJD", "7024", "12", "",
    ]);
    let e = parse_ftm(msg, "me", 5).unwrap();
    assert_eq!((e.t_ms, e.seq), (5, 0));
    assert_eq!(e.tgt_mac, "AA:BB");
    assert_eq!(e.reports.len(), 1);
    let r = &e.reports[0];
    assert_eq!((r.dlog_token, r.rssi, r.t1, r.t2, r.t3, r.t4), (3, 10, 1, 7024080, 3, 4));
    assert_eq!(r.payload_b64, "QUJD");
    assert_eq!(
        e.to_csv(),
        vec!["me,5,0,AA:BB,3,10,1,7024080,3,4,QUJD\n".to_string()]
    );
}

#[test]
fn ftm_faults_are_named() {
    assert_eq!(
        parse_ftm(fields(&["FTM", "a", "1"]), "me", 5).unwrap_err(),
        "Invalid FTM message: expected at least 4 fields, got 3"
    );
    assert_eq!(
        parse_ftm(fields(&["FTM", "a", "x", ""]), "me", 5).unwrap_err(),
        "Invalid seq: invalid digit found in string"
    );
    assert_eq!(
        parse_ftm(fields(&["FTM", "a", "1", "", "AAAA"]), "me", 5).unwrap_err(),
        "Incorrect FTM Size: 3 (expected multiple of 40)"
    );
    let e = parse_ftm(fields(&["FTM", "a", "1", "", "A"]), "me", 5).unwrap_err();
    assert!(e.starts_with("Error decoding FTM base64: "), "{}", e);
    assert!(e.len() > "Error decoding FTM base64: ".len());
    let e = parse_ftm(fields(&["FTM", "a", "0", "", ""]), "me", 5).unwrap();
    assert!(e.reports.is_empty() && e.to_csv().is_empty());
}

#[test]
fn events_have_names_rows_and_files() {
    let dbg = ESPEvent::DBG(DBGEvent {
        own_mac: "m".to_string(),
        data_type: "t".to_string(),
        len: 1,
        payload_b64: "p".to_string(),
    });
    let range = ESPEvent::Range(RangeEvent {
        t_ms: 1,
        own_mac: "m".to_string(),
        tgt_mac: "n".to_string(),
        timestamp: 2,
        range: "0.5".to_string(),
    });
    let ftm = ESPEvent::FTM(FTMEvent {
        t_ms: 1,
        own_mac: "m".to_string(),
        tgt_mac: "n".to_string(),
        seq: 0,
        reports: vec![report(1), report(2)],
    });
    let csi = ESPEvent::CSI(CSIEvent {
        t_ms: 1,
        seq: -2,
        own_mac: "m".to_string(),
        tgt_mac: "n".to_string(),
        timestamp: 3,
        channel: 4,
        channel2: 5,
        rssi: -6,
        payload_b64: "p".to_string(),
        mac_timestamp: i64::MIN,
        sig_mode: 7,
    });
    assert_eq!(
        [csi.id_str(), ftm.id_str(), dbg.id_str(), range.id_str()],
        ["CSI", "FTM", "DBG", "RANGE"]
    );
    assert_eq!(csi.to_csv(), ["1,3,m,n,-2,p,-9223372036854775808,-6,7\n"]);
    assert_eq!(dbg.to_csv(), ["m,t,1,p\n"]);
    assert_eq!(range.to_csv(), ["1,m,n,2,0.5\n"]);
    assert_eq!(ftm.to_csv().len(), 2);
    assert_eq!(ftm.to_csv()[1], "m,1,0,n,0,0,0,2,0,0,\n");
    assert_eq!(file_name(event_file(&csi)), "csi.csv");
    assert_eq!(file_name(event_file(&ftm)), "ftm.csv");
    assert_eq!(file_name(event_file(&dbg)), "dbg.csv");
    assert_eq!(file_name(event_file(&range)), "range.csv");
    assert_eq!(file_name(OutputFile::Raw), "raw.dat");
}

#[test]
fn messages_wait_for_the_address() {
    let mut mac: Option<String> = None;
    assert!(matches!(handle_message(&mut mac, vec![], 1), MessageOutcome::Ignored));
    assert!(matches!(
        handle_message(&mut mac, fields(&CSI), 1),
        MessageOutcome::MacUnknown
    ));
    assert!(matches!(
        handle_message(&mut mac, fields(&["MAC", " 01:02 "]), 1),
        MessageOutcome::Ignored
    ));
    assert_eq!(mac.as_deref(), Some("01:02"));
    handle_message(&mut mac, fields(&["MAC", "03:04"]), 1);
    assert_eq!(mac.as_deref(), Some("01:02"));
    match handle_message(&mut mac, fields(&CSI), 8) {
        MessageOutcome::Event(ESPEvent::CSI(e)) => {
            assert_eq!(e.own_mac, "01:02");
            assert_eq!(e.t_ms, 8);
        }
        _ => panic!("no event"),
    }
    match handle_message(&mut mac, fields(&["DBG"]), 8) {
        MessageOutcome::Fault(e) => {
            assert_eq!(e, "Invalid DBG message: expected 4 fields, got 1")
        }
        _ => panic!("no fault"),
    }
    assert!(matches!(
        handle_message(&mut mac, fields(&["RANGE", "a", "1", "2"]), 8),
        MessageOutcome::Unread
    ));
    let bad: &[u8] = &[0xff];
    assert!(!mac_message_ok(&vec!["MAC".as_bytes(), bad]));
    assert!(!mac_message_ok(&fields(&["MAC"])));
    assert!(mac_message_ok(&fields(&["MAC", "x"])));
    assert!(mac_message_ok(&fields(&["CSI"])));
}

#[test]
fn lines_are_read_or_shown() {
    assert!(matches!(read_line("\x02a\x03"), LineOutcome::Message(f) if f == fields(&["a"])));
    assert!(matches!(read_line(" hello \r\n"), LineOutcome::Show(s) if s == "hello"));
    assert!(matches!(read_line(" four\r\n"), LineOutcome::Quiet));
    assert!(matches!(read_line("ééé"), LineOutcome::Show(s) if s == "ééé"));
    assert_eq!(command_line("id"), "id\n");
}
