use wipro::controller::config::{
    client_identifier, free_folder, output_folder, parse_server, pick_address, Config, ServerFault,
};
use wipro::controller::forward::{server_address, server_message};
use wipro::controller::ipc_publisher::{ipc_path, socket_file};
use wipro::controller::srv::{
    client_frames, client_message, Server, ServerAction, ServerEvent,
};
use wipro::controller::tlv::{CSIEvent, DBGEvent, ESPEvent};
use wipro::controller::tui::{log_line, App, Command, Key, KeyOutcome};
use wipro::number::IntFault;

fn dbg() -> ESPEvent {
    ESPEvent::DBG(DBGEvent {
        own_mac: "m".to_string(),
        data_type: "t".to_string(),
        len: 1,
        payload_b64: "p".to_string(),
    })
}

fn csi() -> ESPEvent {
    ESPEvent::CSI(CSIEvent {
        t_ms: 0,
        seq: 0,
        own_mac: "m".to_string(),
        tgt_mac: "n".to_string(),
        timestamp: 0,
        channel: 0,
        channel2: 0,
        rssi: 0,
        payload_b64: String::new(),
        mac_timestamp: 0,
        sig_mode: 0,
    })
}

#[test]
fn servers_are_an_address_and_a_port() {
    assert_eq!(
        parse_server("192.168.1.100:8080"),
        Ok(("192.168.1.100".to_string(), 8080))
    );
    assert_eq!(parse_server("höst:1"), Ok(("höst".to_string(), 1)));
    assert_eq!(parse_server("host"), Err(ServerFault::Format));
    assert_eq!(parse_server("::1"), Err(ServerFault::Format));
    assert_eq!(parse_server("h:65536"), Err(ServerFault::Port(IntFault::PosOverflow)));
    assert_eq!(parse_server("h:"), Err(ServerFault::Port(IntFault::Empty)));
    assert_eq!(parse_server("h:x"), Err(ServerFault::Port(IntFault::InvalidDigit)));
}

#[test]
fn arguments_make_a_configuration() {
    let c = Config::from_args(
        "/dev/ttyACM0".to_string(),
        Some(std::path::PathBuf::from("data")),
        Some("h:5".to_string()),
    )
    .unwrap();
    assert_eq!(c.serial_port, "/dev/ttyACM0");
    assert_eq!(c.output_dir, Some(std::path::PathBuf::from("data")));
    assert_eq!(c.server, Some(("h".to_string(), 5)));
    let c = Config::from_args("p".to_string(), None, None).unwrap();
    assert_eq!((c.output_dir, c.server), (None, None));
    assert_eq!(
        Config::from_args("p".to_string(), None, Some("h".to_string())).unwrap_err(),
        ServerFault::Format
    );
}

#[test]
fn data_goes_to_a_folder_of_its_own() {
    assert_eq!(output_folder(false, 1_700_000_000, &vec![]), Some(None));
    assert_eq!(
        output_folder(true, 1_700_000_000, &vec!["other".to_string()]),
        Some(Some("log20231114_221320".to_string()))
    );
    assert_eq!(
        output_folder(true, 0, &vec!["log19700101_000000".to_string()]),
        Some(Some("log19700101_000000_1".to_string()))
    );
    assert_eq!(output_folder(true, i64::MAX, &vec![]), None);
    let taken = vec!["logx".to_string(), "logx_2".to_string(), "logx_1".to_string()];
    assert_eq!(free_folder("x", &taken), "logx_3");
    assert_eq!(free_folder("y", &taken), "logy");
}

#[test]
fn machines_are_known_by_an_address() {
    let addrs = [[127, 0, 0, 1], [192, 168, 1, 2], [172, 16, 0, 9], [172, 17, 0, 1]];
    assert_eq!(pick_address(&addrs), Some([172, 16, 0, 9]));
    let ten = [[9, 1, 1, 1], [10, 0, 0, 7], [10, 0, 0, 8]];
    assert_eq!(pick_address(&ten), Some([10, 0, 0, 7]));
    assert_eq!(pick_address(&[[127, 3, 2, 1]]), None);
    let mac = Some([0xaa, 0x05, 0, 1, 0xff, 0x10]);
    assert_eq!(client_identifier(&addrs, mac), "172.16.0.9");
    assert_eq!(client_identifier(&[], mac), "AA:05:00:01:FF:10");
    assert_eq!(client_identifier(&[[127, 0, 0, 1]], None), "unknown");
}

fn emitted(actions: &[ServerAction]) -> Vec<String> {
    actions
        .iter()
        .map(|a| match a {
            ServerAction::Send(id, text) => format!("send {:?} {}", id, text),
            ServerAction::Emit(ServerEvent::ClientConnected(n)) => format!("connected {}", n),
            ServerAction::Emit(ServerEvent::ClientMessage(n, m)) => format!("message {} {}", n, m),
            ServerAction::Emit(ServerEvent::ClientList(l)) => format!("list {}", l.join("/")),
            ServerAction::Emit(ServerEvent::Log(l)) => format!("log {}", l),
            ServerAction::Stop => "stop".to_string(),
        })
        .collect()
}

#[test]
fn clients_are_greeted_once() {
    let mut server = Server::new();
    assert_eq!(
        emitted(&server.on_event(b"one".to_vec(), &csi())),
        ["connected one", "log [one] Connected (total: 1)"]
    );
    assert!(server.on_event(b"one".to_vec(), &csi()).is_empty());
    assert_eq!(
        emitted(&server.on_event(vec![0xff, b'x'], &dbg())),
        ["connected \u{fffd}x", "log [\u{fffd}x] Connected (total: 2)"]
    );
    assert_eq!(server.take_csi_count(), 2);
    assert_eq!(server.take_csi_count(), 0);
    assert_eq!(server.clients.len(), 2);
}

#[test]
fn commands_reach_the_clients() {
    let mut server = Server::new();
    server.on_event(b"one".to_vec(), &dbg());
    server.on_event(b"two".to_vec(), &dbg());
    assert_eq!(emitted(&server.on_command(&Command::ListClients)), ["list one/two"]);
    assert_eq!(
        emitted(&server.on_command(&Command::SendBroadcast("mute 0".to_string()))),
        ["send [111, 110, 101] mute 0", "send [116, 119, 111] mute 0", "log Broadcast: mute 0"]
    );
    assert_eq!(
        emitted(&server.on_command(&Command::SendToClient("two".to_string(), "id".to_string()))),
        ["send [116, 119, 111] id", "log Sent to two: id"]
    );
    assert!(server
        .on_command(&Command::SendToClient("three".to_string(), "id".to_string()))
        .is_empty());
    assert_eq!(
        emitted(&server.on_command(&Command::Shutdown)),
        ["log Server shutting down...", "stop"]
    );
}

#[test]
fn frames_carry_a_text_to_a_client() {
    let frames = client_frames(&b"one".to_vec(), "häm");
    assert_eq!(frames, vec![b"one".to_vec(), vec![], "häm".as_bytes().to_vec()]);
    assert_eq!(
        server_message(&frames[1..].to_vec()),
        Some(("häm".to_string(), "häm\n".to_string()))
    );
    assert_eq!(server_message(&vec![]), None);
    assert_eq!(
        server_message(&vec![vec![b'a', 0xff]]),
        Some(("a\u{fffd}".to_string(), "a\u{fffd}\n".to_string()))
    );
    assert_eq!(client_message(&vec![vec![1]]), None);
    assert_eq!(
        client_message(&vec![vec![1], vec![2, 3], vec![4]]),
        Some((vec![1], vec![2, 3]))
    );
    assert_eq!(server_address("10.0.0.1", 5555), "tcp://10.0.0.1:5555");
}

#[test]
fn events_are_published_in_places_of_their_own() {
    assert_eq!(ipc_path(&csi()), "ipc:///tmp/wipro_csi_data");
    assert_eq!(ipc_path(&dbg()), "ipc:///tmp/wipro_dbg_data");
    assert_eq!(socket_file(ipc_path(&csi())), Some("/tmp/wipro_csi_data"));
    assert_eq!(socket_file("tcp://x"), None);
    assert_eq!(socket_file("ipc:"), None);
}

fn typed(app: &mut App, text: &str) -> KeyOutcome {
    for c in text.chars() {
        app.on_key(Key::Char(c));
    }
    app.on_key(Key::Enter)
}

#[test]
fn typed_lines_are_commands() {
    let mut app = App::new();
    assert!(matches!(
        typed(&mut app, "  list  now"),
        KeyOutcome::Send(Command::ListClients)
    ));
    assert_eq!(app.input, "");
    match typed(&mut app, "broadcast  mute\u{a0}0 ") {
        KeyOutcome::Send(Command::SendBroadcast(m)) => assert_eq!(m, "mute 0"),
        _ => panic!("no broadcast"),
    }
    assert!(matches!(
        typed(&mut app, "quit"),
        KeyOutcome::SendAndLeave(Command::Shutdown)
    ));
    assert!(matches!(
        typed(&mut app, "exit"),
        KeyOutcome::SendAndLeave(Command::Shutdown)
    ));
    assert!(matches!(typed(&mut app, "   "), KeyOutcome::Stay));
    assert!(app.logs.is_empty());
    assert!(matches!(typed(&mut app, "broadcast "), KeyOutcome::Stay));
    assert_eq!(app.logs, ["Unknown command: broadcast "]);
    assert!(matches!(app.on_key(Key::Esc), KeyOutcome::Leave));
}

#[test]
fn backspace_takes_the_last_character() {
    let mut app = App::new();
    app.on_key(Key::Backspace);
    app.on_key(Key::Char('a'));
    app.on_key(Key::Char('é'));
    app.on_key(Key::Backspace);
    app.on_key(Key::Other);
    assert_eq!(app.input, "a");
}

#[test]
fn the_log_keeps_a_hundred_lines() {
    let mut app = App::new();
    for i in 0..130 {
        app.add_log(format!("{}", i));
        assert_eq!(app.log_scroll, app.logs.len() - 1);
    }
    assert_eq!(app.logs.len(), 100);
    assert_eq!(app.logs[0], "30");
    assert_eq!(app.logs[99], "129");
}

#[test]
fn server_events_are_logged() {
    let mut app = App::new();
    app.on_server_event(ServerEvent::ClientConnected("c".to_string()));
    app.on_server_event(ServerEvent::ClientMessage("c".to_string(), "hi".to_string()));
    app.on_server_event(ServerEvent::ClientList(vec!["a".to_string(), "b".to_string()]));
    app.on_server_event(ServerEvent::ClientList(vec![]));
    app.on_server_event(ServerEvent::Log("plain".to_string()));
    assert_eq!(
        app.logs,
        ["✓ Client connected: c", "[c] hi", "Clients (2): a, b", "Clients (0): ", "plain"]
    );
    assert!(app.clients.is_empty());
    assert_eq!(log_line("INFO", "x"), "[INFO] x");
}
