//! The commands that a node takes over its serial line.
use vstd::prelude::*;
use vstd::slice::slice_subrange;
use vstd::utf8::*;
use crate::firmware::config::Config;
use crate::firmware::espnow::{set_beacon, BeaconState};
use crate::firmware::ftm::{is_burst, set_burst, set_mute, FtmState};
use crate::firmware::wifi::{is_channel, set_channel, WifiState, ESP_ERR_INVALID_ARG};
use crate::frame::{
    find, first_at, is_field_char, is_field_text, joined, lemma_ascii_utf8, lemma_first_at_bounds,
};
use crate::number::{
    lemma_dec_digits, lemma_dec_field, lemma_dec_round_trip, lemma_signed_field,
    lemma_signed_round_trip, parse_i32, parse_unsigned, signed_value, unsigned_value,
};
use crate::text::{ascii_bytes, dec, mac_text, push_mac, signed_dec};
use crate::utf8::{
    chars_of, is_white_space, lemma_trimmed_parts, lemma_trimmed_same, str_eq, trim, trimmed,
};

verus! {

/// The first white space from `i` on, or the length of the text.
pub open spec fn first_space(s: Seq<char>, i: int) -> int
    decreases s.len() - i,
{
    if i >= s.len() || is_white_space(s[i]) {
        i
    } else {
        first_space(s, i + 1)
    }
}

/// The first word of a line.
pub open spec fn command_of(line: Seq<char>) -> Seq<char> {
    let s = trimmed(line);
    s.take(first_space(s, 0))
}

/// What follows the first word of a line.
pub open spec fn arguments_of(line: Seq<char>) -> Seq<char> {
    let s = trimmed(line);
    trimmed(s.skip(first_space(s, 0)))
}

/// Splits a line into a command and its arguments.
pub fn split_command(line: &str) -> (r: (&str, &str))
    ensures
        r.0@ == command_of(line@),
        r.1@ == arguments_of(line@),
{
    let input: &str = trim(line);
    let chars: Vec<char> = chars_of(input);
    let mut pos: usize = 0;
    while pos < chars.len() && !chars[pos].is_whitespace()
        invariant
            pos <= chars@.len(),
            chars@ == input@,
            first_space(input@, 0) == first_space(input@, pos as int),
        decreases chars@.len() - pos,
    {
        pos += 1;
    }
    let cmd: &str = input.substring_char(0, pos);
    let rest: &str = input.substring_char(pos, chars.len());
    assert(cmd@ =~= input@.take(pos as int));
    assert(rest@ =~= input@.skip(pos as int));
    (cmd, trim(rest))
}

/// Why a command is refused.
#[derive(Clone, Copy, Debug, PartialEq, Eq, Structural)]
pub enum Refusal {
    IntervalZero,
    IntervalInvalid,
    PromiInvalid,
    ChannelFormat,
    ChannelUnused,
    BandwidthUnused,
    ChannelInvalid,
}

/// What a command asks for.
#[derive(Clone, Copy, Debug, PartialEq, Eq, Structural)]
pub enum ConsoleAction {
    /// Show the commands.
    Help,
    /// Show the peers.
    Peers,
    /// Show how many packets went out and came in.
    Stats,
    /// Show the address of the node.
    Id,
    /// Start ranging sessions or not.
    Mute(bool),
    /// Show the time between sessions.
    ShowInterval,
    /// Set the milliseconds between sessions.
    Interval(u64),
    /// Report the channel state of all frames or not.
    Promi(bool),
    /// Show the channel.
    ShowChannel,
    /// Change the channel; on two channels at once or not.
    Channel(u8, bool),
    /// Set the milliseconds between beacons.
    Beacon(i32),
    /// Set the number of frames in a session.
    Burst(i32),
    /// Say why the command is refused.
    Refuse(Refusal),
    /// Say that there is no such command.
    Unknown,
    /// Do nothing.
    Ignore,
}

/// An unsigned decimal number of at most `max`.
pub open spec fn number(s: Seq<u8>, max: nat) -> Option<nat> {
    match unsigned_value(s, 10, max) {
        Ok(v) => Some(v),
        Err(_) => None,
    }
}

/// A signed decimal number of 32 bits.
pub open spec fn signed_number(s: Seq<u8>) -> Option<int> {
    match signed_value(s) {
        Ok(v) => Some(v),
        Err(_) => None,
    }
}

/// What `mute` with an argument asks for: 0 is for starting sessions.
pub open spec fn mute_action(args: Seq<u8>) -> ConsoleAction {
    match number(args, u32::MAX as nat) {
        Some(v) => ConsoleAction::Mute(v != 0),
        None => ConsoleAction::Ignore,
    }
}

/// What `interval` with an argument asks for.
pub open spec fn interval_action(args: Seq<u8>) -> ConsoleAction {
    match number(args, u64::MAX as nat) {
        Some(v) => if v > 0 {
            ConsoleAction::Interval(v as u64)
        } else {
            ConsoleAction::Refuse(Refusal::IntervalZero)
        },
        None => ConsoleAction::Refuse(Refusal::IntervalInvalid),
    }
}

/// What `promi` with an argument asks for.
pub open spec fn promi_action(args: Seq<u8>) -> ConsoleAction {
    match number(args, u64::MAX as nat) {
        Some(v) => ConsoleAction::Promi(v > 0),
        None => ConsoleAction::Refuse(Refusal::PromiInvalid),
    }
}

/// What `channel` with an argument asks for: a channel and a bandwidth in MHz,
/// with one slash between them.
pub open spec fn channel_action(args: Seq<u8>) -> ConsoleAction {
    let slash = first_at(args, 47, 0);
    if slash >= args.len() || first_at(args, 47, slash + 1) < args.len() {
        ConsoleAction::Refuse(Refusal::ChannelFormat)
    } else {
        match (
            number(args.subrange(0, slash), u8::MAX as nat),
            number(args.subrange(slash + 1, args.len() as int), u8::MAX as nat),
        ) {
            (Some(channel), Some(bandwidth)) => if bandwidth != 20 && bandwidth != 40 {
                ConsoleAction::Refuse(Refusal::BandwidthUnused)
            } else if !is_channel(channel as u8) {
                ConsoleAction::Refuse(Refusal::ChannelUnused)
            } else {
                ConsoleAction::Channel(channel as u8, bandwidth == 40)
            },
            _ => ConsoleAction::Refuse(Refusal::ChannelInvalid),
        }
    }
}

/// What `beacon` with an argument asks for.
pub open spec fn beacon_action(args: Seq<u8>) -> ConsoleAction {
    match signed_number(args) {
        Some(v) => ConsoleAction::Beacon(v as i32),
        None => ConsoleAction::Ignore,
    }
}

/// What `burst` with an argument asks for.
pub open spec fn burst_action(args: Seq<u8>) -> ConsoleAction {
    match signed_number(args) {
        Some(v) => ConsoleAction::Burst(v as i32),
        None => ConsoleAction::Ignore,
    }
}

/// What a command asks for.
pub open spec fn action_of(cmd: Seq<char>, args: Seq<char>) -> ConsoleAction {
    let bytes = encode_utf8(args);
    if cmd == "help"@ {
        ConsoleAction::Help
    } else if cmd == "peers"@ {
        ConsoleAction::Peers
    } else if cmd == "stats"@ {
        ConsoleAction::Stats
    } else if cmd == "id"@ {
        ConsoleAction::Id
    } else if cmd == "mute"@ {
        if args.len() == 0 {
            ConsoleAction::Ignore
        } else {
            mute_action(bytes)
        }
    } else if cmd == "interval"@ {
        if args.len() == 0 {
            ConsoleAction::ShowInterval
        } else {
            interval_action(bytes)
        }
    } else if cmd == "promi"@ {
        if args.len() == 0 {
            ConsoleAction::Ignore
        } else {
            promi_action(bytes)
        }
    } else if cmd == "channel"@ {
        if args.len() == 0 {
            ConsoleAction::ShowChannel
        } else {
            channel_action(bytes)
        }
    } else if cmd == "beacon"@ {
        if args.len() == 0 {
            ConsoleAction::Ignore
        } else {
            beacon_action(bytes)
        }
    } else if cmd == "burst"@ {
        if args.len() == 0 {
            ConsoleAction::Ignore
        } else {
            burst_action(bytes)
        }
    } else if cmd.len() == 0 {
        ConsoleAction::Ignore
    } else {
        ConsoleAction::Unknown
    }
}

/// Reads the argument of `channel`.
fn parse_channel(args: &[u8]) -> (r: ConsoleAction)
    ensures
        r == channel_action(args@),
{
    let slash: usize = find(args, 47, 0);
    if slash >= args.len() || find(args, 47, slash + 1) < args.len() {
        return ConsoleAction::Refuse(Refusal::ChannelFormat);
    }
    let channel_text: &[u8] = slice_subrange(args, 0, slash);
    let bandwidth_text: &[u8] = slice_subrange(args, slash + 1, args.len());
    let channel: u8 = match parse_unsigned(channel_text, 10, 255) {
        Ok(v) => v as u8,
        Err(_) => return ConsoleAction::Refuse(Refusal::ChannelInvalid),
    };
    let bandwidth: u8 = match parse_unsigned(bandwidth_text, 10, 255) {
        Ok(v) => v as u8,
        Err(_) => return ConsoleAction::Refuse(Refusal::ChannelInvalid),
    };
    if bandwidth != 20 && bandwidth != 40 {
        ConsoleAction::Refuse(Refusal::BandwidthUnused)
    } else if channel != 1 && channel != 6 && channel != 11 {
        ConsoleAction::Refuse(Refusal::ChannelUnused)
    } else {
        ConsoleAction::Channel(channel, bandwidth == 40)
    }
}

/// Reads a command.
pub fn handle_command(cmd: &str, args: &str) -> (r: ConsoleAction)
    ensures
        r == action_of(cmd@, args@),
{
    let none: bool = args.is_empty();
    let bytes: &[u8] = args.as_bytes();
    if str_eq(cmd, "help") {
        ConsoleAction::Help
    } else if str_eq(cmd, "peers") {
        ConsoleAction::Peers
    } else if str_eq(cmd, "stats") {
        ConsoleAction::Stats
    } else if str_eq(cmd, "id") {
        ConsoleAction::Id
    } else if str_eq(cmd, "mute") {
        if none {
            ConsoleAction::Ignore
        } else {
            match parse_unsigned(bytes, 10, u32::MAX as u64) {
                Ok(v) => ConsoleAction::Mute(v != 0),
                Err(_) => ConsoleAction::Ignore,
            }
        }
    } else if str_eq(cmd, "interval") {
        if none {
            ConsoleAction::ShowInterval
        } else {
            match parse_unsigned(bytes, 10, u64::MAX) {
                Ok(v) => if v > 0 {
                    ConsoleAction::Interval(v)
                } else {
                    ConsoleAction::Refuse(Refusal::IntervalZero)
                },
                Err(_) => ConsoleAction::Refuse(Refusal::IntervalInvalid),
            }
        }
    } else if str_eq(cmd, "promi") {
        if none {
            ConsoleAction::Ignore
        } else {
            match parse_unsigned(bytes, 10, u64::MAX) {
                Ok(v) => ConsoleAction::Promi(v > 0),
                Err(_) => ConsoleAction::Refuse(Refusal::PromiInvalid),
            }
        }
    } else if str_eq(cmd, "channel") {
        if none {
            ConsoleAction::ShowChannel
        } else {
            parse_channel(bytes)
        }
    } else if str_eq(cmd, "beacon") {
        if none {
            ConsoleAction::Ignore
        } else {
            match parse_i32(bytes) {
                Ok(v) => ConsoleAction::Beacon(v),
                Err(_) => ConsoleAction::Ignore,
            }
        }
    } else if str_eq(cmd, "burst") {
        if none {
            ConsoleAction::Ignore
        } else {
            match parse_i32(bytes) {
                Ok(v) => ConsoleAction::Burst(v),
                Err(_) => ConsoleAction::Ignore,
            }
        }
    } else if cmd.is_empty() {
        ConsoleAction::Ignore
    } else {
        ConsoleAction::Unknown
    }
}

/// The commands that a node takes.
pub open spec fn command_names() -> Seq<Seq<char>> {
    seq![
        "help"@,
        "peers"@,
        "stats"@,
        "id"@,
        "mute"@,
        "beacon"@,
        "interval"@,
        "promi"@,
        "channel"@,
        "burst"@,
    ]
}

/// What is said of the commands: a heading, and a line for each.
pub open spec fn help_texts() -> Seq<Seq<char>> {
    seq![
        "Available commands:"@,
        "  help     - Show this help"@,
        "  peers    - List discovered peers"@,
        "  stats    - Show ESP-NOW statistics"@,
        "  id       - Show device MAC address"@,
        "  mute <1|0> - enable/disable FTM requests"@,
        "  beacon <ms>  - Set UDP beaconing period in milliseconds"@,
        "  interval <ms> - Set FTM request interval in milliseconds"@,
        "  promi <1|0> - enable promiscuous mode"@,
        "  channel <ch>/<bw> - Set WiFi channel (e.g., channel 6/40)"@,
        "  burst <16|25|32|64> - Set number of FTMs to be sent"@,
    ]
}

/// What is said of the commands, line by line.
pub fn help_lines() -> (r: Vec<&'static str>)
    ensures
        r@.map_values(|s: &str| s@) == help_texts(),
{
    let mut lines: Vec<&'static str> = Vec::new();
    lines.push("Available commands:");
    lines.push("  help     - Show this help");
    lines.push("  peers    - List discovered peers");
    lines.push("  stats    - Show ESP-NOW statistics");
    lines.push("  id       - Show device MAC address");
    lines.push("  mute <1|0> - enable/disable FTM requests");
    lines.push("  beacon <ms>  - Set UDP beaconing period in milliseconds");
    lines.push("  interval <ms> - Set FTM request interval in milliseconds");
    lines.push("  promi <1|0> - enable promiscuous mode");
    lines.push("  channel <ch>/<bw> - Set WiFi channel (e.g., channel 6/40)");
    lines.push("  burst <16|25|32|64> - Set number of FTMs to be sent");
    assert(lines@.map_values(|s: &str| s@) =~= help_texts());
    lines
}

/// A line is about a command: it names it, behind two spaces.
pub open spec fn is_about(line: Seq<char>, name: Seq<char>) -> bool {
    (seq![' ', ' '] + name + seq![' ']).is_prefix_of(line)
}

/// The help has a line for each command, in the same order, and a heading.
pub proof fn lemma_help_lists(i: int)
    requires
        0 <= i < command_names().len(),
    ensures
        help_texts().len() == command_names().len() + 1,
        is_about(help_texts()[i + 1], command_names()[i]),
{
    let line = help_texts()[i + 1];
    let start = seq![' ', ' '] + command_names()[i] + seq![' '];
    if i == 0 {
        reveal_strlit("help");
        reveal_strlit("  help     - Show this help");
    } else if i == 1 {
        reveal_strlit("peers");
        reveal_strlit("  peers    - List discovered peers");
    } else if i == 2 {
        reveal_strlit("stats");
        reveal_strlit("  stats    - Show ESP-NOW statistics");
    } else if i == 3 {
        reveal_strlit("id");
        reveal_strlit("  id       - Show device MAC address");
    } else if i == 4 {
        reveal_strlit("mute");
        reveal_strlit("  mute <1|0> - enable/disable FTM requests");
    } else if i == 5 {
        reveal_strlit("beacon");
        reveal_strlit("  beacon <ms>  - Set UDP beaconing period in milliseconds");
    } else if i == 6 {
        reveal_strlit("interval");
        reveal_strlit("  interval <ms> - Set FTM request interval in milliseconds");
    } else if i == 7 {
        reveal_strlit("promi");
        reveal_strlit("  promi <1|0> - enable promiscuous mode");
    } else if i == 8 {
        reveal_strlit("channel");
        reveal_strlit("  channel <ch>/<bw> - Set WiFi channel (e.g., channel 6/40)");
    } else {
        reveal_strlit("burst");
        reveal_strlit("  burst <16|25|32|64> - Set number of FTMs to be sent");
    }
    assert(start =~= line.subrange(0, start.len() as int));
}

/// How a command is typed, behind its name: what stands for its argument, if it takes one.
pub open spec fn usage_of(i: int) -> Seq<char> {
    if i == 4 || i == 7 {
        "<1|0>"@
    } else if i == 5 || i == 6 {
        "<ms>"@
    } else if i == 8 {
        "<ch>/<bw>"@
    } else if i == 9 {
        "<16|25|32|64>"@
    } else {
        Seq::empty()
    }
}

/// The line of the help on a command that takes an argument shows what stands for it.
pub proof fn lemma_help_usage(i: int)
    requires
        4 <= i < command_names().len(),
    ensures
        (seq![' ', ' '] + command_names()[i] + seq![' '] + usage_of(i)).is_prefix_of(
            help_texts()[i + 1],
        ),
{
    let line = help_texts()[i + 1];
    let start = seq![' ', ' '] + command_names()[i] + seq![' '] + usage_of(i);
    reveal_strlit("<1|0>");
    reveal_strlit("<ms>");
    reveal_strlit("<ch>/<bw>");
    reveal_strlit("<16|25|32|64>");
    if i == 4 {
        reveal_strlit("mute");
        reveal_strlit("  mute <1|0> - enable/disable FTM requests");
    } else if i == 5 {
        reveal_strlit("beacon");
        reveal_strlit("  beacon <ms>  - Set UDP beaconing period in milliseconds");
    } else if i == 6 {
        reveal_strlit("interval");
        reveal_strlit("  interval <ms> - Set FTM request interval in milliseconds");
    } else if i == 7 {
        reveal_strlit("promi");
        reveal_strlit("  promi <1|0> - enable promiscuous mode");
    } else if i == 8 {
        reveal_strlit("channel");
        reveal_strlit("  channel <ch>/<bw> - Set WiFi channel (e.g., channel 6/40)");
    } else {
        reveal_strlit("burst");
        reveal_strlit("  burst <16|25|32|64> - Set number of FTMs to be sent");
    }
    assert(start =~= line.subrange(0, start.len() as int));
}

/// A word is unknown just where it is not among the commands.
pub proof fn lemma_commands_known(cmd: Seq<char>, args: Seq<char>)
    requires
        cmd.len() > 0,
    ensures
        action_of(cmd, args) == ConsoleAction::Unknown <==> !command_names().contains(cmd),
{
    let names = command_names();
    assert(names[0] == "help"@ && names[1] == "peers"@ && names[2] == "stats"@ && names[3]
        == "id"@ && names[4] == "mute"@);
    assert(names[5] == "beacon"@ && names[6] == "interval"@ && names[7] == "promi"@ && names[8]
        == "channel"@ && names[9] == "burst"@);
}

/// How a command changed the settings of a node.
#[derive(Clone, Copy, Debug, PartialEq, Eq, Structural)]
pub enum SettingChange {
    /// Not at all.
    Unchanged,
    /// Sessions are started or not.
    Mute(bool),
    /// The milliseconds between sessions.
    Interval(u64),
    /// The milliseconds between beacons.
    Beacon(i32),
    /// No more beacons: the node is to leave its network.
    BeaconOff,
    /// The number of frames in a session.
    Burst(i32),
    /// Not at all: a session cannot ask for so many frames.
    BurstRefused,
    /// The channel, and whether two are used at once.
    Channel(u8, bool),
    /// Not at all: the channel could not be set, for the reason with this code.
    ChannelRefused(i32),
}

/// How a command changes the settings of a node. For a change of channel it
/// counts what the radio answered.
pub open spec fn change_of(action: ConsoleAction, code: i32) -> SettingChange {
    match action {
        ConsoleAction::Mute(mute) => SettingChange::Mute(mute),
        ConsoleAction::Interval(ms) => SettingChange::Interval(ms),
        ConsoleAction::Beacon(ms) => if ms == 0 {
            SettingChange::BeaconOff
        } else if ms > 0 {
            SettingChange::Beacon(ms)
        } else {
            SettingChange::Beacon(200)
        },
        ConsoleAction::Burst(n) => if is_burst(n) {
            SettingChange::Burst(n)
        } else {
            SettingChange::BurstRefused
        },
        ConsoleAction::Channel(channel, ht40) => if !is_channel(channel) {
            SettingChange::ChannelRefused(ESP_ERR_INVALID_ARG)
        } else if code == 0 {
            SettingChange::Channel(channel, ht40)
        } else {
            SettingChange::ChannelRefused(code)
        },
        _ => SettingChange::Unchanged,
    }
}

/// Carries out what a command asks of the settings of a node, given the code that
/// the radio answered if it was asked to change the channel. Any other command
/// leaves the settings as they are.
pub fn apply_action(
    action: ConsoleAction,
    config: &mut Config,
    ftm: &mut FtmState,
    beacon: &mut BeaconState,
    wifi: &mut WifiState,
    code: i32,
) -> (r: SettingChange)
    ensures
        r == change_of(action, code),
        *final(config) == (match r {
            SettingChange::Interval(ms) => Config { contact_interval_ms: ms, ..*old(config) },
            _ => *old(config),
        }),
        *final(ftm) == (match r {
            SettingChange::Mute(mute) => FtmState { mute, ..*old(ftm) },
            SettingChange::Burst(n) => FtmState { num_burst: n, ..*old(ftm) },
            _ => *old(ftm),
        }),
        *final(beacon) == (match r {
            SettingChange::Beacon(ms) => BeaconState { should_beacon: true, beacon_rate_ms: ms },
            SettingChange::BeaconOff => BeaconState { should_beacon: false, beacon_rate_ms: 200 },
            _ => *old(beacon),
        }),
        *final(wifi) == (match r {
            SettingChange::Channel(channel, use_ht40) => WifiState { channel, use_ht40 },
            _ => *old(wifi),
        }),
        old(ftm).wf() ==> final(ftm).wf(),
        old(beacon).wf() ==> final(beacon).wf(),
        old(wifi).wf() ==> final(wifi).wf(),
{
    match action {
        ConsoleAction::Mute(mute) => {
            set_mute(ftm, mute);
            SettingChange::Mute(mute)
        },
        ConsoleAction::Interval(ms) => {
            config.contact_interval_ms = ms;
            SettingChange::Interval(ms)
        },
        ConsoleAction::Beacon(ms) => {
            if set_beacon(beacon, ms) {
                SettingChange::BeaconOff
            } else {
                SettingChange::Beacon(beacon.beacon_rate_ms)
            }
        },
        ConsoleAction::Burst(n) => {
            if set_burst(ftm, n) {
                SettingChange::Burst(n)
            } else {
                SettingChange::BurstRefused
            }
        },
        ConsoleAction::Channel(channel, ht40) => {
            match set_channel(wifi, channel, ht40, code) {
                Ok(()) => SettingChange::Channel(channel, ht40),
                Err(e) => SettingChange::ChannelRefused(e),
            }
        },
        _ => SettingChange::Unchanged,
    }
}

/// What is said of a command that is refused, line by line.
pub open spec fn refusal_text(f: Refusal) -> Seq<char> {
    match f {
        Refusal::IntervalZero => "Error: Interval must be greater than 0"@,
        Refusal::IntervalInvalid =>
            "Error: Invalid interval value. Usage: interval <milliseconds>"@,
        Refusal::PromiInvalid => "Error: Invalid interval value. Usage: promi (1|0)"@,
        Refusal::ChannelFormat =>
            "Error: Invalid format. Use: channel <ch>/<bw>\nExamples: channel 1/20, channel 6/40, channel 11/20"@,
        Refusal::ChannelUnused => "Error: Channel must be 1, 6, or 11"@,
        Refusal::BandwidthUnused => "Error: Bandwidth must be 20 or 40"@,
        Refusal::ChannelInvalid =>
            "Error: Invalid channel or bandwidth value\nUsage: channel <ch>/<bw>\nExamples: channel 1/20, channel 6/40"@,
    }
}

/// What is said of a command that is refused, line by line.
pub fn refusal_lines(f: Refusal) -> (r: &'static str)
    ensures
        r@ == refusal_text(f),
{
    match f {
        Refusal::IntervalZero => "Error: Interval must be greater than 0",
        Refusal::IntervalInvalid => "Error: Invalid interval value. Usage: interval <milliseconds>",
        Refusal::PromiInvalid => "Error: Invalid interval value. Usage: promi (1|0)",
        Refusal::ChannelFormat =>
            "Error: Invalid format. Use: channel <ch>/<bw>\nExamples: channel 1/20, channel 6/40, channel 11/20",
        Refusal::ChannelUnused => "Error: Channel must be 1, 6, or 11",
        Refusal::BandwidthUnused => "Error: Bandwidth must be 20 or 40",
        Refusal::ChannelInvalid =>
            "Error: Invalid channel or bandwidth value\nUsage: channel <ch>/<bw>\nExamples: channel 1/20, channel 6/40",
    }
}

/// The fields of the message that tells the host the address of a node.
pub open spec fn id_fields(mac: Seq<u8>) -> Seq<Seq<char>> {
    seq!["MAC"@, mac_text(mac)]
}

/// The message that tells the host the address of a node. It stands within a line
/// of the log.
pub fn id_message(mac: &[u8; 6]) -> (r: String)
    ensures
        r@ == seq!['\x02'] + joined(id_fields(mac@), '\x01') + seq!['\x03'],
{
    let mut out: String = String::new();
    out.append("\x02MAC\x01");
    push_mac(&mut out, mac);
    out.push('\x03');
    proof {
        reveal_strlit("\x02MAC\x01");
        reveal_strlit("MAC");
        let f = id_fields(mac@);
        assert(f.drop_last() =~= seq!["MAC"@]);
        assert(joined(f.drop_last(), '\x01') == "MAC"@);
        assert(joined(f, '\x01') == "MAC"@.push('\x01') + mac_text(mac@));
        assert(out@ =~= seq!['\x02'] + joined(f, '\x01') + seq!['\x03']);
    }
    out
}

/// No two commands have the same name.
proof fn lemma_names_differ()
    ensures
        "peers"@ != "help"@,
        "stats"@ != "help"@ && "stats"@ != "peers"@,
        "id"@ != "help"@ && "id"@ != "peers"@ && "id"@ != "stats"@,
        "mute"@ != "help"@ && "mute"@ != "peers"@ && "mute"@ != "stats"@ && "mute"@ != "id"@,
        "interval"@ != "help"@ && "interval"@ != "peers"@ && "interval"@ != "stats"@
            && "interval"@ != "id"@ && "interval"@ != "mute"@,
        "promi"@ != "help"@ && "promi"@ != "peers"@ && "promi"@ != "stats"@ && "promi"@ != "id"@
            && "promi"@ != "mute"@ && "promi"@ != "interval"@,
        "channel"@ != "help"@ && "channel"@ != "peers"@ && "channel"@ != "stats"@
            && "channel"@ != "id"@ && "channel"@ != "mute"@ && "channel"@ != "interval"@
            && "channel"@ != "promi"@,
        "beacon"@ != "help"@ && "beacon"@ != "peers"@ && "beacon"@ != "stats"@
            && "beacon"@ != "id"@ && "beacon"@ != "mute"@ && "beacon"@ != "interval"@
            && "beacon"@ != "promi"@ && "beacon"@ != "channel"@,
        "burst"@ != "help"@ && "burst"@ != "peers"@ && "burst"@ != "stats"@ && "burst"@ != "id"@
            && "burst"@ != "mute"@ && "burst"@ != "interval"@ && "burst"@ != "promi"@
            && "burst"@ != "channel"@ && "burst"@ != "beacon"@,
{
    reveal_strlit("help");
    reveal_strlit("peers");
    reveal_strlit("stats");
    reveal_strlit("id");
    reveal_strlit("mute");
    reveal_strlit("beacon");
    reveal_strlit("interval");
    reveal_strlit("promi");
    reveal_strlit("channel");
    reveal_strlit("burst");
    assert("help"@.len() == 4 && "mute"@.len() == 4 && "id"@.len() == 2 && "beacon"@.len() == 6);
    assert("interval"@.len() == 8 && "channel"@.len() == 7);
    assert("peers"@.len() == 5 && "stats"@.len() == 5 && "promi"@.len() == 5 && "burst"@.len()
        == 5);
    assert("help"@[0] == 'h' && "mute"@[0] == 'm');
    assert("peers"@[0] == 'p' && "peers"@[1] == 'e');
    assert("promi"@[0] == 'p' && "promi"@[1] == 'r');
    assert("stats"@[0] == 's' && "burst"@[0] == 'b');
}

/// What the names of the commands are for.
proof fn lemma_actions(args: Seq<char>)
    ensures
        action_of("help"@, args) == ConsoleAction::Help,
        action_of("peers"@, args) == ConsoleAction::Peers,
        action_of("stats"@, args) == ConsoleAction::Stats,
        action_of("id"@, args) == ConsoleAction::Id,
        args.len() > 0 ==> action_of("mute"@, args) == mute_action(encode_utf8(args)),
        args.len() > 0 ==> action_of("interval"@, args) == interval_action(encode_utf8(args)),
        args.len() > 0 ==> action_of("promi"@, args) == promi_action(encode_utf8(args)),
        args.len() > 0 ==> action_of("channel"@, args) == channel_action(encode_utf8(args)),
        args.len() > 0 ==> action_of("beacon"@, args) == beacon_action(encode_utf8(args)),
        args.len() > 0 ==> action_of("burst"@, args) == burst_action(encode_utf8(args)),
        args.len() == 0 ==> action_of("interval"@, args) == ConsoleAction::ShowInterval,
        args.len() == 0 ==> action_of("channel"@, args) == ConsoleAction::ShowChannel,
        args.len() == 0 ==> action_of("mute"@, args) == ConsoleAction::Ignore,
        args.len() == 0 ==> action_of("promi"@, args) == ConsoleAction::Ignore,
        args.len() == 0 ==> action_of("beacon"@, args) == ConsoleAction::Ignore,
        args.len() == 0 ==> action_of("burst"@, args) == ConsoleAction::Ignore,
{
    lemma_names_differ();
}

/// The commands that take a number do with it what they are for, whatever number it is:
/// an interval of so many milliseconds, but not of none; and sessions, or frames for
/// others, that are stopped or reported unless it is zero.
pub proof fn lemma_number_commands(n: u64)
    ensures
        action_of("interval"@, dec(n as nat)) == (if n == 0 {
            ConsoleAction::Refuse(Refusal::IntervalZero)
        } else {
            ConsoleAction::Interval(n)
        }),
        action_of("promi"@, dec(n as nat)) == ConsoleAction::Promi(n != 0),
        n <= u32::MAX ==> action_of("mute"@, dec(n as nat)) == ConsoleAction::Mute(n != 0),
{
    lemma_dec_field(n as nat);
    lemma_ascii_utf8(dec(n as nat));
    lemma_dec_round_trip(n as nat, u64::MAX as nat);
    if n <= u32::MAX {
        lemma_dec_round_trip(n as nat, u32::MAX as nat);
    }
    lemma_actions(dec(n as nat));
}

/// Beacons are asked for so many milliseconds apart, and sessions of so many frames, as the
/// number says that is written, which may be negative.
pub proof fn lemma_signed_commands(n: i32)
    ensures
        action_of("beacon"@, signed_dec(n as int)) == ConsoleAction::Beacon(n),
        action_of("burst"@, signed_dec(n as int)) == ConsoleAction::Burst(n),
{
    lemma_signed_field(n as int);
    lemma_ascii_utf8(signed_dec(n as int));
    lemma_signed_round_trip(n as int);
    lemma_actions(signed_dec(n as int));
}

/// A channel is asked for by its number and the bandwidth, with a slash between them: the
/// first, sixth and eleventh are taken, with 20 MHz or, on two channels at once, 40.
pub proof fn lemma_channel_command(channel: u8, bandwidth: u8)
    ensures
        action_of("channel"@, dec(channel as nat) + seq!['/'] + dec(bandwidth as nat)) == (
        if bandwidth != 20 && bandwidth != 40 {
            ConsoleAction::Refuse(Refusal::BandwidthUnused)
        } else if channel != 1 && channel != 6 && channel != 11 {
            ConsoleAction::Refuse(Refusal::ChannelUnused)
        } else {
            ConsoleAction::Channel(channel, bandwidth == 40)
        }),
{
    let c = dec(channel as nat);
    let b = dec(bandwidth as nat);
    let args = c + seq!['/'] + b;
    lemma_dec_field(channel as nat);
    lemma_dec_field(bandwidth as nat);
    lemma_dec_round_trip(channel as nat, 255);
    lemma_dec_round_trip(bandwidth as nat, 255);
    lemma_dec_digits(channel as nat);
    lemma_dec_digits(bandwidth as nat);
    assert(is_field_text(args)) by {
        assert forall|i: int| 0 <= i < args.len() implies is_field_char(
            #[trigger] args[i],
        ) by {
            if i < c.len() {
                assert(args[i] == c[i]);
            } else if i > c.len() {
                assert(args[i] == b[i - c.len() - 1]);
            }
        }
    }
    lemma_ascii_utf8(args);
    let bytes = ascii_bytes(args);
    let k = c.len() as int;
    lemma_first_at_bounds(bytes, 47, 0);
    assert(bytes[k] == 47);
    assert forall|i: int| 0 <= i < bytes.len() && i != k implies bytes[i] != 47 by {
        if i < k {
            assert(args[i] == c[i]);
        } else {
            assert(args[i] == b[i - k - 1]);
        }
    }
    assert(first_at(bytes, 47, 0) == k);
    lemma_first_at_bounds(bytes, 47, k + 1);
    assert(first_at(bytes, 47, k + 1) == bytes.len());
    assert(bytes.subrange(0, k) =~= ascii_bytes(c));
    assert(bytes.subrange(k + 1, bytes.len() as int) =~= ascii_bytes(b));
    lemma_actions(args);
}

/// What `first_space` finds.
proof fn lemma_first_space(s: Seq<char>, i: int, k: int)
    requires
        0 <= i <= k <= s.len(),
        k < s.len() ==> is_white_space(s[k]),
        forall|j: int| i <= j < k ==> !is_white_space(#[trigger] s[j]),
    ensures
        first_space(s, i) == k,
    decreases k - i,
{
    if i < k {
        lemma_first_space(s, i + 1, k);
    }
}

/// A line is read as its first word and what follows it, without the white space round
/// either, whatever white space that is.
pub proof fn lemma_command_split(cmd: Seq<char>, space: char, args: Seq<char>)
    requires
        cmd.len() > 0,
        forall|i: int| 0 <= i < cmd.len() ==> !is_white_space(#[trigger] cmd[i]),
        is_white_space(space),
        args.len() > 0,
        !is_white_space(args[0]),
        !is_white_space(args.last()),
    ensures
        command_of(cmd) == cmd,
        arguments_of(cmd).len() == 0,
        command_of(cmd.push(space) + args) == cmd,
        arguments_of(cmd.push(space) + args) == args,
{
    let line = cmd.push(space) + args;
    let k = cmd.len() as int;
    lemma_trimmed_same(cmd);
    lemma_first_space(cmd, 0, k);
    assert(cmd.take(k) =~= cmd);
    assert(cmd.skip(k).len() == 0);
    assert(line[0] == cmd[0]);
    assert(line.last() == args.last());
    lemma_trimmed_same(line);
    assert forall|j: int| 0 <= j < k implies !is_white_space(#[trigger] line[j]) by {
        assert(line[j] == cmd[j]);
    }
    lemma_first_space(line, 0, k);
    assert(line.take(k) =~= cmd);
    let rest = line.skip(k);
    assert(rest =~= seq![space] + args);
    let (a, b) = lemma_trimmed_parts(rest);
    assert(rest[0] == space);
    assert(rest[1] == args[0]);
    assert(rest[rest.len() - 1] == args.last());
    assert(a == 1);
    assert(b == rest.len());
    assert(rest.subrange(a, b) =~= args);
}

/// What a command does to the settings: it sets what it names to what it says, and any
/// other leaves them alone. Beacons go out as often as was asked, but with 200 ms between
/// them where the number is negative, and no more where it is zero; and of the numbers of
/// frames 16, 24, 25, 32 and 64 are taken.
pub proof fn lemma_changes(action: ConsoleAction, code: i32)
    ensures
        match action {
            ConsoleAction::Mute(mute) => change_of(action, code) == SettingChange::Mute(mute),
            ConsoleAction::Interval(ms) => change_of(action, code) == SettingChange::Interval(ms),
            ConsoleAction::Beacon(ms) => {
                &&& ms > 0 ==> change_of(action, code) == SettingChange::Beacon(ms)
                &&& ms == 0 ==> change_of(action, code) == SettingChange::BeaconOff
                &&& ms < 0 ==> change_of(action, code) == SettingChange::Beacon(200)
            },
            ConsoleAction::Burst(n) => {
                &&& seq![16i32, 24, 25, 32, 64].contains(n) ==> change_of(action, code)
                    == SettingChange::Burst(n)
                &&& !seq![16i32, 24, 25, 32, 64].contains(n) ==> change_of(action, code)
                    == SettingChange::BurstRefused
            },
            ConsoleAction::Channel(channel, ht40) => {
                &&& code == 0 && (channel == 1 || channel == 6 || channel == 11) ==> change_of(
                    action,
                    code,
                ) == SettingChange::Channel(channel, ht40)
                &&& code != 0 && (channel == 1 || channel == 6 || channel == 11) ==> change_of(
                    action,
                    code,
                ) == SettingChange::ChannelRefused(code)
                &&& channel != 1 && channel != 6 && channel != 11 ==> change_of(action, code)
                    == SettingChange::ChannelRefused(0x102)
            },
            _ => change_of(action, code) == SettingChange::Unchanged,
        },
{
    let sizes = seq![16i32, 24, 25, 32, 64];
    assert(sizes[0] == 16 && sizes[1] == 24 && sizes[2] == 25 && sizes[3] == 32 && sizes[4] == 64);
}

/// What is said of a refused command starts with a word for it, and differs for different
/// reasons.
pub proof fn lemma_refusals(a: Refusal, b: Refusal)
    ensures
        "Error: "@.is_prefix_of(refusal_text(a)),
        refusal_text(a) == refusal_text(b) ==> a == b,
{
    reveal_strlit("Error: ");
    reveal_strlit("Error: Interval must be greater than 0");
    reveal_strlit("Error: Invalid interval value. Usage: interval <milliseconds>");
    reveal_strlit("Error: Invalid interval value. Usage: promi (1|0)");
    reveal_strlit(
        "Error: Invalid format. Use: channel <ch>/<bw>\nExamples: channel 1/20, channel 6/40, channel 11/20",
    );
    reveal_strlit("Error: Channel must be 1, 6, or 11");
    reveal_strlit("Error: Bandwidth must be 20 or 40");
    reveal_strlit(
        "Error: Invalid channel or bandwidth value\nUsage: channel <ch>/<bw>\nExamples: channel 1/20, channel 6/40",
    );
    assert("Error: "@ =~= refusal_text(a).subrange(0, 7));
    assert(refusal_text(Refusal::IntervalZero).len() == 38);
    assert(refusal_text(Refusal::IntervalInvalid).len() == 61);
    assert(refusal_text(Refusal::PromiInvalid).len() == 49);
    assert(refusal_text(Refusal::ChannelFormat).len() == 97);
    assert(refusal_text(Refusal::ChannelUnused).len() == 34);
    assert(refusal_text(Refusal::BandwidthUnused).len() == 33);
    assert(refusal_text(Refusal::ChannelInvalid).len() == 103);
}

} // verus!
