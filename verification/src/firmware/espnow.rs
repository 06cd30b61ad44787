//! Packets between nodes, and the beacons that a node sends.
use vstd::prelude::*;
use crate::bytes::{
    le_bytes, le_value, lemma_as_signed, lemma_le_bytes_len, lemma_le_round_trip,
    lemma_le_value_bound, lemma_le_value_places, lemma_pow256, push_le, read_le,
};
use crate::firmware::ftm::FtmNotification;
use crate::firmware::timectl::get_mac_ff_time;

verus! {

/// The most bytes that one packet can carry.
pub const MAX_ESPNOW_DATA_LEN: usize = 250;

/// The bytes of a packet that announces a ranging session.
pub const SYNC_PACKET_LEN: usize = 13;

/// The announcement of a ranging session.
#[derive(Clone, Copy, Debug, PartialEq, Eq, Structural)]
pub struct FtmSyncPacket {
    pub sequence: u32,
    pub is_initiator: u8,
    pub mac_time: i64,
}

/// The bytes of an announcement: its fields one after the other, each in
/// little-endian order.
pub open spec fn sync_bytes(p: FtmSyncPacket) -> Seq<u8> {
    le_bytes(p.sequence as nat, 4) + seq![p.is_initiator] + le_bytes(p.mac_time as u64 as nat, 8)
}

/// The announcement that the first bytes of a packet hold.
pub open spec fn sync_of(data: Seq<u8>) -> Option<FtmSyncPacket> {
    if data.len() < 13 {
        None
    } else {
        Some(
            FtmSyncPacket {
                sequence: le_value(data.subrange(0, 4)) as u32,
                is_initiator: data[4],
                mac_time: (le_value(data.subrange(5, 13)) as u64) as i64,
            },
        )
    }
}

/// Reading the bytes of an announcement gives it back, whatever follows them.
pub proof fn lemma_sync_round_trip(p: FtmSyncPacket, rest: Seq<u8>)
    ensures
        sync_bytes(p).len() == 13,
        sync_of(sync_bytes(p) + rest) == Some(p),
{
    let seq = p.sequence as nat;
    let time = p.mac_time as u64;
    lemma_le_bytes_len(seq, 4);
    lemma_le_bytes_len(time as nat, 8);
    lemma_pow256();
    lemma_le_round_trip(seq, 4);
    lemma_le_round_trip(time as nat, 8);
    let data = sync_bytes(p) + rest;
    assert(data.subrange(0, 4) =~= le_bytes(seq, 4));
    assert(data.subrange(5, 13) =~= le_bytes(time as nat, 8));
    let t = p.mac_time;
    assert(t as u64 as i64 == t) by (bit_vector);
}

/// Where the fields of an announcement stand in a packet: the number in the first four
/// bytes, then whether the sender starts sessions, and then the time in eight.
#[verifier::rlimit(50)]
pub proof fn lemma_sync_places(data: Seq<u8>)
    ensures
        match sync_of(data) {
            Some(p) => {
                &&& data.len() >= 13
                &&& p.sequence == data[0] + 0x100 * data[1] + 0x1_0000 * data[2] + 0x100_0000
                    * data[3]
                &&& p.is_initiator == data[4]
                &&& (p.mac_time - (data[5] + 0x100 * data[6] + 0x1_0000 * data[7] + 0x100_0000
                    * data[8] + 0x1_0000_0000 * data[9] + 0x100_0000_0000 * data[10]
                    + 0x1_0000_0000_0000 * data[11] + 0x100_0000_0000_0000 * data[12]))
                    % 0x1_0000_0000_0000_0000 == 0
            },
            None => data.len() < 13,
        },
{
    if data.len() >= 13 {
        lemma_le_value_places(data.subrange(0, 4));
        lemma_le_value_places(data.subrange(5, 13));
        lemma_as_signed(le_value(data.subrange(5, 13)) as u64);
    }
}

impl FtmSyncPacket {
    /// An announcement.
    pub fn new(sequence: u32, is_initiator: bool, mac_time: i64) -> (r: Self)
        ensures
            r.sequence == sequence,
            r.is_initiator == (if is_initiator {
                1u8
            } else {
                0u8
            }),
            r.mac_time == mac_time,
    {
        FtmSyncPacket {
            sequence,
            is_initiator: if is_initiator {
                1
            } else {
                0
            },
            mac_time,
        }
    }

    /// The bytes of the announcement.
    pub fn as_bytes(&self) -> (r: Vec<u8>)
        ensures
            r@ == sync_bytes(*self),
            r@.len() == SYNC_PACKET_LEN,
    {
        let mut out: Vec<u8> = Vec::new();
        push_le(&mut out, self.sequence as u64, 4);
        out.push(self.is_initiator);
        push_le(&mut out, self.mac_time as u64, 8);
        proof {
            lemma_sync_round_trip(*self, Seq::empty());
            assert(out@ =~= sync_bytes(*self));
        }
        out
    }

    /// Reads an announcement; what follows its bytes does not matter.
    pub fn from_bytes(data: &[u8]) -> (r: Option<Self>)
        ensures
            r == sync_of(data@),
    {
        if data.len() < SYNC_PACKET_LEN {
            return None;
        }
        let sequence: u64 = read_le(data, 0, 4);
        let mac_time: u64 = read_le(data, 5, 13);
        proof {
            lemma_le_value_bound(data@.subrange(0, 4));
            lemma_pow256();
        }
        Some(
            FtmSyncPacket {
                sequence: sequence as u32,
                is_initiator: data[4],
                mac_time: mac_time as i64,
            },
        )
    }
}

/// A packet that is to go out to a peer.
pub struct Transmission {
    pub peer: [u8; 6],
    pub data: Vec<u8>,
}

/// Prepares a packet for a peer; one that is too long is refused with -1.
pub fn send_to_peer(peer_mac: &[u8; 6], data: &[u8]) -> (r: Result<Transmission, i32>)
    ensures
        match r {
            Ok(t) => data@.len() <= MAX_ESPNOW_DATA_LEN && t.peer == *peer_mac && t.data@ == data@,
            Err(code) => data@.len() > MAX_ESPNOW_DATA_LEN && code == -1,
        },
{
    if data.len() > MAX_ESPNOW_DATA_LEN {
        return Err(-1);
    }
    let mut copy: Vec<u8> = Vec::new();
    copy.extend_from_slice(data);
    assert(copy@ =~= data@);
    Ok(Transmission { peer: *peer_mac, data: copy })
}

/// What is made of the result code of the radio: zero is success.
pub fn radio_result(code: i32) -> (r: Result<(), i32>)
    ensures
        r == (if code == 0 {
            Ok::<(), i32>(())
        } else {
            Err::<(), i32>(code)
        }),
{
    if code == 0 {
        Ok(())
    } else {
        Err(code)
    }
}

/// Prepares the announcement of a ranging session for a peer, with the time of
/// the shared clock.
pub fn send_ftm_notification(
    peer_mac: &[u8; 6],
    sequence: u32,
    is_initiator: bool,
    mac_raw: i64,
    offset: i64,
) -> (r: Result<Transmission, i32>)
    ensures
        r matches Ok(t) && t.peer == *peer_mac && sync_of(t.data@) == Some(
            FtmSyncPacket {
                sequence,
                is_initiator: if is_initiator {
                    1
                } else {
                    0
                },
                mac_time: mac_raw.wrapping_add(offset),
            },
        ) && t.data@.len() == SYNC_PACKET_LEN,
{
    let packet = FtmSyncPacket::new(sequence, is_initiator, get_mac_ff_time(mac_raw, offset));
    let data: Vec<u8> = packet.as_bytes();
    proof {
        lemma_sync_round_trip(packet, Seq::empty());
        assert(data@ + Seq::<u8>::empty() =~= data@);
    }
    send_to_peer(peer_mac, data.as_slice())
}

/// How many packets went out and came in, counted modulo 2^32.
#[derive(Clone, Copy, Debug)]
pub struct PacketStats {
    pub sent: u32,
    pub received: u32,
}

impl PacketStats {
    /// Nothing sent, nothing received.
    pub fn new() -> (r: Self)
        ensures
            r.sent == 0,
            r.received == 0,
    {
        PacketStats { sent: 0, received: 0 }
    }

    /// Counts a packet that was sent, if that was a success.
    pub fn on_sent(&mut self, success: bool)
        ensures
            final(self).sent == (if success {
                old(self).sent.wrapping_add(1)
            } else {
                old(self).sent
            }),
            final(self).received == old(self).received,
    {
        if success {
            self.sent = self.sent.wrapping_add(1);
        }
    }

    /// Counts a packet that came in, and reads it as an announcement if it is
    /// long enough.
    pub fn on_received(&mut self, src_mac: &[u8; 6], payload: &[u8], rx_mac_time: i64) -> (r:
        Option<FtmNotification>)
        ensures
            final(self).sent == old(self).sent,
            final(self).received == old(self).received.wrapping_add(1),
            match r {
                Some(n) => n.peer_mac == *src_mac && sync_of(payload@) == Some(n.sync_info)
                    && n._rx_mac_time == rx_mac_time,
                None => sync_of(payload@) is None,
            },
    {
        self.received = self.received.wrapping_add(1);
        match FtmSyncPacket::from_bytes(payload) {
            Some(packet) => Some(
                FtmNotification {
                    peer_mac: *src_mac,
                    sync_info: packet,
                    _rx_mac_time: rx_mac_time,
                },
            ),
            None => None,
        }
    }
}

/// The counts of packets sent and received.
pub fn get_stats(stats: &PacketStats) -> (r: (u32, u32))
    ensures
        r == (stats.sent, stats.received),
{
    (stats.sent, stats.received)
}

/// Whether beacons go out, and how many milliseconds apart.
pub struct BeaconState {
    pub should_beacon: bool,
    pub beacon_rate_ms: i32,
}

impl BeaconState {
    /// Beacons never go out without a pause.
    pub open spec fn wf(&self) -> bool {
        self.beacon_rate_ms > 0
    }

    /// No beacons at first.
    pub fn new() -> (r: Self)
        ensures
            r.wf(),
            !r.should_beacon,
            r.beacon_rate_ms == 200,
    {
        BeaconState { should_beacon: false, beacon_rate_ms: 200 }
    }
}

/// Sets the milliseconds between beacons. Zero stops them: then the node is to
/// leave its network, which the result says. A negative number stands for 200.
pub fn set_beacon(state: &mut BeaconState, beacon_rate: i32) -> (disconnect: bool)
    ensures
        final(state).wf(),
        disconnect == (beacon_rate == 0),
        final(state).should_beacon == (beacon_rate != 0),
        final(state).beacon_rate_ms == (if beacon_rate > 0 {
            beacon_rate
        } else {
            200
        }),
{
    if beacon_rate == 0 {
        state.should_beacon = false;
        state.beacon_rate_ms = 200;
        true
    } else {
        state.should_beacon = true;
        if beacon_rate > 0 {
            state.beacon_rate_ms = beacon_rate;
        } else {
            state.beacon_rate_ms = 200;
        }
        false
    }
}

/// How far a round of beaconing has come.
#[derive(Clone, Copy, Debug, PartialEq, Eq, Structural)]
pub enum BeaconPhase {
    /// Between two rounds.
    Resting,
    /// Is the node in a network?
    Joining,
    /// Is there a socket?
    Opening,
    /// Has the beacon gone out?
    Sending,
}

/// A round of beaconing: how far it has come, whether there is a socket, and how
/// long the pause after it is.
#[derive(Clone, Copy, Debug, PartialEq, Eq, Structural)]
pub struct BeaconRun {
    pub phase: BeaconPhase,
    pub has_socket: bool,
    pub rate_ms: u64,
}

/// What is to be done next for a beacon.
#[derive(Clone, Copy, Debug, PartialEq, Eq, Structural)]
pub enum BeaconAction {
    /// Look whether the node is in a network.
    CheckNetwork,
    /// Open a socket.
    Open,
    /// Send a beacon.
    Send,
    /// Close the socket, if there is one, and rest for 4000 ms.
    Stop,
    /// Try to join the network, and rest for 3000 ms.
    Join,
    /// Rest for 1000 ms: no socket could be had.
    Retry,
    /// Rest for so many milliseconds: the beacon is out.
    Rest(u64),
    /// Close the socket, which failed, and rest for so many milliseconds.
    CloseAndRest(u64),
}

/// For how many milliseconds after the start of the round an action rests, if it
/// ends the round.
pub open spec fn rest_of(a: BeaconAction) -> Option<u64> {
    match a {
        BeaconAction::CheckNetwork => None,
        BeaconAction::Open => None,
        BeaconAction::Send => None,
        BeaconAction::Stop => Some(4000),
        BeaconAction::Join => Some(3000),
        BeaconAction::Retry => Some(1000),
        BeaconAction::Rest(ms) => Some(ms),
        BeaconAction::CloseAndRest(ms) => Some(ms),
    }
}

/// For how many milliseconds after the start of the round an action rests, if it
/// ends the round.
pub fn beacon_rest_ms(a: BeaconAction) -> (r: Option<u64>)
    ensures
        r == rest_of(a),
{
    match a {
        BeaconAction::CheckNetwork => None,
        BeaconAction::Open => None,
        BeaconAction::Send => None,
        BeaconAction::Stop => Some(4000),
        BeaconAction::Join => Some(3000),
        BeaconAction::Retry => Some(1000),
        BeaconAction::Rest(ms) => Some(ms),
        BeaconAction::CloseAndRest(ms) => Some(ms),
    }
}

/// What a round starts with.
pub open spec fn first_action(state: BeaconState) -> BeaconAction {
    if state.should_beacon {
        BeaconAction::CheckNetwork
    } else {
        BeaconAction::Stop
    }
}

/// How far a round has come when it has been started.
pub open spec fn started(run: BeaconRun, state: BeaconState) -> BeaconRun {
    if state.should_beacon {
        BeaconRun {
            phase: BeaconPhase::Joining,
            has_socket: run.has_socket,
            rate_ms: state.beacon_rate_ms as u64,
        }
    } else {
        BeaconRun { phase: BeaconPhase::Resting, has_socket: false, rate_ms: run.rate_ms }
    }
}

/// What follows on an action that succeeded or not.
pub open spec fn next_action(run: BeaconRun, ok: bool) -> BeaconAction {
    match run.phase {
        BeaconPhase::Joining => if !ok {
            BeaconAction::Join
        } else if run.has_socket {
            BeaconAction::Send
        } else {
            BeaconAction::Open
        },
        BeaconPhase::Opening => if ok {
            BeaconAction::Send
        } else {
            BeaconAction::Retry
        },
        _ => if ok {
            BeaconAction::Rest(run.rate_ms)
        } else {
            BeaconAction::CloseAndRest(run.rate_ms)
        },
    }
}

/// How far a round has come after an action that succeeded or not.
pub open spec fn continued(run: BeaconRun, ok: bool) -> BeaconRun {
    BeaconRun {
        phase: match next_action(run, ok) {
            BeaconAction::Send => BeaconPhase::Sending,
            BeaconAction::Open => BeaconPhase::Opening,
            _ => BeaconPhase::Resting,
        },
        has_socket: match run.phase {
            BeaconPhase::Joining => run.has_socket,
            BeaconPhase::Opening => ok || run.has_socket,
            _ => ok && run.has_socket,
        },
        rate_ms: run.rate_ms,
    }
}

/// How many actions a round still takes at most.
pub open spec fn actions_left(run: BeaconRun) -> nat {
    match run.phase {
        BeaconPhase::Resting => 0,
        BeaconPhase::Sending => 1,
        BeaconPhase::Opening => 2,
        BeaconPhase::Joining => 3,
    }
}

/// What is still done in a round in which all succeeds.
pub open spec fn actions_after(run: BeaconRun) -> Seq<BeaconAction>
    decreases actions_left(run),
{
    if run.phase == BeaconPhase::Resting {
        Seq::empty()
    } else {
        seq![next_action(run, true)] + actions_after(continued(run, true))
    }
}

/// All that is done in a round in which all succeeds.
pub open spec fn round_actions(run: BeaconRun, state: BeaconState) -> Seq<BeaconAction> {
    seq![first_action(state)] + actions_after(started(run, state))
}

/// As long as beacons are wanted and all succeeds, each round sends one beacon and
/// lasts as many milliseconds as beacons are to be apart. While they are not
/// wanted, none is sent.
pub proof fn lemma_beacon_round(run: BeaconRun, state: BeaconState)
    requires
        state.wf(),
    ensures
        round_actions(run, state) == (if !state.should_beacon {
            seq![BeaconAction::Stop]
        } else if run.has_socket {
            seq![
                BeaconAction::CheckNetwork,
                BeaconAction::Send,
                BeaconAction::Rest(state.beacon_rate_ms as u64),
            ]
        } else {
            seq![
                BeaconAction::CheckNetwork,
                BeaconAction::Open,
                BeaconAction::Send,
                BeaconAction::Rest(state.beacon_rate_ms as u64),
            ]
        }),
{
    reveal_with_fuel(actions_after, 4);
    assert(round_actions(run, state) =~= (if !state.should_beacon {
        seq![BeaconAction::Stop]
    } else if run.has_socket {
        seq![
            BeaconAction::CheckNetwork,
            BeaconAction::Send,
            BeaconAction::Rest(state.beacon_rate_ms as u64),
        ]
    } else {
        seq![
            BeaconAction::CheckNetwork,
            BeaconAction::Open,
            BeaconAction::Send,
            BeaconAction::Rest(state.beacon_rate_ms as u64),
        ]
    }));
}

/// Where something fails in a round that beacons are wanted in, no beacon is taken for
/// sent, and the round ends: after 3000 ms where the node is in no network, after 1000 ms
/// where no socket can be had, and after the time between beacons where sending fails,
/// which also costs the socket. A round without beacons takes 4000 ms.
pub proof fn lemma_beacon_failures(run: BeaconRun, state: BeaconState)
    requires
        state.wf(),
        state.should_beacon,
    ensures
        ({
            let start = started(run, state);
            let open = continued(BeaconRun { has_socket: false, ..start }, true);
            let send = continued(BeaconRun { has_socket: true, ..start }, true);
            &&& rest_of(next_action(start, false)) == Some(3000u64)
            &&& next_action(start, false) == BeaconAction::Join
            &&& next_action(BeaconRun { has_socket: false, ..start }, true) == BeaconAction::Open
            &&& rest_of(next_action(open, false)) == Some(1000u64)
            &&& !continued(open, false).has_socket
            &&& continued(open, true).has_socket
            &&& next_action(send, false) == BeaconAction::CloseAndRest(state.beacon_rate_ms as u64)
            &&& !continued(send, false).has_socket
            &&& continued(send, true).has_socket
            &&& rest_of(next_action(send, false)) == Some(state.beacon_rate_ms as u64)
            &&& rest_of(next_action(send, true)) == Some(state.beacon_rate_ms as u64)
        }),
        rest_of(BeaconAction::Stop) == Some(4000u64),
        rest_of(BeaconAction::Send) is None,
        rest_of(BeaconAction::Open) is None,
        rest_of(BeaconAction::CheckNetwork) is None,
        !started(run, BeaconState { should_beacon: false, ..state }).has_socket,
{
}

/// A datagram, and the address and port that it goes to.
pub struct Datagram {
    pub address: [u8; 4],
    pub port: u16,
    pub payload: Vec<u8>,
}

/// A beacon: it carries nothing, and goes to all in the network.
pub fn beacon_datagram() -> (r: Datagram)
    ensures
        r.payload@.len() == 0,
        r.address@ == seq![255u8, 255u8, 255u8, 255u8],
        r.port == 5000,
{
    let address: [u8; 4] = [255, 255, 255, 255];
    assert(address@ =~= seq![255u8, 255u8, 255u8, 255u8]);
    Datagram { address, port: 5000, payload: Vec::new() }
}

impl BeaconRun {
    /// Before the first round.
    pub fn new() -> (r: Self)
        ensures
            r == (BeaconRun { phase: BeaconPhase::Resting, has_socket: false, rate_ms: 0 }),
    {
        BeaconRun { phase: BeaconPhase::Resting, has_socket: false, rate_ms: 0 }
    }

    /// Starts a round.
    pub fn start(&mut self, state: &BeaconState) -> (r: BeaconAction)
        requires
            state.wf(),
        ensures
            r == first_action(*state),
            *final(self) == started(*old(self), *state),
    {
        if state.should_beacon {
            self.phase = BeaconPhase::Joining;
            self.rate_ms = state.beacon_rate_ms as u64;
            BeaconAction::CheckNetwork
        } else {
            self.phase = BeaconPhase::Resting;
            self.has_socket = false;
            BeaconAction::Stop
        }
    }

    /// Goes on after an action that did not end the round, which succeeded or
    /// not.
    pub fn next(&mut self, ok: bool) -> (r: BeaconAction)
        requires
            old(self).phase != BeaconPhase::Resting,
        ensures
            r == next_action(*old(self), ok),
            *final(self) == continued(*old(self), ok),
    {
        match self.phase {
            BeaconPhase::Joining => {
                if !ok {
                    self.phase = BeaconPhase::Resting;
                    BeaconAction::Join
                } else if self.has_socket {
                    self.phase = BeaconPhase::Sending;
                    BeaconAction::Send
                } else {
                    self.phase = BeaconPhase::Opening;
                    BeaconAction::Open
                }
            },
            BeaconPhase::Opening => {
                if ok {
                    self.has_socket = true;
                    self.phase = BeaconPhase::Sending;
                    BeaconAction::Send
                } else {
                    self.phase = BeaconPhase::Resting;
                    BeaconAction::Retry
                }
            },
            _ => {
                self.phase = BeaconPhase::Resting;
                if ok {
                    BeaconAction::Rest(self.rate_ms)
                } else {
                    self.has_socket = false;
                    BeaconAction::CloseAndRest(self.rate_ms)
                }
            },
        }
    }
}

} // verus!
