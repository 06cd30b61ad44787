//! The radio of a node: its channel, its counter and its settings.
use vstd::prelude::*;
use vstd::utf8::*;
use crate::bytes::zero_padded;

verus! {

/// The channel of a node, and whether it uses two channels at once.
pub struct WifiState {
    pub channel: u8,
    pub use_ht40: bool,
}

/// Where the second channel lies.
#[derive(Clone, Copy, Debug, PartialEq, Eq, Structural)]
pub enum SecondChannel {
    Unused,
    Above,
    Below,
}

/// The channels that nodes use.
pub open spec fn is_channel(channel: u8) -> bool {
    channel == 1 || channel == 6 || channel == 11
}

/// The second channel lies above a low channel and below a high one.
pub open spec fn second_channel(channel: u8, use_ht40: bool) -> SecondChannel {
    if !use_ht40 {
        SecondChannel::Unused
    } else if channel <= 7 {
        SecondChannel::Above
    } else {
        SecondChannel::Below
    }
}

/// Nodes use three channels, five apart, and the second channel, four away from the first,
/// stays among the thirteen that there are.
pub proof fn lemma_channels(channel: u8, use_ht40: bool)
    ensures
        is_channel(channel) <==> channel <= 11 && channel % 5 == 1,
        second_channel(channel, use_ht40) == SecondChannel::Unused <==> !use_ht40,
        is_channel(channel) && second_channel(channel, use_ht40) == SecondChannel::Above ==> channel
            + 4 <= 13,
        is_channel(channel) && second_channel(channel, use_ht40) == SecondChannel::Below ==> channel
            - 4 >= 1,
        channel <= 7 && use_ht40 ==> second_channel(channel, use_ht40) == SecondChannel::Above,
        channel > 7 && use_ht40 ==> second_channel(channel, use_ht40) == SecondChannel::Below,
{
}

impl WifiState {
    /// The channel of a node lies among those that nodes use.
    pub open spec fn wf(&self) -> bool {
        is_channel(self.channel)
    }

    /// The channel that a node starts with.
    pub fn new() -> (r: Self)
        ensures
            r.wf(),
            r.channel == 6,
            r.use_ht40,
    {
        WifiState { channel: 6, use_ht40: true }
    }
}

/// Where the radio is to put the second channel; nothing for a channel that
/// nodes do not use.
pub fn plan_channel(channel: u8, use_ht40: bool) -> (r: Option<SecondChannel>)
    ensures
        r == (if is_channel(channel) {
            Some(second_channel(channel, use_ht40))
        } else {
            None
        }),
{
    if channel != 1 && channel != 6 && channel != 11 {
        return None;
    }
    Some(
        if use_ht40 {
            if channel <= 7 {
                SecondChannel::Above
            } else {
                SecondChannel::Below
            }
        } else {
            SecondChannel::Unused
        },
    )
}

/// The code for a channel that nodes do not use.
pub const ESP_ERR_INVALID_ARG: i32 = 0x102;

/// What comes of a change of channel, given the code that the radio answered:
/// the node is on the new channel only where nodes use it and the code is zero.
pub fn set_channel(state: &mut WifiState, channel: u8, use_ht40: bool, code: i32) -> (r: Result<
    (),
    i32,
>)
    ensures
        r == (if !is_channel(channel) {
            Err::<(), i32>(ESP_ERR_INVALID_ARG)
        } else if code == 0 {
            Ok::<(), i32>(())
        } else {
            Err::<(), i32>(code)
        }),
        *final(state) == (if r is Ok {
            WifiState { channel, use_ht40 }
        } else {
            *old(state)
        }),
        old(state).wf() ==> final(state).wf(),
{
    if channel != 1 && channel != 6 && channel != 11 {
        return Err(ESP_ERR_INVALID_ARG);
    }
    if code == 0 {
        state.channel = channel;
        state.use_ht40 = use_ht40;
        Ok(())
    } else {
        Err(code)
    }
}

/// The channel of a node.
pub fn get_channel(state: &WifiState) -> (r: u8)
    ensures
        r == state.channel,
{
    state.channel
}

/// Whether a node uses two channels at once.
pub fn get_ht40(state: &WifiState) -> (r: bool)
    ensures
        r == state.use_ht40,
{
    state.use_ht40
}

/// The counter of the radio has 32 bits; how often it went round is counted
/// here.
#[derive(Clone, Copy, Debug)]
pub struct MacCounter {
    pub upper: u32,
    pub last_lower: u32,
}

impl MacCounter {
    /// The counter stood at `t` when it was read last.
    pub open spec fn stood_at(&self, t: nat) -> bool {
        &&& self.upper == (t / 0x1_0000_0000) % 0x1_0000_0000
        &&& self.last_lower == t % 0x1_0000_0000
    }

    /// A counter that has not been read yet.
    pub fn new() -> (r: Self)
        ensures
            r.upper == 0,
            r.last_lower == 0,
            r.stood_at(0),
    {
        MacCounter { upper: 0, last_lower: 0 }
    }

    /// Takes in a reading of the radio's counter, of which the low 32 bits count,
    /// and gives the whole time. A reading below the last one means that the
    /// counter went round.
    pub fn get_mac_counter(&mut self, raw: i64) -> (r: i64)
        ensures
            final(self).last_lower == raw as u32,
            final(self).upper == (if (raw as u32) < old(self).last_lower {
                old(self).upper.wrapping_add(1)
            } else {
                old(self).upper
            }),
            r == ((final(self).upper * 0x1_0000_0000 + final(self).last_lower) as u64) as i64,
    {
        let lower: u32 = raw as u32;
        if lower < self.last_lower {
            self.upper = self.upper.wrapping_add(1);
        }
        self.last_lower = lower;
        let upper: u32 = self.upper;
        let time: u64 = (upper as u64) << 32 | lower as u64;
        assert(time == upper * 0x1_0000_0000 + lower) by (bit_vector)
            requires
                time == (upper as u64) << 32 | lower as u64,
        ;
        time as i64
    }
}

/// A counter that is read at least once in 2^32 ticks shows the true time: from
/// a reading at `t`, a reading at `now` gives `now` in 64 bits.
#[verifier::rlimit(50)]
pub proof fn lemma_mac_counter(before: MacCounter, t: nat, now: nat, after: MacCounter)
    requires
        before.stood_at(t),
        t <= now < t + 0x1_0000_0000,
        after.last_lower == now % 0x1_0000_0000,
        after.upper == (if after.last_lower < before.last_lower {
            before.upper.wrapping_add(1)
        } else {
            before.upper
        }),
    ensures
        after.stood_at(now),
        after.upper * 0x1_0000_0000 + after.last_lower == now % 0x1_0000_0000_0000_0000,
{
    let a = t / 0x1_0000_0000;
    let b = now / 0x1_0000_0000;
    if after.last_lower < before.last_lower {
        assert(b == a + 1);
    } else {
        assert(b == a);
    }
    assert(now % 0x1_0000_0000_0000_0000 == (b % 0x1_0000_0000) * 0x1_0000_0000 + now
        % 0x1_0000_0000);
}

/// The address of a node in its network: none where it is zero, and else its
/// bytes in the order in which they are sent.
pub open spec fn ip_octets(addr: u32) -> Option<[u8; 4]> {
    if addr == 0 {
        None
    } else {
        Some(
            [
                (addr % 256) as u8,
                (addr / 256 % 256) as u8,
                (addr / 65536 % 256) as u8,
                (addr / 16777216) as u8,
            ],
        )
    }
}

/// The bytes of an address make it up, the first counting least; and every address but
/// zero has them.
pub proof fn lemma_ip_octets(addr: u32)
    ensures
        match ip_octets(addr) {
            Some(a) => addr != 0 && a[0] + 0x100 * a[1] + 0x1_0000 * a[2] + 0x100_0000 * a[3]
                == addr,
            None => addr == 0,
        },
{
}

/// The address of a node in its network.
pub fn sta_get_ip(addr: u32) -> (r: Option<[u8; 4]>)
    ensures
        r == ip_octets(addr),
{
    if addr == 0 {
        return None;
    }
    Some(
        [
            (addr % 256) as u8,
            (addr / 256 % 256) as u8,
            (addr / 65536 % 256) as u8,
            (addr / 16777216) as u8,
        ],
    )
}

/// The name and the password of a network as the radio takes them.
pub fn sta_credentials(ssid: &str, password: &str) -> (r: ([u8; 32], [u8; 64]))
    ensures
        r.0@ == zero_padded(encode_utf8(ssid@), 32),
        r.1@ == zero_padded(encode_utf8(password@), 64),
{
    let ssid_bytes: &[u8] = ssid.as_bytes();
    let mut name: [u8; 32] = [0u8; 32];
    let mut i: usize = 0;
    while i < 32 && i < ssid_bytes.len()
        invariant
            i <= 32,
            i <= ssid_bytes@.len(),
            forall|k: int| 0 <= k < i ==> name@[k] == ssid_bytes@[k],
            forall|k: int| i <= k < 32 ==> name@[k] == 0,
        decreases 32 - i,
    {
        name[i] = ssid_bytes[i];
        i += 1;
    }
    assert(name@ =~= zero_padded(ssid_bytes@, 32));
    let password_bytes: &[u8] = password.as_bytes();
    let mut secret: [u8; 64] = [0u8; 64];
    let mut j: usize = 0;
    while j < 64 && j < password_bytes.len()
        invariant
            j <= 64,
            j <= password_bytes@.len(),
            forall|k: int| 0 <= k < j ==> secret@[k] == password_bytes@[k],
            forall|k: int| j <= k < 64 ==> secret@[k] == 0,
        decreases 64 - j,
    {
        secret[j] = password_bytes[j];
        j += 1;
    }
    assert(secret@ =~= zero_padded(password_bytes@, 64));
    (name, secret)
}

/// The characters of the name of a network.
pub uninterp spec fn ssid_text(s: heapless::String<32>) -> Seq<char>;

/// Calls `heapless::String::new`, which gives an empty text.
#[verifier::external_body]
fn ssid_new() -> (r: heapless::String<32>)
    ensures
        ssid_text(r) == Seq::<char>::empty(),
{
    heapless::String::new()
}

/// Calls `heapless::String::push_str`: the text goes to the end where its bytes
/// fit, and nothing changes where they do not.
#[verifier::external_body]
fn ssid_push_str(s: &mut heapless::String<32>, text: &str) -> (r: Result<(), ()>)
    ensures
        r is Ok <==> encode_utf8(ssid_text(*old(s))).len() + encode_utf8(text@).len() <= 32,
        ssid_text(*final(s)) == (if r is Ok {
            ssid_text(*old(s)) + text@
        } else {
            ssid_text(*old(s))
        }),
{
    s.push_str(text)
}

/// The password of the network that a node opens.
pub const AP_PASSWORD: &'static str = "password";

/// The network that a node opens.
pub struct ApSettings {
    pub ssid: heapless::String<32>,
    pub ssid_hidden: bool,
    pub channel: u8,
    pub max_connections: u16,
    /// Use a bandwidth of 40 MHz.
    pub ht40: bool,
    /// Answer to ranging sessions of peers.
    pub ftm_responder: bool,
}

/// The network that a node opens on its channel: open to eight others, under the
/// name that all nodes share, 40 MHz wide, and answering to ranging sessions.
pub fn ap_settings(softap_prefix: &str, state: &WifiState) -> (r: ApSettings)
    requires
        encode_utf8(softap_prefix@).len() <= 32,
    ensures
        ssid_text(r.ssid) == softap_prefix@,
        !r.ssid_hidden,
        r.channel == state.channel,
        r.max_connections == 8,
        r.ht40,
        r.ftm_responder,
{
    let mut ssid = ssid_new();
    proof {
        assert(encode_utf8(Seq::<char>::empty()).len() == 0) by {
            reveal_with_fuel(encode_utf8, 1);
        }
    }
    let _ = ssid_push_str(&mut ssid, softap_prefix);
    assert(ssid_text(ssid) =~= softap_prefix@);
    ApSettings {
        ssid,
        ssid_hidden: false,
        channel: state.channel,
        max_connections: 8,
        ht40: true,
        ftm_responder: true,
    }
}

/// Which channel state the radio reports.
#[derive(Clone, Copy, Debug, PartialEq, Eq, Structural)]
pub struct CsiSettings {
    pub lltf_en: bool,
    pub htltf_en: bool,
    pub stbc_htltf2_en: bool,
    pub ltf_merge_en: bool,
    pub channel_filter_en: bool,
    pub manu_scale: bool,
    pub shift: u8,
    pub dump_ack_en: bool,
}

/// All training fields one by one, smoothed, without scaling or acknowledgements.
pub fn csi_settings() -> (r: CsiSettings)
    ensures
        r == (CsiSettings {
            lltf_en: true,
            htltf_en: true,
            stbc_htltf2_en: true,
            ltf_merge_en: false,
            channel_filter_en: true,
            manu_scale: false,
            shift: 0,
            dump_ack_en: false,
        }),
{
    CsiSettings {
        lltf_en: true,
        htltf_en: true,
        stbc_htltf2_en: true,
        ltf_merge_en: false,
        channel_filter_en: true,
        manu_scale: false,
        shift: 0,
        dump_ack_en: false,
    }
}

} // verus!
