//! Channel state of the frames that a node hears: when each was received, what
//! is kept of it during a ranging session, and how it is reported.
use vstd::prelude::*;
use vstd::slice::slice_subrange;
use vstd::utf8::*;
use crate::b64::{b64_encode, b64_encoding, decodes_to, is_b64_text};
use crate::bytes::{lemma_as_signed, zero_padded};
use crate::firmware::peers::mac_eq;
use crate::frame::{
    frame_text, framed, is_field_char, is_field_text, joined, lemma_ascii_utf8, lemma_frame_ascii,
    lemma_joined_len, lemma_mac_field, next_dec, next_mac, next_signed, next_text,
};
use crate::number::{lemma_dec_field, lemma_hex_field, lemma_signed_field};
use crate::text::{
    ascii_bytes, dec, hex, lemma_number_len, mac_text, pad_left, push_dec, push_hex, signed_dec,
};

verus! {

/// The most bytes of channel state that are kept of a frame.
pub const MAX_CSI_LEN: usize = 384;

/// The room for the text of one message.
pub const MESSAGE_LEN: usize = 772;

/// Channel state of one received frame, with what the radio says of the frame.
#[derive(Clone, Copy)]
pub struct CsiData {
    pub mac: [u8; 6],
    pub rssi: i8,
    pub seq: u16,
    pub channel: u8,
    pub channel2: u8,
    pub timestamp_us: u32,
    pub timestamp_mac_raw: u64,
    pub rxstart_time_cyc: u8,
    pub rxstart_time_cyc_dec: u16,
    pub sig_mode: u8,
    pub stbc: bool,
    pub mcs: u8,
    pub len: usize,
    pub buf: [u8; 384],
}

/// The characters of a message.
pub uninterp spec fn message_text(s: heapless::String<772>) -> Seq<char>;

/// Calls `heapless::String::new`, which gives an empty text.
#[verifier::external_body]
fn message_new() -> (r: heapless::String<772>)
    ensures
        message_text(r) == Seq::<char>::empty(),
{
    heapless::String::new()
}

/// Calls `heapless::String::push_str`: the text goes to the end where its bytes
/// fit, and nothing changes where they do not.
#[verifier::external_body]
fn message_push_str(s: &mut heapless::String<772>, text: &str) -> (r: Result<(), ()>)
    ensures
        r is Ok <==> encode_utf8(message_text(*old(s))).len() + encode_utf8(text@).len()
            <= MESSAGE_LEN,
        message_text(*final(s)) == (if r is Ok {
            message_text(*old(s)) + text@
        } else {
            message_text(*old(s))
        }),
{
    s.push_str(text)
}

/// Calls `heapless::String::as_str`, which shows the text.
#[verifier::external_body]
pub(crate) fn message_str(s: &heapless::String<772>) -> (r: &str)
    ensures
        r@ == message_text(*s),
{
    s.as_str()
}

/// Puts a text of ASCII characters into a message of its own.
fn message_of(text: &str) -> (r: heapless::String<772>)
    requires
        forall|i: int| 0 <= i < text@.len() ==> '\0' <= #[trigger] text@[i] <= '\x7f',
        text@.len() <= MESSAGE_LEN,
    ensures
        message_text(r) == text@,
{
    let mut s = message_new();
    proof {
        lemma_ascii_utf8(text@);
        lemma_ascii_utf8(Seq::empty());
    }
    let _ = message_push_str(&mut s, text);
    assert(message_text(s) =~= text@);
    s
}

/// The part of a sample clock period in the time of reception: the fraction
/// counts down from 2048 in its upper half.
pub open spec fn cycle_fraction(cyc_dec: u16) -> u16 {
    if cyc_dec >= 1024 {
        2048u16.wrapping_sub(cyc_dec)
    } else {
        cyc_dec
    }
}

/// The time at which the first symbol of an OFDM frame arrived, in nanoseconds:
/// the microseconds of the radio's clock, 12.5 ns for each cycle, 1.562 ns for
/// each part of a cycle, less the 20.8 us that the frame starts before the time
/// is taken. In 64-bit arithmetic.
pub open spec fn ofdm_time_ns(us: u32, cyc: u8, cyc_dec: u16) -> u64 {
    ((us * 1000 + cyc * 12500 / 1000 + cycle_fraction(cyc_dec) * 1562 / 1000) as u64).wrapping_sub(
        20800,
    )
}

/// When a frame was received, in nanoseconds of the radio's clock. Frames that
/// are not OFDM have the time in microseconds only.
pub open spec fn received_ns(csi: CsiData, is_ofdm: bool) -> u64 {
    if is_ofdm {
        ofdm_time_ns(csi.timestamp_us, csi.rxstart_time_cyc, csi.rxstart_time_cyc_dec)
    } else {
        (csi.timestamp_us * 1000) as u64
    }
}

/// When a frame was received, in nanoseconds of the radio's clock.
pub fn calculate_precise_timestamp_ns(csi: &CsiData, is_ofdm: bool) -> (r: u64)
    ensures
        r == received_ns(*csi, is_ofdm),
        !is_ofdm ==> r == 1000 * csi.timestamp_us,
        is_ofdm && csi.timestamp_us >= 21 && csi.rxstart_time_cyc_dec <= 2048 ==> 1000
            * csi.timestamp_us - 20800 <= r <= 1000 * csi.timestamp_us - 16000,
{
    if !is_ofdm {
        return (csi.timestamp_us as u64) * 1000;
    }
    let fraction: u16 = if csi.rxstart_time_cyc_dec >= 1024 {
        2048u16.wrapping_sub(csi.rxstart_time_cyc_dec)
    } else {
        csi.rxstart_time_cyc_dec
    };
    let sum: u64 = (csi.timestamp_us as u64) * 1000 + ((csi.rxstart_time_cyc as u64) * 12500) / 1000
        + ((fraction as u64) * 1562) / 1000;
    sum.wrapping_sub(20800)
}

/// The time of reception lies close to the microseconds of the radio's clock, at any
/// time since it started: it is them where the frame is not OFDM, and less than 21 us
/// before them where it is and the cycles are within their range.
#[verifier::rlimit(50)]
pub proof fn lemma_received_near(csi: CsiData)
    ensures
        received_ns(csi, false) == 1000 * csi.timestamp_us,
        csi.timestamp_us >= 21 && csi.rxstart_time_cyc_dec <= 2048 ==> 1000 * csi.timestamp_us
            - 20800 <= received_ns(csi, true) <= 1000 * csi.timestamp_us - 16000,
        csi.timestamp_us >= 21 && csi.rxstart_time_cyc == 0 && csi.rxstart_time_cyc_dec == 0
            ==> received_ns(csi, true) == 1000 * csi.timestamp_us - 20800,
{
}

/// Of two frames with the same cycles, one was received 1000 ns later than the other
/// for each microsecond between them.
#[verifier::rlimit(50)]
pub proof fn lemma_received_apart(a: CsiData, b: CsiData, is_ofdm: bool)
    requires
        a.rxstart_time_cyc == b.rxstart_time_cyc,
        a.rxstart_time_cyc_dec == b.rxstart_time_cyc_dec,
    ensures
        a.timestamp_us >= 21 && b.timestamp_us >= 21 ==> received_ns(a, is_ofdm) - received_ns(
            b,
            is_ofdm,
        ) == 1000 * (a.timestamp_us - b.timestamp_us),
        (received_ns(a, is_ofdm) - received_ns(b, is_ofdm) - 1000 * (a.timestamp_us
            - b.timestamp_us)) % 0x1_0000_0000_0000_0000 == 0,
{
}

/// A cycle takes 12.5 ns: each two of them put the time of an OFDM frame off by 25 ns,
/// and a first one by 12.
#[verifier::rlimit(50)]
pub proof fn lemma_received_cycles(a: CsiData, b: CsiData)
    requires
        a.timestamp_us == b.timestamp_us,
        a.timestamp_us >= 21,
        a.rxstart_time_cyc_dec == b.rxstart_time_cyc_dec,
    ensures
        b.rxstart_time_cyc == a.rxstart_time_cyc + 2 ==> received_ns(b, true) == received_ns(
            a,
            true,
        ) + 25,
        a.rxstart_time_cyc == 0 && b.rxstart_time_cyc == 1 ==> received_ns(b, true)
            == received_ns(a, true) + 12,
{
}

/// A part of a cycle takes 1.562 ns, and the parts count down in their upper half: as
/// many of them from 2048 down put the time off as much as from zero up.
#[verifier::rlimit(50)]
pub proof fn lemma_received_parts(a: CsiData, b: CsiData)
    requires
        a.timestamp_us == b.timestamp_us,
        a.timestamp_us >= 21,
        a.rxstart_time_cyc == b.rxstart_time_cyc,
    ensures
        a.rxstart_time_cyc_dec + b.rxstart_time_cyc_dec == 2048 ==> received_ns(a, true)
            == received_ns(b, true),
        a.rxstart_time_cyc_dec == 0 && b.rxstart_time_cyc_dec <= 1024 ==> {
            let later = received_ns(b, true) - received_ns(a, true);
            1000 * later <= 1562 * b.rxstart_time_cyc_dec < 1000 * later + 1000
        },
        a.rxstart_time_cyc_dec == 0 && b.rxstart_time_cyc_dec > 2048 ==> {
            let later = received_ns(b, true) - received_ns(a, true);
            1000 * later <= 1562 * (0x1_0000 + 2048 - b.rxstart_time_cyc_dec) < 1000 * later + 1000
        },
{
}

/// The low half of a 64-bit counter.
pub open spec fn low_half(n: u64) -> u64 {
    n % 0x1_0000_0000
}

/// The high half of a 64-bit counter.
pub open spec fn high_half(n: u64) -> u64 {
    n / 0x1_0000_0000
}

/// The 64-bit time whose low half is `rx`, as seen from a later reading of the
/// counter: the last such time before it.
pub open spec fn extended_time(mac_counter: u64, rx: u32) -> u64 {
    let before = if low_half(mac_counter) > rx {
        mac_counter
    } else {
        mac_counter.wrapping_sub(0x1_0000_0000)
    };
    (high_half(before) * 0x1_0000_0000 + rx) as u64
}

/// Extends the 32-bit time of a frame by a reading of the 64-bit counter that was
/// taken after it.
pub fn extend_rx_timestamp(mac_counter: u64, rx_timestamp: u32) -> (r: u64)
    ensures
        r == extended_time(mac_counter, rx_timestamp),
{
    let rx: u64 = rx_timestamp as u64;
    let mac_low: u64 = mac_counter & 0x0000_0000_ffff_ffff;
    assert(mac_low == mac_counter % 0x1_0000_0000) by (bit_vector)
        requires
            mac_low == mac_counter & 0x0000_0000_ffff_ffff,
    ;
    let before: u64 = if mac_low > rx {
        mac_counter
    } else {
        mac_counter.wrapping_sub(0x1_0000_0000)
    };
    let r: u64 = rx | (before & 0xffff_ffff_0000_0000);
    assert(r == before / 0x1_0000_0000 * 0x1_0000_0000 + rx) by (bit_vector)
        requires
            r == rx | (before & 0xffff_ffff_0000_0000),
            rx <= 0xffff_ffff,
    ;
    r
}

/// Extending the low half of a time gives the time back, from any reading of the
/// counter that was taken after it and no later than 2^32 ticks.
#[verifier::rlimit(50)]
pub proof fn lemma_extended_time(t: u64, mac_counter: u64)
    requires
        t < mac_counter <= t + 0x1_0000_0000,
    ensures
        extended_time(mac_counter, low_half(t) as u32) == t,
        extended_time(mac_counter, (t % 0x1_0000_0000) as u32) == t,
{
}

/// Extending a time keeps its 32 bits, and gives one of the last 2^32 ticks before the
/// reading of the counter.
#[verifier::rlimit(50)]
pub proof fn lemma_extended_before(mac_counter: u64, rx: u32)
    ensures
        extended_time(mac_counter, rx) % 0x1_0000_0000 == rx,
        mac_counter >= 0x1_0000_0000 ==> mac_counter - 0x1_0000_0000 <= extended_time(
            mac_counter,
            rx,
        ) < mac_counter,
{
}

/// What the radio says of a received frame.
#[derive(Clone, Copy)]
pub struct RxInfo {
    pub mac: [u8; 6],
    pub rssi: i8,
    pub seq: u16,
    pub channel: u8,
    pub secondary_channel: u8,
    pub timestamp: u32,
    pub rxstart_time_cyc: u8,
    pub rxstart_time_cyc_dec: u16,
    pub sig_mode: u8,
    pub stbc: u32,
    pub mcs: u8,
    pub len: u16,
}

/// Collects what is kept of a received frame. The counter was read after the
/// frame came in.
pub fn csi_data(info: &RxInfo, bytes: &[u8], mac_counter: u64) -> (r: CsiData)
    ensures
        r.mac == info.mac,
        r.rssi == info.rssi,
        r.seq == info.seq,
        r.channel == info.channel,
        r.channel2 == info.secondary_channel,
        r.timestamp_us == info.timestamp,
        r.timestamp_mac_raw == extended_time(mac_counter, info.timestamp),
        r.rxstart_time_cyc == info.rxstart_time_cyc,
        r.rxstart_time_cyc_dec == info.rxstart_time_cyc_dec,
        r.sig_mode == info.sig_mode,
        r.stbc == (info.stbc != 0),
        r.mcs == info.mcs,
        r.len == info.len,
        r.buf@ == zero_padded(bytes@, 384),
{
    let mut buf: [u8; 384] = [0u8; 384];
    let n: usize = if bytes.len() < MAX_CSI_LEN {
        bytes.len()
    } else {
        MAX_CSI_LEN
    };
    let mut i: usize = 0;
    while i < n
        invariant
            i <= n,
            n <= bytes@.len(),
            n <= 384,
            forall|k: int| 0 <= k < i ==> buf@[k] == bytes@[k],
            forall|k: int| i <= k < 384 ==> buf@[k] == 0,
        decreases n - i,
    {
        buf[i] = bytes[i];
        i += 1;
    }
    assert(buf@ =~= zero_padded(bytes@, 384));
    CsiData {
        mac: info.mac,
        rssi: info.rssi,
        seq: info.seq,
        channel: info.channel,
        channel2: info.secondary_channel,
        timestamp_us: info.timestamp,
        timestamp_mac_raw: extend_rx_timestamp(mac_counter, info.timestamp),
        rxstart_time_cyc: info.rxstart_time_cyc,
        rxstart_time_cyc_dec: info.rxstart_time_cyc_dec,
        sig_mode: info.sig_mode,
        stbc: info.stbc != 0,
        mcs: info.mcs,
        len: info.len as usize,
        buf,
    }
}

/// The channel state of a frame.
pub open spec fn csi_bytes(csi: CsiData) -> Seq<u8> {
    csi.buf@.take(csi.len as int)
}

/// The channel state of a frame is as many of its bytes as it has, from the first on.
pub proof fn lemma_csi_bytes(csi: CsiData, i: int)
    requires
        csi.len <= 384,
        0 <= i < csi.len,
    ensures
        csi_bytes(csi).len() == csi.len,
        csi_bytes(csi)[i] == csi.buf@[i],
{
}

/// The fields of the message on a frame: the time of the shared clock, which
/// frame it was, when it came, its channel state as text, and how it came.
pub open spec fn csi_fields(csi: CsiData, mac_timestamp: i64, encoded: Seq<char>) -> Seq<
    Seq<char>,
> {
    seq![
        "CSI"@,
        pad_left(hex(mac_timestamp as u64 as nat), 16),
        dec(csi.seq as nat),
        mac_text(csi.mac@),
        dec(received_ns(csi, true) as nat),
        dec(encoded.len()),
        encoded,
        dec(csi.channel as nat),
        dec(csi.channel2 as nat),
        signed_dec(csi.rssi as int),
        dec(csi.sig_mode as nat),
    ]
}

/// The fields on a frame within the message on a ranging session.
pub open spec fn sample_fields(csi: CsiData, mac_timestamp: i64, encoded: Seq<char>) -> Seq<
    Seq<char>,
> {
    seq![
        dec(csi.channel as nat),
        dec(csi.channel2 as nat),
        encoded,
        dec(received_ns(csi, true) as nat),
        signed_dec(mac_timestamp as int),
    ]
}

/// The time of the shared clock at which a frame came.
pub open spec fn shared_time(csi: CsiData, offset: i64) -> i64 {
    (csi.timestamp_mac_raw as i64).wrapping_add(offset)
}

/// The shared clock is ahead of the counter by the offset, modulo 2^64.
#[verifier::rlimit(50)]
pub proof fn lemma_shared_time(csi: CsiData, offset: i64)
    ensures
        (shared_time(csi, offset) - csi.timestamp_mac_raw - offset) % 0x1_0000_0000_0000_0000 == 0,
{
    lemma_as_signed(csi.timestamp_mac_raw);
}

/// The time of the shared clock at which a frame came.
pub fn mac_timestamp(csi: &CsiData, offset: i64) -> (r: i64)
    ensures
        r == shared_time(*csi, offset),
{
    (csi.timestamp_mac_raw as i64).wrapping_add(offset)
}

/// Appends a number in hexadecimal, set right in sixteen columns.
fn push_hex_16(out: &mut String, n: u64)
    ensures
        final(out)@ == old(out)@ + pad_left(hex(n as nat), 16),
{
    let mut digits: String = String::new();
    push_hex(&mut digits, n);
    assert(digits@ =~= hex(n as nat));
    proof {
        lemma_number_len(n as nat);
        lemma_hex_field(n as nat);
        lemma_ascii_utf8(digits@);
    }
    let len: usize = digits.as_str().len();
    let mut k: usize = len;
    while k < 16
        invariant
            len <= k <= 16,
            out@ == old(out)@ + Seq::new((k - len) as nat, |i: int| ' '),
        decreases 16 - k,
    {
        out.push(' ');
        k += 1;
        assert(out@ =~= old(out)@ + Seq::new((k - len) as nat, |i: int| ' '));
    }
    out.append(digits.as_str());
    assert(out@ =~= old(out)@ + pad_left(hex(n as nat), 16));
}

/// The message on a frame, given its channel state as text.
pub fn csi_line(csi: &CsiData, mac_timestamp: i64, encoded: &str) -> (r: String)
    requires
        is_b64_text(encoded@),
    ensures
        r@ == frame_text(csi_fields(*csi, mac_timestamp, encoded@)),
{
    let mut out: String = String::new();
    let ghost mut f: Seq<Seq<char>> = seq!["CSI"@];
    out.append("CSI");
    assert(out@ =~= joined(f, '\x01'));
    let mut time: String = String::new();
    push_hex_16(&mut time, mac_timestamp as u64);
    assert(time@ =~= pad_left(hex(mac_timestamp as u64 as nat), 16));
    next_text(&mut out, time.as_str(), '\x01', Ghost(f));
    proof {
        f = f.push(time@);
    }
    next_dec(&mut out, csi.seq as u64, '\x01', Ghost(f));
    proof {
        f = f.push(dec(csi.seq as nat));
    }
    next_mac(&mut out, &csi.mac, '\x01', Ghost(f));
    proof {
        f = f.push(mac_text(csi.mac@));
    }
    let ns: u64 = calculate_precise_timestamp_ns(csi, true);
    next_dec(&mut out, ns, '\x01', Ghost(f));
    proof {
        f = f.push(dec(ns as nat));
        lemma_ascii_utf8(encoded@);
    }
    let len: usize = encoded.as_bytes().len();
    next_dec(&mut out, len as u64, '\x01', Ghost(f));
    proof {
        f = f.push(dec(encoded@.len()));
    }
    next_text(&mut out, encoded, '\x01', Ghost(f));
    proof {
        f = f.push(encoded@);
    }
    next_dec(&mut out, csi.channel as u64, '\x01', Ghost(f));
    proof {
        f = f.push(dec(csi.channel as nat));
    }
    next_dec(&mut out, csi.channel2 as u64, '\x01', Ghost(f));
    proof {
        f = f.push(dec(csi.channel2 as nat));
    }
    next_signed(&mut out, csi.rssi as i64, '\x01', Ghost(f));
    proof {
        f = f.push(signed_dec(csi.rssi as int));
    }
    next_dec(&mut out, csi.sig_mode as u64, '\x01', Ghost(f));
    proof {
        f = f.push(dec(csi.sig_mode as nat));
        assert(f =~= csi_fields(*csi, mac_timestamp, encoded@));
    }
    framed(out.as_str(), Ghost(f))
}

/// The fields on a frame within the message on a ranging session, each with a
/// delimiter behind it, given its channel state as text.
pub fn sample_line(csi: &CsiData, mac_timestamp: i64, encoded: &str) -> (r: String)
    ensures
        r@ == joined(sample_fields(*csi, mac_timestamp, encoded@), '\x01').push('\x01'),
{
    let mut out: String = String::new();
    let ghost mut f: Seq<Seq<char>> = seq![dec(csi.channel as nat)];
    push_dec(&mut out, csi.channel as u64);
    assert(out@ =~= joined(f, '\x01'));
    next_dec(&mut out, csi.channel2 as u64, '\x01', Ghost(f));
    proof {
        f = f.push(dec(csi.channel2 as nat));
    }
    next_text(&mut out, encoded, '\x01', Ghost(f));
    proof {
        f = f.push(encoded@);
    }
    let ns: u64 = calculate_precise_timestamp_ns(csi, true);
    next_dec(&mut out, ns, '\x01', Ghost(f));
    proof {
        f = f.push(dec(ns as nat));
    }
    next_signed(&mut out, mac_timestamp, '\x01', Ghost(f));
    proof {
        f = f.push(signed_dec(mac_timestamp as int));
        assert(f =~= sample_fields(*csi, mac_timestamp, encoded@));
    }
    out.push('\x01');
    out
}

/// All fields of the message on a frame can stand in one, and the message fits
/// into the room for it.
pub proof fn lemma_csi_message(csi: CsiData, mac_timestamp: i64, encoded: Seq<char>)
    requires
        is_b64_text(encoded),
    ensures
        forall|i: int|
            0 <= i < 11 ==> is_field_text(#[trigger] csi_fields(csi, mac_timestamp, encoded)[i]),
        encoded.len() <= 512 ==> frame_text(csi_fields(csi, mac_timestamp, encoded)).len()
            <= MESSAGE_LEN,
{
    let n = mac_timestamp as u64 as nat;
    let f = csi_fields(csi, mac_timestamp, encoded);
    reveal_strlit("CSI");
    lemma_hex_field(n);
    lemma_number_len(n);
    lemma_dec_field(csi.seq as nat);
    lemma_number_len(csi.seq as nat);
    lemma_mac_field(csi.mac@);
    lemma_dec_field(received_ns(csi, true) as nat);
    lemma_number_len(received_ns(csi, true) as nat);
    lemma_dec_field(encoded.len());
    lemma_dec_field(csi.channel as nat);
    lemma_number_len(csi.channel as nat);
    lemma_dec_field(csi.channel2 as nat);
    lemma_number_len(csi.channel2 as nat);
    lemma_signed_field(csi.rssi as int);
    lemma_number_len(if csi.rssi < 0 {
        -csi.rssi as nat
    } else {
        csi.rssi as nat
    });
    lemma_dec_field(csi.sig_mode as nat);
    lemma_number_len(csi.sig_mode as nat);
    assert(is_field_text(pad_left(hex(n), 16))) by {
        let p = pad_left(hex(n), 16);
        let k = 16 - hex(n).len();
        assert forall|i: int| 0 <= i < p.len() implies is_field_char(#[trigger] p[i]) by {
            if i >= k {
                assert(p[i] == hex(n)[i - k]);
            }
        }
    }
    assert(is_field_text(encoded));
    assert(is_field_text("CSI"@));
    if encoded.len() <= 512 {
        lemma_number_len(encoded.len());
        assert forall|i: int| 0 <= i < f.len() && i != 6 implies (#[trigger] f[i]).len() <= 21 by {}
        lemma_joined_len(f, '\x01', 6, 21);
    }
}

/// All fields on a frame within the message on a session can stand in one, and
/// they fit into the room for a message.
pub proof fn lemma_sample_message(csi: CsiData, mac_timestamp: i64, encoded: Seq<char>)
    requires
        is_b64_text(encoded),
    ensures
        forall|i: int|
            0 <= i < 5 ==> is_field_text(#[trigger] sample_fields(csi, mac_timestamp, encoded)[i]),
        encoded.len() <= 512 ==> joined(
            sample_fields(csi, mac_timestamp, encoded),
            '\x01',
        ).len() < MESSAGE_LEN,
{
    let f = sample_fields(csi, mac_timestamp, encoded);
    lemma_dec_field(csi.channel as nat);
    lemma_number_len(csi.channel as nat);
    lemma_dec_field(csi.channel2 as nat);
    lemma_number_len(csi.channel2 as nat);
    lemma_dec_field(received_ns(csi, true) as nat);
    lemma_number_len(received_ns(csi, true) as nat);
    lemma_signed_field(mac_timestamp as int);
    lemma_number_len(if mac_timestamp < 0 {
        -mac_timestamp as nat
    } else {
        mac_timestamp as nat
    });
    assert(is_field_text(encoded));
    if encoded.len() <= 512 {
        assert forall|i: int| 0 <= i < f.len() && i != 2 implies (#[trigger] f[i]).len() <= 21 by {}
        lemma_joined_len(f, '\x01', 2, 21);
    }
}

/// The channel state of a frame as text.
fn encoded_csi(csi: &CsiData) -> (r: String)
    requires
        csi.len <= MAX_CSI_LEN,
    ensures
        r@ == b64_encoding(csi_bytes(*csi)),
        is_b64_text(r@),
        r@.len() <= 512,
        decodes_to(ascii_bytes(r@), csi_bytes(*csi)),
{
    let bytes: &[u8] = slice_subrange(csi.buf.as_slice(), 0, csi.len);
    assert(bytes@ =~= csi_bytes(*csi));
    b64_encode(bytes)
}

/// The message on a frame.
pub fn csi_message(csi: &CsiData, mac_timestamp: i64) -> (r: heapless::String<772>)
    requires
        csi.len <= MAX_CSI_LEN,
    ensures
        message_text(r) == frame_text(
            csi_fields(*csi, mac_timestamp, b64_encoding(csi_bytes(*csi))),
        ),
        is_b64_text(b64_encoding(csi_bytes(*csi))),
        decodes_to(ascii_bytes(b64_encoding(csi_bytes(*csi))), csi_bytes(*csi)),
{
    let encoded = encoded_csi(csi);
    let line = csi_line(csi, mac_timestamp, encoded.as_str());
    proof {
        lemma_csi_message(*csi, mac_timestamp, encoded@);
        lemma_frame_ascii(csi_fields(*csi, mac_timestamp, encoded@));
    }
    message_of(line.as_str())
}

/// The fields on a frame within the message on a session, each with a delimiter
/// behind it.
fn sample_message(csi: &CsiData, mac_timestamp: i64) -> (r: heapless::String<772>)
    requires
        csi.len <= MAX_CSI_LEN,
    ensures
        message_text(r) == joined(
            sample_fields(*csi, mac_timestamp, b64_encoding(csi_bytes(*csi))),
            '\x01',
        ).push('\x01'),
        is_b64_text(b64_encoding(csi_bytes(*csi))),
        decodes_to(ascii_bytes(b64_encoding(csi_bytes(*csi))), csi_bytes(*csi)),
{
    let encoded = encoded_csi(csi);
    let line = sample_line(csi, mac_timestamp, encoded.as_str());
    proof {
        lemma_sample_message(*csi, mac_timestamp, encoded@);
        lemma_frame_ascii(sample_fields(*csi, mac_timestamp, encoded@));
    }
    message_of(line.as_str())
}

/// The frames that are kept during a ranging session.
pub struct FtmCsiState {
    /// Frames from `mac` are kept in `buffer`, and not reported at once.
    pub active: bool,
    /// The address whose frames are kept.
    pub mac: [u8; 6],
    /// How many frames are kept at most.
    pub capacity: usize,
    /// The frames that came so far.
    pub buffer: Vec<CsiData>,
}

/// A frame belongs to the session.
pub open spec fn is_kept(state: FtmCsiState, csi: CsiData) -> bool {
    state.active && state.mac == csi.mac
}

/// The lengths of all frames are within their buffers.
pub open spec fn lengths_ok(buffer: Seq<CsiData>) -> bool {
    forall|i: int| 0 <= i < buffer.len() ==> (#[trigger] buffer[i]).len <= MAX_CSI_LEN
}

impl FtmCsiState {
    /// No more frames are kept than there is room for.
    pub open spec fn wf(&self) -> bool {
        self.buffer@.len() <= self.capacity
    }

    /// No session, no frames.
    pub fn new() -> (r: Self)
        ensures
            r.wf(),
            !r.active,
            r.mac@ == Seq::new(6, |i: int| 0u8),
            r.capacity == 0,
            r.buffer@.len() == 0,
    {
        let mac: [u8; 6] = [0u8; 6];
        assert(mac@ =~= Seq::new(6, |i: int| 0u8));
        FtmCsiState { active: false, mac, capacity: 0, buffer: Vec::new() }
    }

    /// How many frames are kept.
    pub fn _get_num_csi(self) -> (r: usize)
        ensures
            r == self.buffer@.len(),
    {
        self.buffer.len()
    }
}

/// Starts a session with a peer: the frames before it are dropped.
pub fn reset_ftm_csi_buf(state: &mut FtmCsiState, mac: &[u8; 6], size: usize)
    ensures
        final(state).wf(),
        final(state).active,
        final(state).mac == *mac,
        final(state).capacity == size,
        final(state).buffer@.len() == 0,
{
    state.buffer.clear();
    state.mac = *mac;
    state.capacity = size;
    state.active = true;
}

/// What became of a frame that was offered to a session.
#[derive(Clone, Copy, Debug, PartialEq, Eq, Structural)]
pub enum Offer {
    /// It is kept.
    Kept,
    /// It belongs to the session, which has all the frames it can keep.
    Full,
    /// It does not belong to the session.
    Foreign,
}

/// Offers a frame to the session.
pub fn offer_csi(state: &mut FtmCsiState, csi: CsiData) -> (r: Offer)
    ensures
        old(state).wf() ==> final(state).wf(),
        (r == Offer::Foreign) == !(old(state).active && old(state).mac == csi.mac),
        r == (if !is_kept(*old(state), csi) {
            Offer::Foreign
        } else if old(state).buffer@.len() < old(state).capacity {
            Offer::Kept
        } else {
            Offer::Full
        }),
        final(state).buffer@ == (if r == Offer::Kept {
            old(state).buffer@.push(csi)
        } else {
            old(state).buffer@
        }),
        final(state).active == old(state).active,
        final(state).mac == old(state).mac,
        final(state).capacity == old(state).capacity,
{
    if state.active && mac_eq(&state.mac, &csi.mac) {
        if state.buffer.len() < state.capacity {
            state.buffer.push(csi);
            Offer::Kept
        } else {
            Offer::Full
        }
    } else {
        Offer::Foreign
    }
}

/// What is printed of the frames of a session: a mark, and the fields on each
/// frame.
pub open spec fn session_pieces(buffer: Seq<CsiData>, offset: i64) -> Seq<Seq<char>> {
    seq!["CSI\x01"@] + buffer.map_values(
        |csi: CsiData|
            joined(
                sample_fields(csi, shared_time(csi, offset), b64_encoding(csi_bytes(csi))),
                '\x01',
            ).push('\x01'),
    )
}

/// Messages as character sequences.
pub open spec fn message_texts(messages: Seq<heapless::String<772>>) -> Seq<Seq<char>> {
    messages.map_values(|m: heapless::String<772>| message_text(m))
}

/// Ends the session. Gives what is to be printed of its frames, where there are
/// any and they are wanted.
pub fn dump_csi_buf(state: &mut FtmCsiState, print_output: bool, offset: i64) -> (r: Option<
    Vec<heapless::String<772>>,
>)
    requires
        print_output ==> lengths_ok(old(state).buffer@),
    ensures
        final(state).wf(),
        !final(state).active,
        final(state).mac == old(state).mac,
        final(state).capacity == old(state).capacity,
        final(state).buffer@.len() == 0,
        match r {
            Some(pieces) => print_output && old(state).buffer@.len() > 0 && message_texts(pieces@)
                == session_pieces(old(state).buffer@, offset),
            None => !print_output || old(state).buffer@.len() == 0,
        },
        r is Some ==> forall|i: int|
            0 <= i < old(state).buffer@.len() ==> is_b64_text(
                b64_encoding(csi_bytes(#[trigger] old(state).buffer@[i])),
            ) && decodes_to(
                ascii_bytes(b64_encoding(csi_bytes(old(state).buffer@[i]))),
                csi_bytes(old(state).buffer@[i]),
            ),
{
    state.active = false;
    let mut entries: Vec<CsiData> = Vec::new();
    std::mem::swap(&mut entries, &mut state.buffer);
    if entries.len() == 0 || !print_output {
        return None;
    }
    let mut pieces: Vec<heapless::String<772>> = Vec::new();
    proof {
        reveal_strlit("CSI\x01");
    }
    pieces.push(message_of("CSI\x01"));
    let mut i: usize = 0;
    while i < entries.len()
        invariant
            i <= entries@.len(),
            lengths_ok(entries@),
            pieces@.len() == i + 1,
            message_text(pieces@[0]) == "CSI\x01"@,
            forall|k: int|
                1 <= k <= i ==> message_text(#[trigger] pieces@[k]) == joined(
                    sample_fields(
                        entries@[k - 1],
                        shared_time(entries@[k - 1], offset),
                        b64_encoding(csi_bytes(entries@[k - 1])),
                    ),
                    '\x01',
                ).push('\x01'),
            forall|k: int|
                0 <= k < i ==> is_b64_text(b64_encoding(csi_bytes(#[trigger] entries@[k])))
                    && decodes_to(
                    ascii_bytes(b64_encoding(csi_bytes(entries@[k]))),
                    csi_bytes(entries@[k]),
                ),
        decreases entries@.len() - i,
    {
        let t: i64 = mac_timestamp(&entries[i], offset);
        pieces.push(sample_message(&entries[i], t));
        i += 1;
    }
    assert(message_texts(pieces@) =~= session_pieces(entries@, offset));
    Some(pieces)
}

/// What is to be done about a received frame.
pub enum CsiOutcome {
    /// It is kept for the session.
    Buffered,
    /// The session has no room for it.
    Dropped,
    /// It has no channel state.
    NoData,
    /// It is reported at once.
    Report(heapless::String<772>),
}

/// Takes in a received frame: it is kept for the session that it belongs to, or
/// else reported.
pub fn process_csi(state: &mut FtmCsiState, csi: CsiData, offset: i64) -> (r: CsiOutcome)
    requires
        is_kept(*old(state), csi) || csi.len <= MAX_CSI_LEN,
    ensures
        old(state).wf() ==> final(state).wf(),
        (r is Buffered || r is Dropped) == (old(state).active && old(state).mac == csi.mac),
        match r {
            CsiOutcome::Buffered => is_kept(*old(state), csi) && old(state).buffer@.len() < old(state).capacity && final(state).buffer@ == old(state).buffer@.push(csi),
            CsiOutcome::Dropped => is_kept(*old(state), csi) && old(state).buffer@.len() >= old(state).capacity && final(state).buffer@ == old(state).buffer@,
            CsiOutcome::NoData => !is_kept(*old(state), csi) && csi.len == 0 && final(state).buffer@
                == old(state).buffer@,
            CsiOutcome::Report(m) => !is_kept(*old(state), csi) && csi.len > 0 && final(state).buffer@ == old(state).buffer@ && message_text(m) == frame_text(
                csi_fields(csi, shared_time(csi, offset), b64_encoding(csi_bytes(csi))),
            ),
        },
        final(state).active == old(state).active,
        final(state).mac == old(state).mac,
        final(state).capacity == old(state).capacity,
{
    let t: i64 = mac_timestamp(&csi, offset);
    match offer_csi(state, csi) {
        Offer::Kept => CsiOutcome::Buffered,
        Offer::Full => CsiOutcome::Dropped,
        Offer::Foreign => {
            if csi.len > 0 {
                CsiOutcome::Report(csi_message(&csi, t))
            } else {
                CsiOutcome::NoData
            }
        },
    }
}

} // verus!
