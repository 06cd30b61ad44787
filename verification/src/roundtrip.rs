//! What the host makes of the messages of a node: it reads back what the node
//! wrote.
use vstd::prelude::*;
use vstd::arithmetic::div_mod::lemma_mod_multiples_vanish;
use vstd::utf8::*;
use crate::b64::{b64_decoding, b64_encoding, decodes_to, is_b64_text};
use crate::bytes::{
    apart_64, le_bytes, lemma_as_signed, lemma_le_bytes_len, lemma_le_round_trip, lemma_pow256,
};
use crate::controller::esp_io::{mac_after, mac_ok, outcome_of, reads, OutcomeRecord};
use crate::controller::tlv::{
    all_matched, burst, csi_of, exchange, exchanges, ftm_of, has_csi, is_last_claim, is_near,
    lemma_is_near, lemma_keeps, lemma_matched, lemma_served_step, matched, served, takes, unclaimed,
    padded_unsigned_field, payload_reports, picoseconds, range_of, sample_at, signed_field,
    text_field, trimmed_field, unsigned_field, CsiRecord, DbgRecord, EspRecord,
    FtmRecord, FtmReportRecord, RangeRecord, Sample,
};
use crate::firmware::console::{arguments_of, command_of, id_fields};
use crate::firmware::csi::{
    csi_bytes, csi_fields, lemma_csi_message, lemma_sample_message, received_ns, sample_fields,
    shared_time, CsiData,
};
use crate::firmware::ftm::{
    entry_bytes, entry_fields, frame_fields, ftm_fields, readable, FtmEntry, FtmReport,
};
use crate::firmware::wipro::{belongs, dbg_fields, lemma_belongs, range_fields};
use crate::frame::{
    ascii_fields, fields_of, frame_text, is_field_text, joined, lemma_ascii_utf8,
    lemma_field_bytes, lemma_fields_in_line, lemma_fields_of_frame, lemma_frame_ascii,
    lemma_mac_field, DELIMITER, END, START,
};
use crate::number::{
    float_fault, lemma_dec_field, lemma_dec_round_trip, lemma_hex_field, lemma_hex_round_trip,
    lemma_signed_field, lemma_signed_round_trip,
};
use crate::text::{ascii_bytes, dec, hex, mac_text, pad_left, signed_dec};
use crate::utf8::{
    is_white_space, lemma_trimmed_push, lemma_trimmed_same, lemma_trimmed_spaces, trimmed,
};

verus! {

/// A text neither starts nor ends with white space.
pub open spec fn is_tight(s: Seq<char>) -> bool {
    s.len() > 0 ==> !is_white_space(s[0]) && !is_white_space(s.last())
}

/// A field with a text is read as it.
proof fn lemma_read_text(s: Seq<char>, label: Seq<char>)
    requires
        is_field_text(s),
    ensures
        text_field(ascii_bytes(s), label) == Ok::<Seq<char>, Seq<char>>(s),
        is_tight(s) ==> trimmed_field(ascii_bytes(s), label) == Ok::<Seq<char>, Seq<char>>(s),
{
    lemma_ascii_utf8(s);
    if is_tight(s) {
        lemma_trimmed_same(s);
    }
}

/// A field with a decimal number is read as it.
proof fn lemma_read_dec(n: nat, label: Seq<char>, number_label: Seq<char>, max: nat)
    requires
        n <= max,
    ensures
        unsigned_field(ascii_bytes(dec(n)), label, number_label, max) == Ok::<nat, Seq<char>>(n),
        padded_unsigned_field(ascii_bytes(dec(n)), label, number_label, 10, max) == Ok::<
            nat,
            Seq<char>,
        >(n),
{
    lemma_dec_field(n);
    lemma_dec_round_trip(n, max);
    lemma_read_text(dec(n), label);
    lemma_ascii_utf8(dec(n));
}

/// A field with a signed number is read as it.
proof fn lemma_read_signed(n: int, label: Seq<char>, number_label: Seq<char>)
    requires
        i32::MIN <= n <= i32::MAX,
    ensures
        signed_field(ascii_bytes(signed_dec(n)), label, number_label) == Ok::<int, Seq<char>>(n),
{
    lemma_signed_field(n);
    lemma_signed_round_trip(n);
    lemma_read_text(signed_dec(n), label);
}

/// A field with a hexadecimal number set right is read as it.
proof fn lemma_read_hex(n: nat, label: Seq<char>, number_label: Seq<char>)
    requires
        n <= u64::MAX,
        is_field_text(pad_left(hex(n), 16)),
    ensures
        padded_unsigned_field(
            ascii_bytes(pad_left(hex(n), 16)),
            label,
            number_label,
            16,
            u64::MAX as nat,
        ) == Ok::<nat, Seq<char>>(n),
{
    let p = pad_left(hex(n), 16);
    lemma_hex_field(n);
    lemma_hex_round_trip(n, u64::MAX as nat);
    lemma_read_text(p, label);
    lemma_ascii_utf8(hex(n));
    if hex(n).len() < 16 {
        lemma_trimmed_spaces((16 - hex(n).len()) as nat, hex(n));
    } else {
        lemma_trimmed_same(hex(n));
    }
    assert(trimmed(p) == hex(n));
}

/// What the host keeps of the message on a frame.
pub open spec fn csi_record(
    csi: CsiData,
    mac_timestamp: i64,
    encoded: Seq<char>,
    own_mac: Seq<char>,
    t_ms: u64,
) -> CsiRecord {
    CsiRecord {
        t_ms,
        seq: csi.seq as i32,
        own_mac,
        tgt_mac: mac_text(csi.mac@),
        timestamp: received_ns(csi, true),
        channel: csi.channel as u32,
        channel2: csi.channel2 as u32,
        rssi: csi.rssi as i32,
        payload_b64: encoded,
        mac_timestamp,
        sig_mode: csi.sig_mode,
    }
}

/// What the host makes of a line, for a node whose address is known.
pub open spec fn line_outcome(line: Seq<char>, own_mac: Seq<char>, t_ms: u64) -> Option<
    OutcomeRecord,
> {
    match fields_of(encode_utf8(line)) {
        Some(m) => Some(outcome_of(Some(own_mac), m, t_ms)),
        None => None,
    }
}

/// The first field of a message names its kind.
proof fn lemma_kinds(f: Seq<char>)
    ensures
        f == "CSI"@ ==> reads(ascii_bytes(f), "CSI"@) && !reads(ascii_bytes(f), "MAC"@),
        f == "FTM"@ ==> reads(ascii_bytes(f), "FTM"@) && !reads(ascii_bytes(f), "MAC"@) && !reads(
            ascii_bytes(f),
            "CSI"@,
        ),
        f == "DBG"@ ==> reads(ascii_bytes(f), "DBG"@) && !reads(ascii_bytes(f), "MAC"@) && !reads(
            ascii_bytes(f),
            "CSI"@,
        ) && !reads(ascii_bytes(f), "FTM"@),
        f == "MAC"@ ==> reads(ascii_bytes(f), "MAC"@),
{
    reveal_strlit("CSI");
    reveal_strlit("FTM");
    reveal_strlit("DBG");
    reveal_strlit("MAC");
    lemma_ascii_utf8("CSI"@);
    lemma_ascii_utf8("FTM"@);
    lemma_ascii_utf8("DBG"@);
    lemma_ascii_utf8("MAC"@);
    assert(ascii_bytes("CSI"@)[0] == 67);
    assert(ascii_bytes("FTM"@)[0] == 70);
    assert(ascii_bytes("DBG"@)[0] == 68);
    assert(ascii_bytes("MAC"@)[0] == 77);
}

/// The host reads back what a node reports of a frame.
pub proof fn lemma_csi_round_trip(
    csi: CsiData,
    mac_timestamp: i64,
    encoded: Seq<char>,
    own_mac: Seq<char>,
    t_ms: u64,
)
    requires
        is_b64_text(encoded),
        encoded.len() <= usize::MAX,
    ensures
        line_outcome(frame_text(csi_fields(csi, mac_timestamp, encoded)), own_mac, t_ms) == Some(
            OutcomeRecord::Event(
                EspRecord::CSI(csi_record(csi, mac_timestamp, encoded, own_mac, t_ms)),
            ),
        ),
{
    let f = csi_fields(csi, mac_timestamp, encoded);
    let m = ascii_fields(f);
    lemma_csi_message(csi, mac_timestamp, encoded);
    lemma_fields_of_frame(f);
    lemma_kinds("CSI"@);
    let n = mac_timestamp as u64;
    assert(is_field_text(f[1]));
    lemma_read_hex(n as nat, "Invalid UTF-8 in seq: "@, "Invalid hex field: "@);
    assert(mac_timestamp as u64 as i64 == mac_timestamp) by (bit_vector);
    assert(dec(csi.seq as nat) == signed_dec(csi.seq as int));
    lemma_read_signed(csi.seq as int, "Invalid UTF-8 in seq: "@, "Invalid seq: "@);
    lemma_mac_field(csi.mac@);
    lemma_read_text(mac_text(csi.mac@), "Invalid UTF-8 in tgt_mac: "@);
    lemma_read_dec(
        received_ns(csi, true) as nat,
        "Invalid UTF-8 in timestamp: "@,
        "Invalid timestamp: "@,
        u64::MAX as nat,
    );
    lemma_read_dec(
        encoded.len(),
        "Invalid UTF-8 in payload size: "@,
        "Invalid payload size: "@,
        usize::MAX as nat,
    );
    assert(is_field_text(f[6]));
    lemma_read_text(encoded, "Invalid UTF-8 in payload: "@);
    lemma_read_dec(csi.channel as nat, "Invalid UTF-8: "@, "Invalid: "@, u32::MAX as nat);
    lemma_read_dec(csi.channel2 as nat, "Invalid UTF-8: "@, "Invalid: "@, u32::MAX as nat);
    lemma_read_signed(csi.rssi as int, "Invalid UTF-8: "@, "Invalid: "@);
    lemma_read_dec(csi.sig_mode as nat, "Invalid UTF-8: "@, "Invalid: "@, u8::MAX as nat);
    assert(m.len() == 11);
    assert(m[6].len() == encoded.len());
    assert(csi_of(m, own_mac, t_ms) == Ok::<CsiRecord, Seq<char>>(
        csi_record(csi, mac_timestamp, encoded, own_mac, t_ms),
    ));
}

/// The host reads back what a node sends for debugging.
pub proof fn lemma_dbg_round_trip(len: usize, encoded: Seq<char>, own_mac: Seq<char>, t_ms: u64)
    requires
        is_b64_text(encoded),
    ensures
        line_outcome(frame_text(dbg_fields(len as nat, encoded)), own_mac, t_ms) == Some(
            OutcomeRecord::Event(
                EspRecord::DBG(
                    DbgRecord { own_mac, data_type: "fc32"@, len, payload_b64: encoded },
                ),
            ),
        ),
{
    let f = dbg_fields(len as nat, encoded);
    let m = ascii_fields(f);
    reveal_strlit("DBG");
    reveal_strlit("fc32");
    lemma_dec_field(len as nat);
    assert(is_field_text("DBG"@));
    assert(is_field_text("fc32"@));
    assert(is_field_text(encoded));
    lemma_fields_of_frame(f);
    lemma_kinds("DBG"@);
    lemma_read_text("fc32"@, "Invalid UTF-8 in data_type: "@);
    lemma_read_dec(
        len as nat,
        "Invalid UTF-8 in len: "@,
        "Invalid len: "@,
        usize::MAX as nat,
    );
    lemma_read_text(encoded, "Invalid UTF-8 in payload: "@);
    assert(m.len() == 4);
}

/// The host can read back the range that a node reports.
pub proof fn lemma_range_round_trip(
    peer_mac: Seq<u8>,
    t2: u64,
    range: Seq<char>,
    own_mac: Seq<char>,
    t_ms: u64,
)
    requires
        is_field_text(range),
        is_tight(range),
        float_fault(ascii_bytes(range)) is None,
    ensures
        match fields_of(encode_utf8(frame_text(range_fields(peer_mac, t2, range)))) {
            Some(m) => range_of(m, own_mac, t_ms) == Ok::<RangeRecord, Seq<char>>(
                RangeRecord { t_ms, own_mac, tgt_mac: mac_text(peer_mac), timestamp: t2, range },
            ),
            None => false,
        },
{
    let f = range_fields(peer_mac, t2, range);
    let m = ascii_fields(f);
    reveal_strlit("RANGE");
    assert(is_field_text("RANGE"@));
    lemma_mac_field(peer_mac);
    lemma_dec_field(t2 as nat);
    lemma_fields_of_frame(f);
    lemma_read_text(mac_text(peer_mac), "Invalid UTF-8 in tgt_mac: "@);
    lemma_read_dec(
        t2 as nat,
        "Invalid UTF-8 in timestamp: "@,
        "Invalid timestamp: "@,
        u64::MAX as nat,
    );
    lemma_read_text(range, "Invalid UTF-8 in range: "@);
    lemma_ascii_utf8(range);
    assert(m.len() == 4);
}

/// What the host keeps of an exchange before channel state is matched to it.
pub open spec fn entry_record(own_mac: Seq<char>, tgt_mac: Seq<char>, e: FtmEntry) -> FtmReportRecord {
    FtmReportRecord {
        own_mac,
        tgt_mac,
        dlog_token: e.dlog_token,
        rssi: e.rssi,
        t1: e.t1,
        t2: e.t2,
        t3: e.t3,
        t4: e.t4,
        channel: 0,
        channel2: 0,
        payload_b64: Seq::empty(),
        mac_timestamp: 0,
    }
}

/// What the host keeps of exchanges before channel state is matched to them.
pub open spec fn entry_records(
    own_mac: Seq<char>,
    tgt_mac: Seq<char>,
    entries: Seq<FtmEntry>,
) -> Seq<FtmReportRecord> {
    entries.map_values(|e: FtmEntry| entry_record(own_mac, tgt_mac, e))
}

/// The host reads an exchange back from its bytes.
pub proof fn lemma_entry_round_trip(own_mac: Seq<char>, tgt_mac: Seq<char>, e: FtmEntry)
    ensures
        entry_bytes(e).len() == 40,
        exchange(own_mac, tgt_mac, entry_bytes(e)) == entry_record(own_mac, tgt_mac, e),
        exchanges(own_mac, tgt_mac, entry_bytes(e)) == seq![entry_record(own_mac, tgt_mac, e)],
{
    let b = entry_bytes(e);
    lemma_le_bytes_len(e.rtt as nat, 4);
    lemma_le_bytes_len(e.t1 as nat, 8);
    lemma_le_bytes_len(e.t2 as nat, 8);
    lemma_le_bytes_len(e.t3 as nat, 8);
    lemma_le_bytes_len(e.t4 as nat, 8);
    lemma_pow256();
    lemma_le_round_trip(e.t1 as nat, 8);
    lemma_le_round_trip(e.t2 as nat, 8);
    lemma_le_round_trip(e.t3 as nat, 8);
    lemma_le_round_trip(e.t4 as nat, 8);
    assert(b.subrange(8, 16) =~= le_bytes(e.t1 as nat, 8));
    assert(b.subrange(16, 24) =~= le_bytes(e.t2 as nat, 8));
    assert(b.subrange(24, 32) =~= le_bytes(e.t3 as nat, 8));
    assert(b.subrange(32, 40) =~= le_bytes(e.t4 as nat, 8));
    let rssi = e.rssi;
    assert(rssi as u8 as i8 == rssi) by (bit_vector);
    assert(b.subrange(0, 40) =~= b);
    assert(exchanges(own_mac, tgt_mac, b) =~= seq![entry_record(own_mac, tgt_mac, e)]);
}

/// The channel state of a frame as the host reads it.
pub open spec fn frame_sample(c: CsiData, offset: i64) -> Sample {
    Sample {
        channel: c.channel as u32,
        channel2: c.channel2 as u32,
        payload_b64: b64_encoding(csi_bytes(c)),
        time_ps: picoseconds(received_ns(c, true)),
        mac_timestamp: shared_time(c, offset),
    }
}

/// The exchanges after the channel state of the frames was matched to them, one
/// frame after the other.
pub open spec fn frames_matched(
    reports: Seq<FtmReportRecord>,
    buffer: Seq<CsiData>,
    offset: i64,
) -> Seq<FtmReportRecord>
    decreases buffer.len(),
{
    if buffer.len() == 0 {
        reports
    } else {
        frames_matched(matched(reports, frame_sample(buffer[0], offset)), buffer.skip(1), offset)
    }
}

/// The host reads channel state from five fields: two channels, the measurement, the time
/// in nanoseconds, which it counts in picoseconds, and the time of the shared clock; all of
/// them whatever numbers they are.
#[verifier::rlimit(50)]
pub proof fn lemma_sample_read(
    m: Seq<Seq<u8>>,
    i: int,
    channel: u32,
    channel2: u32,
    payload: Seq<char>,
    ns: u64,
    clock: u64,
)
    requires
        0 <= i,
        i + 5 <= m.len(),
        is_field_text(payload),
        is_tight(payload),
        m[i] == ascii_bytes(dec(channel as nat)),
        m[i + 1] == ascii_bytes(dec(channel2 as nat)),
        m[i + 2] == ascii_bytes(payload),
        m[i + 3] == ascii_bytes(dec(ns as nat)),
        m[i + 4] == ascii_bytes(dec(clock as nat)),
    ensures
        match sample_at(m, i) {
            Ok(s) => {
                &&& s.channel == channel
                &&& s.channel2 == channel2
                &&& s.payload_b64 == payload
                &&& (s.time_ps - 1000 * ns) % 0x1_0000_0000_0000_0000 == 0
                &&& (s.mac_timestamp - clock) % 0x1_0000_0000_0000_0000 == 0
            },
            Err(_) => false,
        },
{
    let seq_label = "Invalid UTF-8 in seq: "@;
    let number_label = "Invalid seq: "@;
    lemma_read_dec(channel as nat, seq_label, number_label, u32::MAX as nat);
    lemma_read_dec(channel2 as nat, seq_label, number_label, u32::MAX as nat);
    lemma_read_text(payload, "Invalid UTF-8 in tgt_mac: "@);
    lemma_read_dec(ns as nat, seq_label, number_label, u64::MAX as nat);
    lemma_read_dec(clock as nat, seq_label, number_label, u64::MAX as nat);
    lemma_picoseconds(ns, 0);
    lemma_as_signed(clock);
}

/// The channel states of frames as the host reads them.
pub open spec fn frame_samples(buffer: Seq<CsiData>, offset: i64) -> Seq<Sample> {
    buffer.map_values(|c: CsiData| frame_sample(c, offset))
}

/// The channel state of every frame is given out, as that of any message.
proof fn lemma_frames_served(reports: Seq<FtmReportRecord>, buffer: Seq<CsiData>, offset: i64)
    ensures
        frames_matched(reports, buffer, offset).len() == reports.len(),
        forall|k: int|
            0 <= k < reports.len() ==> served(
                reports,
                frame_samples(buffer, offset),
                k,
                #[trigger] frames_matched(reports, buffer, offset)[k],
            ),
    decreases buffer.len(),
{
    let samples = frame_samples(buffer, offset);
    let after = frames_matched(reports, buffer, offset);
    if buffer.len() == 0 {
        assert forall|k: int| 0 <= k < reports.len() implies served(
            reports,
            samples,
            k,
            #[trigger] after[k],
        ) by {
            assert(unclaimed(reports, samples, k));
        }
    } else {
        let mid = matched(reports, frame_sample(buffer[0], offset));
        assert(samples[0] == frame_sample(buffer[0], offset));
        if reports.len() > 0 {
            lemma_matched(reports, samples[0], 0);
        } else {
            assert(mid.len() == 0);
        }
        lemma_frames_served(mid, buffer.skip(1), offset);
        assert(samples.skip(1) =~= frame_samples(buffer.skip(1), offset));
        assert forall|k: int| 0 <= k < reports.len() implies served(
            reports,
            samples,
            k,
            #[trigger] after[k],
        ) by {
            lemma_served_step(reports, samples, k, after[k]);
        }
    }
}

/// A frame goes to the exchange at `k` of a session: less than 2000 ps lie between them,
/// and at least as many between the frame and every exchange before that one but the first.
pub open spec fn frame_goes_to(report: FtmReport, c: CsiData, k: int) -> bool {
    &&& apart_64(1000 * received_ns(c, true), report.exchanges()[k].t2 as int) < 2000
    &&& forall|j: int|
        1 <= j < k ==> apart_64(
            1000 * received_ns(c, true),
            (#[trigger] report.exchanges()[j]).t2 as int,
        ) >= 2000
}

/// A time in nanoseconds is counted in picoseconds.
#[verifier::rlimit(50)]
proof fn lemma_picoseconds(ns: u64, t2: u64)
    ensures
        (picoseconds(ns) - 1000 * ns) % 0x1_0000_0000_0000_0000 == 0,
        apart_64(picoseconds(ns) as int, t2 as int) == apart_64(1000 * ns, t2 as int),
{
    let v = ns.wrapping_mul(1000);
    lemma_as_signed(v);
    let time = picoseconds(ns) as int;
    let turns = (1000 * ns) / 0x1_0000_0000_0000_0000;
    assert(v == 1000 * ns - turns * 0x1_0000_0000_0000_0000);
    lemma_mod_multiples_vanish(-turns, 1000 * ns - t2, 0x1_0000_0000_0000_0000);
    lemma_mod_multiples_vanish(-(turns + 1), 1000 * ns - t2, 0x1_0000_0000_0000_0000);
    lemma_mod_multiples_vanish(-turns, 0, 0x1_0000_0000_0000_0000);
    lemma_mod_multiples_vanish(-(turns + 1), 0, 0x1_0000_0000_0000_0000);
    if v < 0x8000_0000_0000_0000 {
        assert(time - 1000 * ns == 0x1_0000_0000_0000_0000 * (-turns) + 0);
        assert(time - t2 == 0x1_0000_0000_0000_0000 * (-turns) + (1000 * ns - t2));
    } else {
        assert(time - 1000 * ns == 0x1_0000_0000_0000_0000 * (-(turns + 1)) + 0);
        assert(time - t2 == 0x1_0000_0000_0000_0000 * (-(turns + 1)) + (1000 * ns - t2));
    }
}

/// The host gives the channel state of a frame to the exchange that the frame goes to.
proof fn lemma_takes_frame(
    report: FtmReport,
    c: CsiData,
    offset: i64,
    own_mac: Seq<char>,
    k: int,
)
    requires
        1 <= k < report.exchanges().len(),
    ensures
        takes(
            entry_records(own_mac, mac_text(report.meta.peer_mac@), report.exchanges().skip(1)),
            frame_sample(c, offset).time_ps as int,
            k - 1,
        ) == frame_goes_to(report, c, k),
{
    let entries = report.exchanges();
    let reports = entry_records(own_mac, mac_text(report.meta.peer_mac@), entries.skip(1));
    let time = frame_sample(c, offset).time_ps as int;
    assert forall|j: int| 0 <= j < reports.len() implies (#[trigger] reports[j]).t2 == entries[j
        + 1].t2 by {}
    lemma_picoseconds(received_ns(c, true), entries[k].t2);
    assert(reports[k - 1].t2 == entries[k].t2);
    if takes(reports, time, k - 1) {
        assert forall|j: int| 1 <= j < k implies apart_64(
            1000 * received_ns(c, true),
            (#[trigger] report.exchanges()[j]).t2 as int,
        ) >= 2000 by {
            lemma_picoseconds(received_ns(c, true), entries[j].t2);
            assert(reports[j - 1].t2 == entries[j].t2);
        }
    }
    if frame_goes_to(report, c, k) {
        assert forall|j: int| 0 <= j < k - 1 implies apart_64(
            time,
            (#[trigger] reports[j]).t2 as int,
        ) >= 2000 by {
            lemma_picoseconds(received_ns(c, true), entries[j + 1].t2);
            let e = report.exchanges()[j + 1];
            assert(apart_64(1000 * received_ns(c, true), e.t2 as int) >= 2000);
        }
    }
}

/// The host keeps every exchange of a session but the first to which a frame goes, with the
/// channel state of the last such frame, however many there are. Gives its place.
#[verifier::rlimit(50)]
pub proof fn lemma_session_attached(
    report: FtmReport,
    buffer: Seq<CsiData>,
    offset: i64,
    own_mac: Seq<char>,
    t_ms: u64,
    k: int,
    q: int,
) -> (i: int)
    requires
        report.wf(),
        1 <= k < report.exchanges().len(),
        0 <= q < buffer.len(),
        frame_goes_to(report, buffer[q], k),
        forall|r: int|
            q < r < buffer.len() ==> !frame_goes_to(report, #[trigger] buffer[r], k),
        b64_encoding(csi_bytes(buffer[q])).len() > 0,
    ensures
        ({
            let kept = session_record(report, buffer, offset, own_mac, t_ms).reports;
            let e = report.exchanges()[k];
            &&& 0 <= i < kept.len()
            &&& kept[i].dlog_token == e.dlog_token
            &&& kept[i].rssi == e.rssi
            &&& kept[i].t1 == e.t1
            &&& kept[i].t2 == e.t2
            &&& kept[i].t3 == e.t3
            &&& kept[i].t4 == e.t4
            &&& kept[i].payload_b64 == b64_encoding(csi_bytes(buffer[q]))
            &&& kept[i].channel == buffer[q].channel
            &&& kept[i].channel2 == buffer[q].channel2
            &&& kept[i].mac_timestamp == shared_time(buffer[q], offset)
        }),
{
    let entries = report.exchanges().skip(1);
    let reports = entry_records(own_mac, mac_text(report.meta.peer_mac@), entries);
    let samples = frame_samples(buffer, offset);
    let with = frames_matched(reports, buffer, offset);
    lemma_frames_served(reports, buffer, offset);
    assert forall|r: int| 0 <= r < buffer.len() implies takes(
        reports,
        (#[trigger] samples[r]).time_ps as int,
        k - 1,
    ) == frame_goes_to(report, buffer[r], k) by {
        lemma_takes_frame(report, buffer[r], offset, own_mac, k);
    }
    assert(takes(reports, samples[q].time_ps as int, k - 1));
    assert(served(reports, samples, k - 1, with[k - 1]));
    let p = choose|p: int| #[trigger]
        is_last_claim(reports, samples, k - 1, p) && with[k - 1] == (FtmReportRecord {
            channel: samples[p].channel,
            channel2: samples[p].channel2,
            payload_b64: samples[p].payload_b64,
            mac_timestamp: samples[p].mac_timestamp,
            ..reports[k - 1]
        });
    if p < q {
        assert(!takes(reports, samples[q].time_ps as int, k - 1));
    } else if p > q {
        assert(frame_goes_to(report, buffer[p], k));
    }
    let places = lemma_keeps(with);
    assert(with[k - 1].payload_b64.len() > 0);
    assert(places.contains(k - 1));
    choose|i: int| 0 <= i < places.len() && places[i] == k - 1
}

/// The place of the `r`th field on the `k`th frame, where the first has `start`.
spec fn place(start: int, k: int, r: int) -> int {
    start + 5 * k + r
}

/// Where the fields on a frame stand.
proof fn lemma_frame_fields_at(buffer: Seq<CsiData>, offset: i64, j: int, r: int)
    requires
        0 <= j < buffer.len(),
        0 <= r < 5,
    ensures
        frame_fields(buffer, offset).len() == 5 * buffer.len(),
        frame_fields(buffer, offset)[5 * j + r] == sample_fields(
            buffer[j],
            shared_time(buffer[j], offset),
            b64_encoding(csi_bytes(buffer[j])),
        )[r],
    decreases buffer.len(),
{
    let init = buffer.drop_last();
    if init.len() == 0 {
        assert(frame_fields(init, offset).len() == 0);
    } else {
        lemma_frame_fields_at(init, offset, if j < init.len() {
            j
        } else {
            0
        }, r);
    }
}

/// The host reads the exchanges of a session from the second on, up to the mark.
proof fn lemma_burst(
    own_mac: Seq<char>,
    tgt_mac: Seq<char>,
    m: Seq<Seq<u8>>,
    entries: Seq<FtmEntry>,
    i: int,
)
    requires
        1 <= i <= entries.len(),
        m.len() > 3 + entries.len(),
        forall|k: int|
            0 <= k < entries.len() ==> m[3 + k] == ascii_bytes(
                b64_encoding(entry_bytes(#[trigger] entries[k])),
            ),
        m[3 + entries.len() as int] == ascii_bytes("CSI"@),
        readable(entries, Seq::empty()),
    ensures
        burst(own_mac, tgt_mac, m, 3 + i) == Ok::<(Seq<FtmReportRecord>, int), Seq<char>>(
            (entry_records(own_mac, tgt_mac, entries.skip(i)), 4 + entries.len() as int),
        ),
    decreases entries.len() - i,
{
    reveal_strlit("CSI");
    let label = "Invalid UTF-8 in tgt_mac: "@;
    let rest = entry_records(own_mac, tgt_mac, entries.skip(i));
    if i == entries.len() {
        assert(is_field_text("CSI"@));
        lemma_read_text("CSI"@, label);
        assert(rest =~= Seq::empty());
    } else {
        let e = entries[i];
        let text = b64_encoding(entry_bytes(e));
        assert(is_b64_text(text));
        assert(is_field_text(text));
        assert(is_tight(text));
        lemma_read_text(text, label);
        assert(text != "CSI"@) by {
            assert(text.len() == 56);
        }
        lemma_entry_round_trip(own_mac, tgt_mac, e);
        let more = entry_records(own_mac, tgt_mac, entries.skip(i + 1));
        lemma_burst(own_mac, tgt_mac, m, entries, i + 1);
        assert(payload_reports(own_mac, tgt_mac, b64_decoding(m[3 + i])) == Ok::<
            Seq<FtmReportRecord>,
            Seq<char>,
        >(seq![entry_record(own_mac, tgt_mac, e)]));
        assert(rest =~= seq![entry_record(own_mac, tgt_mac, e)] + more);
    }
}

/// The host reads the channel state of a frame of a session.
proof fn lemma_sample_at(m: Seq<Seq<u8>>, i: int, c: CsiData, offset: i64)
    requires
        0 <= i,
        i + 5 <= m.len(),
        is_b64_text(b64_encoding(csi_bytes(c))),
        shared_time(c, offset) >= 0,
        m[i] == ascii_bytes(dec(c.channel as nat)),
        m[i + 1] == ascii_bytes(dec(c.channel2 as nat)),
        m[i + 2] == ascii_bytes(b64_encoding(csi_bytes(c))),
        m[i + 3] == ascii_bytes(dec(received_ns(c, true) as nat)),
        m[i + 4] == ascii_bytes(signed_dec(shared_time(c, offset) as int)),
    ensures
        sample_at(m, i) == Ok::<Sample, Seq<char>>(frame_sample(c, offset)),
{
    let seq_label = "Invalid UTF-8 in seq: "@;
    let number_label = "Invalid seq: "@;
    let encoded = b64_encoding(csi_bytes(c));
    let time = shared_time(c, offset);
    lemma_read_dec(c.channel as nat, seq_label, number_label, u32::MAX as nat);
    lemma_read_dec(c.channel2 as nat, seq_label, number_label, u32::MAX as nat);
    assert(is_field_text(encoded));
    assert(is_tight(encoded));
    lemma_read_text(encoded, "Invalid UTF-8 in tgt_mac: "@);
    lemma_read_dec(received_ns(c, true) as nat, seq_label, number_label, u64::MAX as nat);
    lemma_read_dec(time as nat, seq_label, number_label, u64::MAX as nat);
    assert(time >= 0 ==> time as u64 as i64 == time) by (bit_vector);
    assert(time as nat as u64 as i64 == time);
}

/// The host matches the channel state of all frames of a session, from the `j`th
/// on.
proof fn lemma_all_matched(
    reports: Seq<FtmReportRecord>,
    m: Seq<Seq<u8>>,
    start: int,
    buffer: Seq<CsiData>,
    offset: i64,
    j: int,
)
    requires
        0 <= j <= buffer.len(),
        0 <= start,
        m.len() == start + 5 * buffer.len() + 1,
        readable(Seq::empty(), buffer),
        forall|k: int| 0 <= k < buffer.len() ==> shared_time(#[trigger] buffer[k], offset) >= 0,
        forall|k: int, r: int|
            0 <= k < buffer.len() && 0 <= r < 5 ==> m[#[trigger] place(start, k, r)] == ascii_bytes(
                sample_fields(
                    buffer[k],
                    shared_time(buffer[k], offset),
                    b64_encoding(csi_bytes(buffer[k])),
                )[r],
            ),
    ensures
        all_matched(reports, m, start + 5 * j) == Ok::<Seq<FtmReportRecord>, Seq<char>>(
            frames_matched(reports, buffer.skip(j), offset),
        ),
    decreases buffer.len() - j,
{
    if j < buffer.len() {
        let c = buffer[j];
        let i = start + 5 * j;
        assert(place(start, j, 0) == i);
        assert(place(start, j, 1) == i + 1);
        assert(place(start, j, 2) == i + 2);
        assert(place(start, j, 3) == i + 3);
        assert(place(start, j, 4) == i + 4);
        lemma_sample_at(m, i, c, offset);
        let next = matched(reports, frame_sample(c, offset));
        lemma_all_matched(next, m, start, buffer, offset, j + 1);
        assert(buffer.skip(j)[0] == c);
        assert(buffer.skip(j).skip(1) =~= buffer.skip(j + 1));
        assert(i + 5 == start + 5 * (j + 1));
    }
}

/// What the host keeps of a session: the exchanges but the first, with the
/// channel state of the frames that are near to them in time, and none without.
pub open spec fn session_record(
    report: FtmReport,
    buffer: Seq<CsiData>,
    offset: i64,
    own_mac: Seq<char>,
    t_ms: u64,
) -> FtmRecord {
    let tgt_mac = mac_text(report.meta.peer_mac@);
    FtmRecord {
        t_ms,
        own_mac,
        tgt_mac,
        seq: 0,
        reports: frames_matched(
            entry_records(own_mac, tgt_mac, report.exchanges().skip(1)),
            buffer,
            offset,
        ).filter(|r: FtmReportRecord| has_csi(r)),
    }
}

/// Where the fields of the message on a session stand.
proof fn lemma_ftm_places(report: FtmReport, buffer: Seq<CsiData>, offset: i64)
    requires
        report.wf(),
        buffer.len() >= 1,
    ensures
        ftm_fields(report, buffer, offset).len() == 5 + report.exchanges().len() + 5 * buffer.len(),
        ftm_fields(report, buffer, offset)[0] == "FTM"@,
        ftm_fields(report, buffer, offset)[1] == mac_text(report.meta.peer_mac@),
        ftm_fields(report, buffer, offset)[2] == dec(report.meta.num_entries as nat),
        forall|k: int|
            0 <= k < report.exchanges().len() ==> ftm_fields(report, buffer, offset)[3 + k]
                == b64_encoding(entry_bytes(#[trigger] report.exchanges()[k])),
        ftm_fields(report, buffer, offset)[3 + report.exchanges().len() as int] == "CSI"@,
        forall|k: int, r: int|
            0 <= k < buffer.len() && 0 <= r < 5 ==> ftm_fields(report, buffer, offset)[
                #[trigger] place(4 + report.exchanges().len() as int, k, r)
            ] == sample_fields(
                buffer[k],
                shared_time(buffer[k], offset),
                b64_encoding(csi_bytes(buffer[k])),
            )[r],
        ftm_fields(report, buffer, offset).last() == Seq::<char>::empty(),
{
    let f = ftm_fields(report, buffer, offset);
    let entries = report.exchanges();
    let n = entries.len() as int;
    let frames = frame_fields(buffer, offset);
    let start = 4 + n;
    lemma_frame_fields_at(buffer, offset, 0, 0);
    assert forall|k: int| 0 <= k < n implies f[3 + k] == b64_encoding(
        entry_bytes(#[trigger] entries[k]),
    ) by {
        assert(entry_fields(entries)[k] == f[3 + k]);
    }
    assert forall|k: int, r: int| 0 <= k < buffer.len() && 0 <= r < 5 implies f[
        #[trigger] place(start, k, r)
    ] == sample_fields(
        buffer[k],
        shared_time(buffer[k], offset),
        b64_encoding(csi_bytes(buffer[k])),
    )[r] by {
        lemma_frame_fields_at(buffer, offset, k, r);
        assert(f[place(start, k, r)] == frames[5 * k + r]);
    }
}

/// All fields of the message on a session can stand in one.
proof fn lemma_ftm_field_texts(report: FtmReport, buffer: Seq<CsiData>, offset: i64)
    requires
        report.wf(),
        buffer.len() >= 1,
        readable(report.exchanges(), buffer),
    ensures
        forall|i: int|
            0 <= i < ftm_fields(report, buffer, offset).len() ==> is_field_text(
                #[trigger] ftm_fields(report, buffer, offset)[i],
            ),
{
    let f = ftm_fields(report, buffer, offset);
    let entries = report.exchanges();
    let n = entries.len() as int;
    let start = 4 + n;
    lemma_ftm_places(report, buffer, offset);
    reveal_strlit("FTM");
    reveal_strlit("CSI");
    assert(is_field_text("FTM"@));
    assert(is_field_text("CSI"@));
    lemma_mac_field(report.meta.peer_mac@);
    lemma_dec_field(report.meta.num_entries as nat);
    assert forall|i: int| 0 <= i < f.len() implies is_field_text(#[trigger] f[i]) by {
        if 3 <= i < 3 + n {
            let e = entries[i - 3];
            assert(f[3 + (i - 3)] == b64_encoding(entry_bytes(e)));
            assert(is_b64_text(b64_encoding(entry_bytes(e))));
        } else if start <= i < start + 5 * buffer.len() {
            let k = (i - start) / 5;
            let r = (i - start) % 5;
            let c = buffer[k];
            assert(i == place(start, k, r));
            let g = sample_fields(c, shared_time(c, offset), b64_encoding(csi_bytes(c)));
            lemma_sample_message(c, shared_time(c, offset), b64_encoding(csi_bytes(c)));
            assert(f[i] == g[r]);
            assert(is_field_text(g[r]));
        } else if i >= start + 5 * buffer.len() {
            assert(f[i] == f.last());
        }
    }
}

/// What an FTM message says, step by step.
proof fn lemma_ftm_of(
    m: Seq<Seq<u8>>,
    own_mac: Seq<char>,
    t_ms: u64,
    tgt_mac: Seq<char>,
    reports: Seq<FtmReportRecord>,
    next: int,
    with: Seq<FtmReportRecord>,
)
    requires
        m.len() >= 4,
        trimmed_field(m[1], "Invalid UTF-8 in tgt_mac: "@) == Ok::<Seq<char>, Seq<char>>(tgt_mac),
        unsigned_field(
            m[2],
            "Invalid UTF-8 in seq: "@,
            "Invalid seq: "@,
            u32::MAX as nat,
        ) is Ok,
        burst(own_mac, tgt_mac, m, 4) == Ok::<(Seq<FtmReportRecord>, int), Seq<char>>(
            (reports, next),
        ),
        all_matched(reports, m, next) == Ok::<Seq<FtmReportRecord>, Seq<char>>(with),
    ensures
        ftm_of(m, own_mac, t_ms) == Ok::<FtmRecord, Seq<char>>(
            FtmRecord {
                t_ms,
                own_mac,
                tgt_mac,
                seq: 0,
                reports: with.filter(|r: FtmReportRecord| has_csi(r)),
            },
        ),
{
}

/// The host reads back what a node reports of a session with at least one
/// exchange and at least one frame, as far as it keeps it. The times of the shared
/// clock must not be negative: the host refuses such a time.
pub proof fn lemma_ftm_round_trip(
    report: FtmReport,
    buffer: Seq<CsiData>,
    offset: i64,
    own_mac: Seq<char>,
    t_ms: u64,
)
    requires
        report.wf(),
        report.meta.num_entries >= 1,
        buffer.len() >= 1,
        readable(report.exchanges(), buffer),
        forall|k: int| 0 <= k < buffer.len() ==> shared_time(#[trigger] buffer[k], offset) >= 0,
    ensures
        line_outcome(frame_text(ftm_fields(report, buffer, offset)), own_mac, t_ms) == Some(
            OutcomeRecord::Event(
                EspRecord::FTM(session_record(report, buffer, offset, own_mac, t_ms)),
            ),
        ),
{
    let f = ftm_fields(report, buffer, offset);
    let m = ascii_fields(f);
    let entries = report.exchanges();
    let start = 4 + entries.len() as int;
    let tgt_mac = mac_text(report.meta.peer_mac@);
    lemma_ftm_places(report, buffer, offset);
    lemma_ftm_field_texts(report, buffer, offset);
    lemma_fields_of_frame(f);
    lemma_kinds("FTM"@);
    lemma_mac_field(report.meta.peer_mac@);
    lemma_read_text(tgt_mac, "Invalid UTF-8 in tgt_mac: "@);
    lemma_read_dec(
        report.meta.num_entries as nat,
        "Invalid UTF-8 in seq: "@,
        "Invalid seq: "@,
        u32::MAX as nat,
    );
    assert forall|k: int| 0 <= k < entries.len() implies m[3 + k] == ascii_bytes(
        b64_encoding(entry_bytes(#[trigger] entries[k])),
    ) by {
        assert(f[3 + k] == b64_encoding(entry_bytes(entries[k])));
    }
    lemma_burst(own_mac, tgt_mac, m, entries, 1);
    let reports = entry_records(own_mac, tgt_mac, entries.skip(1));
    assert forall|k: int, r: int| 0 <= k < buffer.len() && 0 <= r < 5 implies m[
        #[trigger] place(start, k, r)
    ] == ascii_bytes(
        sample_fields(
            buffer[k],
            shared_time(buffer[k], offset),
            b64_encoding(csi_bytes(buffer[k])),
        )[r],
    ) by {
        assert(m[place(start, k, r)] == ascii_bytes(f[place(start, k, r)]));
    }
    lemma_all_matched(reports, m, start, buffer, offset, 0);
    assert(buffer.skip(0) =~= buffer);
    lemma_ftm_of(
        m,
        own_mac,
        t_ms,
        tgt_mac,
        reports,
        start,
        frames_matched(reports, buffer, offset),
    );
    assert(ftm_of(m, own_mac, t_ms) == Ok::<FtmRecord, Seq<char>>(
        session_record(report, buffer, offset, own_mac, t_ms),
    ));
}

/// The host reads the exchanges of a session without frames from the second on,
/// to the end.
proof fn lemma_open_burst(
    own_mac: Seq<char>,
    tgt_mac: Seq<char>,
    m: Seq<Seq<u8>>,
    entries: Seq<FtmEntry>,
    i: int,
)
    requires
        1 <= i <= entries.len(),
        m.len() == 4 + entries.len(),
        forall|k: int|
            0 <= k < entries.len() ==> m[3 + k] == ascii_bytes(
                b64_encoding(entry_bytes(#[trigger] entries[k])),
            ),
        m[3 + entries.len() as int] == Seq::<u8>::empty(),
        readable(entries, Seq::empty()),
        decodes_to(Seq::empty(), Seq::empty()),
    ensures
        burst(own_mac, tgt_mac, m, 3 + i) == Ok::<(Seq<FtmReportRecord>, int), Seq<char>>(
            (entry_records(own_mac, tgt_mac, entries.skip(i)), 4 + entries.len() as int),
        ),
    decreases entries.len() - i,
{
    reveal_strlit("CSI");
    let label = "Invalid UTF-8 in tgt_mac: "@;
    let rest = entry_records(own_mac, tgt_mac, entries.skip(i));
    if i == entries.len() {
        let none = Seq::<char>::empty();
        assert(ascii_bytes(none) =~= Seq::<u8>::empty());
        lemma_read_text(none, label);
        assert(rest =~= Seq::empty());
        assert(exchanges(own_mac, tgt_mac, Seq::empty()) =~= Seq::empty());
        assert(burst(own_mac, tgt_mac, m, 4 + i) == Ok::<(Seq<FtmReportRecord>, int), Seq<char>>(
            (Seq::empty(), 4 + i),
        ));
        assert(Seq::<FtmReportRecord>::empty() + Seq::<FtmReportRecord>::empty()
            =~= Seq::<FtmReportRecord>::empty());
    } else {
        let e = entries[i];
        let text = b64_encoding(entry_bytes(e));
        assert(is_b64_text(text));
        assert(is_field_text(text));
        assert(is_tight(text));
        lemma_read_text(text, label);
        assert(text != "CSI"@) by {
            assert(text.len() == 56);
        }
        lemma_entry_round_trip(own_mac, tgt_mac, e);
        let more = entry_records(own_mac, tgt_mac, entries.skip(i + 1));
        lemma_open_burst(own_mac, tgt_mac, m, entries, i + 1);
        assert(payload_reports(own_mac, tgt_mac, b64_decoding(m[3 + i])) == Ok::<
            Seq<FtmReportRecord>,
            Seq<char>,
        >(seq![entry_record(own_mac, tgt_mac, e)]));
        assert(rest =~= seq![entry_record(own_mac, tgt_mac, e)] + more);
    }
}

/// Without channel state nothing is kept.
proof fn lemma_none_kept(own_mac: Seq<char>, tgt_mac: Seq<char>, entries: Seq<FtmEntry>)
    ensures
        entry_records(own_mac, tgt_mac, entries).filter(|r: FtmReportRecord| has_csi(r)) == Seq::<
            FtmReportRecord,
        >::empty(),
    decreases entries.len(),
{
    reveal(Seq::filter);
    let all = entry_records(own_mac, tgt_mac, entries);
    if entries.len() > 0 {
        lemma_none_kept(own_mac, tgt_mac, entries.drop_last());
        assert(all.drop_last() =~= entry_records(own_mac, tgt_mac, entries.drop_last()));
        assert(!has_csi(all.last()));
    }
}

/// The host reads what a node reports of a session without frames, and keeps none
/// of its exchanges.
pub proof fn lemma_ftm_without_frames(
    report: FtmReport,
    offset: i64,
    own_mac: Seq<char>,
    t_ms: u64,
)
    requires
        report.wf(),
        readable(report.exchanges(), Seq::empty()),
        decodes_to(Seq::empty(), Seq::empty()),
    ensures
        line_outcome(frame_text(ftm_fields(report, Seq::empty(), offset)), own_mac, t_ms) == Some(
            OutcomeRecord::Event(
                EspRecord::FTM(
                    FtmRecord {
                        t_ms,
                        own_mac,
                        tgt_mac: mac_text(report.meta.peer_mac@),
                        seq: 0,
                        reports: Seq::empty(),
                    },
                ),
            ),
        ),
{
    let f = ftm_fields(report, Seq::empty(), offset);
    let m = ascii_fields(f);
    let entries = report.exchanges();
    let n = entries.len() as int;
    let tgt_mac = mac_text(report.meta.peer_mac@);
    assert(f.len() == 4 + n);
    assert forall|k: int| 0 <= k < n implies f[3 + k] == b64_encoding(
        entry_bytes(#[trigger] entries[k]),
    ) by {
        assert(entry_fields(entries)[k] == f[3 + k]);
    }
    assert(f[3 + n] == Seq::<char>::empty());
    reveal_strlit("FTM");
    assert(is_field_text("FTM"@));
    lemma_mac_field(report.meta.peer_mac@);
    lemma_dec_field(report.meta.num_entries as nat);
    assert forall|i: int| 0 <= i < f.len() implies is_field_text(#[trigger] f[i]) by {
        if 3 <= i < 3 + n {
            let e = entries[i - 3];
            assert(f[3 + (i - 3)] == b64_encoding(entry_bytes(e)));
            assert(is_b64_text(b64_encoding(entry_bytes(e))));
        }
    }
    lemma_fields_of_frame(f);
    lemma_kinds("FTM"@);
    lemma_read_text(tgt_mac, "Invalid UTF-8 in tgt_mac: "@);
    lemma_read_dec(
        report.meta.num_entries as nat,
        "Invalid UTF-8 in seq: "@,
        "Invalid seq: "@,
        u32::MAX as nat,
    );
    assert forall|k: int| 0 <= k < entries.len() implies m[3 + k] == ascii_bytes(
        b64_encoding(entry_bytes(#[trigger] entries[k])),
    ) by {
        assert(f[3 + k] == b64_encoding(entry_bytes(entries[k])));
    }
    assert(m[3 + n] =~= Seq::<u8>::empty());
    let rest = if n == 0 {
        entries
    } else {
        entries.skip(1)
    };
    let reports = entry_records(own_mac, tgt_mac, rest);
    if n == 0 {
        assert(reports =~= Seq::empty());
    } else {
        lemma_open_burst(own_mac, tgt_mac, m, entries, 1);
    }
    lemma_ftm_of(m, own_mac, t_ms, tgt_mac, reports, 4 + n, reports);
    lemma_none_kept(own_mac, tgt_mac, rest);
}

/// The host matches a frame to an exchange just where the node does.
pub proof fn lemma_same_match(own_mac: Seq<char>, tgt_mac: Seq<char>, c: CsiData, e: FtmEntry)
    ensures
        is_near(entry_record(own_mac, tgt_mac, e), picoseconds(received_ns(c, true))) == belongs(
            c,
            e,
        ),
{
    let ns = received_ns(c, true);
    lemma_picoseconds(ns, e.t2);
    lemma_is_near(entry_record(own_mac, tgt_mac, e), picoseconds(ns));
    lemma_belongs(c, e);
}

/// The host learns the address of a node from the message that names it, wherever
/// it stands in a line of the log; the first address stays.
pub proof fn lemma_id_round_trip(
    pre: Seq<char>,
    mac: Seq<u8>,
    post: Seq<char>,
    known: Option<Seq<char>>,
    t_ms: u64,
)
    requires
        forall|i: int| 0 <= i < pre.len() ==> '\0' <= #[trigger] pre[i] <= '\x7f' && pre[i] != '\x02',
        forall|i: int| 0 <= i < post.len() ==> '\0' <= #[trigger] post[i] <= '\x7f',
    ensures
        match fields_of(
            encode_utf8(
                pre + (seq!['\x02'] + joined(id_fields(mac), '\x01') + seq!['\x03']) + post,
            ),
        ) {
            Some(m) => {
                &&& mac_ok(m)
                &&& outcome_of(known, m, t_ms) == OutcomeRecord::Ignored
                &&& mac_after(known, m) == (match known {
                    Some(first) => Some(first),
                    None => Some(mac_text(mac)),
                })
            },
            None => false,
        },
{
    let f = id_fields(mac);
    let m = ascii_fields(f);
    let line = pre + (seq!['\x02'] + joined(f, '\x01') + seq!['\x03']) + post;
    reveal_strlit("MAC");
    lemma_mac_field(mac);
    assert(is_field_text("MAC"@));
    assert forall|i: int| 0 <= i < f.len() implies is_field_text(#[trigger] f[i]) by {}
    lemma_frame_ascii(f);
    assert forall|i: int| 0 <= i < line.len() implies '\0' <= #[trigger] line[i] <= '\x7f' by {
        let body = joined(f, '\x01');
        let k = i - pre.len();
        if k < 0 {
            assert(line[i] == pre[i]);
        } else if 1 <= k < 1 + body.len() {
            assert(line[i] == body[k - 1]);
        } else if k >= 2 + body.len() {
            assert(line[i] == post[k - 2 - body.len()]);
        }
    }
    lemma_ascii_utf8(line);
    lemma_field_bytes(f);
    let before = ascii_bytes(pre);
    assert forall|i: int| 0 <= i < before.len() implies before[i] != START by {
        assert(before[i] == pre[i] as u8);
    }
    lemma_fields_in_line(before, m, ascii_bytes(post));
    assert(ascii_bytes(line) =~= before + seq![START] + joined(m, DELIMITER) + seq![END]
        + ascii_bytes(post));
    lemma_kinds("MAC"@);
    lemma_ascii_utf8(mac_text(mac));
    lemma_trimmed_same(mac_text(mac));
    assert(m[0] == ascii_bytes("MAC"@));
    assert(m[1] == ascii_bytes(mac_text(mac)));
}

/// A node reads the line that the host sends for a command as the command itself.
pub proof fn lemma_command_round_trip(cmd: Seq<char>)
    ensures
        command_of(cmd.push('\n')) == command_of(cmd),
        arguments_of(cmd.push('\n')) == arguments_of(cmd),
{
    lemma_trimmed_push(cmd, '\n');
}

} // verus!
