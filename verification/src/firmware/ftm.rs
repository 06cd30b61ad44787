//! Ranging sessions with peers: when they start, what comes of them, and how
//! they are reported.
use vstd::prelude::*;
use crate::b64::{b64_encode, b64_encoding, decodes_to, is_b64_text};
use crate::bytes::{
    le_bytes, le_value, lemma_le_bytes_len, lemma_le_round_trip, lemma_pow256, push_le,
};
use crate::firmware::csi::{
    csi_bytes, dump_csi_buf, lengths_ok, message_str, message_text, message_texts, sample_fields,
    session_pieces, shared_time, CsiData, FtmCsiState,
};
use crate::firmware::espnow::{
    send_ftm_notification, sync_of, FtmSyncPacket, Transmission, SYNC_PACKET_LEN,
};
use crate::firmware::peers::{
    distinct, has_room, lemma_place_of, lemma_with_peer_distinct, place_of, with_peer,
    PeerContactStats, PeerInfo, PeerList,
};
use crate::firmware::ticks::{millis, TICKS_PER_MS};
use crate::frame::{frame_text, joined};
use crate::text::{ascii_bytes, dec, mac_text, push_dec, push_mac};

verus! {

/// The most exchanges that a session reports.
pub const MAX_FTM_ENTRIES: usize = 64;

/// When a peer is ranged next, and how far its numbering has come. Times are in
/// ticks.
#[derive(Clone, Copy, Debug)]
pub struct PeerFtmStats {
    pub next_contact_after: u64,
    pub seq: u32,
    pub should_init: bool,
}

/// Whether a node starts sessions, how many frames it asks for in each, and
/// whether it estimates ranges itself.
pub struct FtmState {
    pub mute: bool,
    pub num_burst: i32,
    pub estimate_range: bool,
}

/// The numbers of frames that a session can ask for.
pub open spec fn is_burst(n: i32) -> bool {
    n == 16 || n == 24 || n == 25 || n == 32 || n == 64
}

impl FtmState {
    /// The radio can send as many frames as the node asks for.
    pub open spec fn wf(&self) -> bool {
        is_burst(self.num_burst)
    }

    /// A node starts out mute, and asks for 16 frames.
    pub fn new() -> (r: Self)
        ensures
            r.wf(),
            r == (FtmState { mute: true, num_burst: 16, estimate_range: false }),
    {
        FtmState { mute: true, num_burst: 16, estimate_range: false }
    }
}

/// Has a node start sessions or not.
pub fn set_mute(state: &mut FtmState, mute: bool)
    ensures
        *final(state) == (FtmState { mute, ..*old(state) }),
{
    state.mute = mute;
}

/// Sets the number of frames in a session, if a session can ask for so many.
pub fn set_burst(state: &mut FtmState, num_burst: i32) -> (r: bool)
    ensures
        r == is_burst(num_burst),
        *final(state) == (if is_burst(num_burst) {
            FtmState { num_burst, ..*old(state) }
        } else {
            *old(state)
        }),
        old(state).wf() ==> final(state).wf(),
{
    if num_burst == 16 || num_burst == 24 || num_burst == 25 || num_burst == 32 || num_burst
        == 64 {
        state.num_burst = num_burst;
        true
    } else {
        false
    }
}

/// Has a node estimate ranges itself or not.
pub fn set_run_wipro(state: &mut FtmState, run: bool)
    ensures
        *final(state) == (FtmState { estimate_range: run, ..*old(state) }),
{
    state.estimate_range = run;
}

/// What the radio says of a session as a whole.
#[derive(Clone, Copy)]
pub struct FtmReportMetadata {
    pub peer_mac: [u8; 6],
    pub _rtt_raw: u32,
    pub _rtt_est: u32,
    pub _dist_est: u32,
    pub _status: u32,
    pub num_entries: u8,
}

impl FtmReportMetadata {
    /// No more exchanges are reported than there is room for.
    pub open spec fn wf(&self) -> bool {
        self.num_entries <= MAX_FTM_ENTRIES
    }
}

/// Takes in what the radio says of a session.
pub fn report_metadata(
    peer_mac: [u8; 6],
    rtt_raw: u32,
    rtt_est: u32,
    dist_est: u32,
    status: u32,
    num_entries: u8,
) -> (r: FtmReportMetadata)
    ensures
        r.wf(),
        r == (FtmReportMetadata {
            peer_mac,
            _rtt_raw: rtt_raw,
            _rtt_est: rtt_est,
            _dist_est: dist_est,
            _status: status,
            num_entries: if num_entries <= 64 {
                num_entries
            } else {
                64
            },
        }),
{
    FtmReportMetadata {
        peer_mac,
        _rtt_raw: rtt_raw,
        _rtt_est: rtt_est,
        _dist_est: dist_est,
        _status: status,
        num_entries: if num_entries <= 64 {
            num_entries
        } else {
            64
        },
    }
}

/// One exchange of a session: its token, its signal strength, its round-trip
/// time, and when the frame and its answer left and arrived, in picoseconds.
#[derive(Clone, Copy, Debug, PartialEq, Eq, Structural)]
pub struct FtmEntry {
    pub dlog_token: u8,
    pub rssi: i8,
    pub rtt: u32,
    pub t1: u64,
    pub t2: u64,
    pub t3: u64,
    pub t4: u64,
}

/// The 40 bytes of an exchange: its fields in order, in little-endian order,
/// with two bytes of zeros before the round-trip time.
pub open spec fn entry_bytes(e: FtmEntry) -> Seq<u8> {
    seq![e.dlog_token, e.rssi as u8, 0u8, 0u8] + le_bytes(e.rtt as nat, 4) + le_bytes(
        e.t1 as nat,
        8,
    ) + le_bytes(e.t2 as nat, 8) + le_bytes(e.t3 as nat, 8) + le_bytes(e.t4 as nat, 8)
}

/// The bytes of an exchange.
pub fn ftm_entry_bytes(e: &FtmEntry) -> (r: Vec<u8>)
    ensures
        r@ == entry_bytes(*e),
        r@.len() == 40,
{
    let mut out: Vec<u8> = Vec::new();
    out.push(e.dlog_token);
    out.push(e.rssi as u8);
    out.push(0);
    out.push(0);
    assert(out@ =~= seq![e.dlog_token, e.rssi as u8, 0u8, 0u8]);
    push_le(&mut out, e.rtt as u64, 4);
    push_le(&mut out, e.t1, 8);
    push_le(&mut out, e.t2, 8);
    push_le(&mut out, e.t3, 8);
    push_le(&mut out, e.t4, 8);
    proof {
        lemma_le_bytes_len(e.rtt as nat, 4);
        lemma_le_bytes_len(e.t1 as nat, 8);
        lemma_le_bytes_len(e.t2 as nat, 8);
        lemma_le_bytes_len(e.t3 as nat, 8);
        lemma_le_bytes_len(e.t4 as nat, 8);
    }
    out
}

/// Where the fields of an exchange stand in its bytes: the token, the signal strength, the
/// round-trip time from the fifth on, and the four times from the ninth on.
pub proof fn lemma_entry_places(e: FtmEntry)
    ensures
        entry_bytes(e).len() == 40,
        entry_bytes(e)[0] == e.dlog_token,
        (entry_bytes(e)[1] - e.rssi) % 256 == 0,
        le_value(entry_bytes(e).subrange(4, 8)) == e.rtt,
        le_value(entry_bytes(e).subrange(8, 16)) == e.t1,
        le_value(entry_bytes(e).subrange(16, 24)) == e.t2,
        le_value(entry_bytes(e).subrange(24, 32)) == e.t3,
        le_value(entry_bytes(e).subrange(32, 40)) == e.t4,
{
    let b = entry_bytes(e);
    lemma_le_bytes_len(e.rtt as nat, 4);
    lemma_le_bytes_len(e.t1 as nat, 8);
    lemma_le_bytes_len(e.t2 as nat, 8);
    lemma_le_bytes_len(e.t3 as nat, 8);
    lemma_le_bytes_len(e.t4 as nat, 8);
    lemma_pow256();
    lemma_le_round_trip(e.rtt as nat, 4);
    lemma_le_round_trip(e.t1 as nat, 8);
    lemma_le_round_trip(e.t2 as nat, 8);
    lemma_le_round_trip(e.t3 as nat, 8);
    lemma_le_round_trip(e.t4 as nat, 8);
    assert(b.subrange(4, 8) =~= le_bytes(e.rtt as nat, 4));
    assert(b.subrange(8, 16) =~= le_bytes(e.t1 as nat, 8));
    assert(b.subrange(16, 24) =~= le_bytes(e.t2 as nat, 8));
    assert(b.subrange(24, 32) =~= le_bytes(e.t3 as nat, 8));
    assert(b.subrange(32, 40) =~= le_bytes(e.t4 as nat, 8));
    let rssi = e.rssi;
    assert(rssi >= 0 ==> rssi as u8 == rssi) by (bit_vector);
    assert(rssi < 0 ==> rssi as u8 == rssi + 256) by (bit_vector);
}

/// An exchange that did not take place.
pub open spec fn no_entry() -> FtmEntry {
    FtmEntry { dlog_token: 0, rssi: 0, rtt: 0, t1: 0, t2: 0, t3: 0, t4: 0 }
}

/// What a session gave: what is said of it as a whole, and its exchanges, of
/// which the first `num_entries` count.
#[derive(Clone, Copy)]
pub struct FtmReport {
    pub meta: FtmReportMetadata,
    pub entries: [FtmEntry; 64],
}

impl FtmReport {
    /// No more exchanges count than there are.
    pub open spec fn wf(&self) -> bool {
        self.meta.wf()
    }

    /// The exchanges that count.
    pub open spec fn exchanges(&self) -> Seq<FtmEntry> {
        self.entries@.take(self.meta.num_entries as int)
    }

    /// Collects a report from what the radio wrote.
    pub fn new(meta: FtmReportMetadata, written: &[FtmEntry]) -> (r: Self)
        requires
            meta.wf(),
            meta.num_entries <= written@.len(),
        ensures
            r.wf(),
            r.meta == meta,
            r.exchanges() == written@.take(meta.num_entries as int),
            forall|k: int| meta.num_entries <= k < 64 ==> #[trigger] r.entries@[k] == no_entry(),
    {
        let zero = FtmEntry { dlog_token: 0, rssi: 0, rtt: 0, t1: 0, t2: 0, t3: 0, t4: 0 };
        let mut entries: [FtmEntry; 64] = [zero;64];
        let n: usize = meta.num_entries as usize;
        let mut i: usize = 0;
        while i < n
            invariant
                i <= n <= 64,
                n <= written@.len(),
                forall|k: int| 0 <= k < i ==> entries@[k] == written@[k],
                forall|k: int| i <= k < 64 ==> entries@[k] == no_entry(),
            decreases n - i,
        {
            entries[i] = written[i];
            i += 1;
        }
        let r = FtmReport { meta, entries };
        assert(r.exchanges() =~= written@.take(meta.num_entries as int));
        r
    }
}

/// As many exchanges count as the radio said, from the first on.
pub proof fn lemma_exchanges_count(r: FtmReport, k: int)
    requires
        r.wf(),
        0 <= k < r.meta.num_entries,
    ensures
        r.exchanges().len() == r.meta.num_entries,
        r.exchanges()[k] == r.entries@[k],
{
}

/// The session that the radio is asked for.
#[derive(Clone, Copy)]
pub struct SessionConfig {
    pub resp_mac: [u8; 6],
    pub channel: u8,
    pub frm_count: u8,
    /// In hundreds of milliseconds.
    pub burst_period: u16,
    pub use_get_report_api: bool,
    /// How many frames with channel state are kept: two for each exchange.
    pub csi_capacity: usize,
}

/// The session that the radio is asked for.
pub fn session_config(peer_bssid: [u8; 6], channel: u8, n_ftm: i32) -> (r: SessionConfig)
    ensures
        r == (SessionConfig {
            resp_mac: peer_bssid,
            channel,
            frm_count: n_ftm as u8,
            burst_period: 2,
            use_get_report_api: true,
            csi_capacity: n_ftm.wrapping_mul(2) as usize,
        }),
{
    SessionConfig {
        resp_mac: peer_bssid,
        channel,
        frm_count: n_ftm as u8,
        burst_period: 2,
        use_get_report_api: true,
        csi_capacity: n_ftm.wrapping_mul(2) as usize,
    }
}

/// What has happened in a session.
#[derive(Clone, Copy)]
pub enum SessionEvent {
    /// The radio was asked to start it, and answered.
    Asked(i32),
    /// The radio is done, and has said this of the session, or nothing.
    Done(Option<FtmReportMetadata>),
    /// The radio was asked for the exchanges, and answered.
    Fetched(i32),
}

/// What is to be done next in a session.
#[derive(Clone, Copy)]
pub enum SessionStep {
    /// Wait until the radio is done.
    Wait,
    /// Ask the radio for so many exchanges.
    Fetch(u8),
    /// Report the session.
    Publish,
    /// Drop the frames that were kept, and give up with this code.
    DropAndFail(i32),
    /// Give up with this code.
    Fail(i32),
}

/// What is to be done after an event in a session. A code of zero is success.
pub fn session_step(event: SessionEvent) -> (r: SessionStep)
    ensures
        r == (match event {
            SessionEvent::Asked(code) => if code == 0 {
                SessionStep::Wait
            } else {
                SessionStep::DropAndFail(code)
            },
            SessionEvent::Done(Some(meta)) => SessionStep::Fetch(meta.num_entries),
            SessionEvent::Done(None) => SessionStep::Fail(1),
            SessionEvent::Fetched(code) => if code == 0 {
                SessionStep::Publish
            } else {
                SessionStep::Fail(code)
            },
        }),
{
    match event {
        SessionEvent::Asked(code) => {
            if code == 0 {
                SessionStep::Wait
            } else {
                SessionStep::DropAndFail(code)
            }
        },
        SessionEvent::Done(meta) => {
            match meta {
                Some(meta) => SessionStep::Fetch(meta.num_entries),
                None => SessionStep::Fail(1),
            }
        },
        SessionEvent::Fetched(code) => {
            if code == 0 {
                SessionStep::Publish
            } else {
                SessionStep::Fail(code)
            }
        },
    }
}

/// Fields, each with a delimiter behind it.
pub open spec fn terminated(fields: Seq<Seq<char>>) -> Seq<char>
    decreases fields.len(),
{
    if fields.len() == 0 {
        Seq::empty()
    } else {
        terminated(fields.drop_last()) + fields.last().push('\x01')
    }
}

/// The exchanges of a session as text, one field each.
pub open spec fn entry_fields(entries: Seq<FtmEntry>) -> Seq<Seq<char>> {
    entries.map_values(|e: FtmEntry| b64_encoding(entry_bytes(e)))
}

/// The fields on the frames of a session, five for each frame.
pub open spec fn frame_fields(buffer: Seq<CsiData>, offset: i64) -> Seq<Seq<char>>
    decreases buffer.len(),
{
    if buffer.len() == 0 {
        Seq::empty()
    } else {
        frame_fields(buffer.drop_last(), offset) + sample_fields(
            buffer.last(),
            shared_time(buffer.last(), offset),
            b64_encoding(csi_bytes(buffer.last())),
        )
    }
}

/// The fields of the message on a session: the peer, the number of exchanges,
/// each exchange, and a mark and the frames where there are any. The last field
/// is empty.
pub open spec fn ftm_fields(report: FtmReport, buffer: Seq<CsiData>, offset: i64) -> Seq<
    Seq<char>,
> {
    let head = seq!["FTM"@, mac_text(report.meta.peer_mac@), dec(report.meta.num_entries as nat)]
        + entry_fields(report.exchanges());
    let frames = if buffer.len() == 0 {
        Seq::empty()
    } else {
        seq!["CSI"@] + frame_fields(buffer, offset)
    };
    (head + frames).push(Seq::empty())
}

/// Fields with a delimiter behind each are joined with an empty one.
pub proof fn lemma_terminated(fields: Seq<Seq<char>>)
    ensures
        joined(fields.push(Seq::empty()), '\x01') == terminated(fields),
        fields.len() > 0 ==> joined(fields, '\x01').push('\x01') == terminated(fields),
    decreases fields.len(),
{
    let all = fields.push(Seq::empty());
    assert(all.drop_last() =~= fields);
    if fields.len() == 0 {
        assert(joined(all, '\x01') =~= Seq::<char>::empty());
    } else {
        let init = fields.drop_last();
        lemma_terminated(init);
        if init.len() == 0 {
            assert(terminated(fields) =~= fields[0].push('\x01'));
        } else {
            assert(joined(fields, '\x01') == joined(init, '\x01').push('\x01') + fields.last());
            assert((terminated(init) + fields.last()).push('\x01') =~= terminated(init)
                + fields.last().push('\x01'));
        }
        assert(joined(all, '\x01') =~= joined(fields, '\x01').push('\x01'));
    }
}

/// Terminated fields one after the other.
pub proof fn lemma_terminated_add(a: Seq<Seq<char>>, b: Seq<Seq<char>>)
    ensures
        terminated(a + b) == terminated(a) + terminated(b),
    decreases b.len(),
{
    if b.len() == 0 {
        assert(a + b =~= a);
        assert(terminated(a) + terminated(b) =~= terminated(a));
    } else {
        lemma_terminated_add(a, b.drop_last());
        assert((a + b).drop_last() =~= a + b.drop_last());
        assert(terminated(a) + (terminated(b.drop_last()) + b.last().push('\x01')) =~= terminated(a)
            + terminated(b.drop_last()) + b.last().push('\x01'));
    }
}

/// One more terminated field.
proof fn lemma_terminated_push(a: Seq<Seq<char>>, f: Seq<char>)
    ensures
        terminated(a.push(f)) == terminated(a) + f.push('\x01'),
{
    assert(a.push(f).drop_last() =~= a);
}

/// An exchange as text, with a delimiter behind it.
fn entry_text(e: &FtmEntry) -> (r: String)
    ensures
        r@ == b64_encoding(entry_bytes(*e)).push('\x01'),
        b64_encoding(entry_bytes(*e)).len() == 56,
        is_b64_text(b64_encoding(entry_bytes(*e))),
        decodes_to(ascii_bytes(b64_encoding(entry_bytes(*e))), entry_bytes(*e)),
{
    let bytes: Vec<u8> = ftm_entry_bytes(e);
    let mut text: String = b64_encode(bytes.as_slice());
    text.push('\x01');
    text
}

/// Every payload in the message on a session is read as what it was made of.
pub open spec fn readable(entries: Seq<FtmEntry>, buffer: Seq<CsiData>) -> bool {
    &&& forall|i: int|
        0 <= i < entries.len() ==> {
            let e = #[trigger] entries[i];
            b64_encoding(entry_bytes(e)).len() == 56 && is_b64_text(b64_encoding(entry_bytes(e)))
                && decodes_to(ascii_bytes(b64_encoding(entry_bytes(e))), entry_bytes(e))
        }
    &&& forall|i: int|
        0 <= i < buffer.len() ==> {
            let c = #[trigger] buffer[i];
            is_b64_text(b64_encoding(csi_bytes(c))) && decodes_to(
                ascii_bytes(b64_encoding(csi_bytes(c))),
                csi_bytes(c),
            )
        }
}

/// The message on a session. It ends the keeping of frames.
pub fn ftm_message(state: &mut FtmCsiState, report: &FtmReport, offset: i64) -> (r: String)
    requires
        report.wf(),
        lengths_ok(old(state).buffer@),
    ensures
        r@ == frame_text(ftm_fields(*report, old(state).buffer@, offset)),
        readable(report.exchanges(), old(state).buffer@),
        !final(state).active,
        final(state).mac == old(state).mac,
        final(state).capacity == old(state).capacity,
        final(state).buffer@.len() == 0,
{
    let ghost buffer = state.buffer@;
    let ghost exchanges = report.exchanges();
    let mut out: String = String::new();
    let ghost mut f: Seq<Seq<char>> = seq!["FTM"@];
    out.append("FTM");
    out.push('\x01');
    proof {
        lemma_terminated_push(Seq::empty(), "FTM"@);
        assert(Seq::<Seq<char>>::empty().push("FTM"@) =~= f);
        assert(out@ =~= terminated(f));
    }
    push_mac(&mut out, &report.meta.peer_mac);
    out.push('\x01');
    proof {
        lemma_terminated_push(f, mac_text(report.meta.peer_mac@));
        f = f.push(mac_text(report.meta.peer_mac@));
        assert(out@ =~= terminated(f));
    }
    push_dec(&mut out, report.meta.num_entries as u64);
    out.push('\x01');
    proof {
        lemma_terminated_push(f, dec(report.meta.num_entries as nat));
        f = f.push(dec(report.meta.num_entries as nat));
        assert(out@ =~= terminated(f));
    }
    let ghost head = f;
    let n: usize = report.meta.num_entries as usize;
    let mut i: usize = 0;
    proof {
        assert(entry_fields(exchanges.take(0)) =~= Seq::<Seq<char>>::empty());
        assert(head + Seq::<Seq<char>>::empty() =~= head);
    }
    while i < n
        invariant
            i <= n <= 64,
            n == report.meta.num_entries,
            exchanges == report.exchanges(),
            exchanges.len() == n,
            out@ == terminated(head + entry_fields(exchanges.take(i as int))),
            readable(exchanges.take(i as int), Seq::empty()),
        decreases n - i,
    {
        let text = entry_text(&report.entries[i]);
        out.append(text.as_str());
        proof {
            let e = exchanges[i as int];
            let done = entry_fields(exchanges.take(i as int));
            assert(e == report.entries@[i as int]);
            assert(exchanges.take(i + 1) =~= exchanges.take(i as int).push(e));
            assert(entry_fields(exchanges.take(i + 1)) =~= done.push(
                b64_encoding(entry_bytes(e)),
            ));
            assert(head + done.push(b64_encoding(entry_bytes(e))) =~= (head + done).push(
                b64_encoding(entry_bytes(e)),
            ));
            lemma_terminated_push(head + done, b64_encoding(entry_bytes(e)));
        }
        i += 1;
    }
    proof {
        assert(exchanges.take(n as int) =~= exchanges);
        f = head + entry_fields(exchanges);
    }
    match dump_csi_buf(state, true, offset) {
        Some(pieces) => {
            assert(message_texts(pieces@).len() == pieces@.len());
            assert(session_pieces(buffer, offset).len() == buffer.len() + 1);
            let mut k: usize = 0;
            while k < pieces.len()
                invariant
                    k <= pieces@.len(),
                    pieces@.len() == buffer.len() + 1,
                    buffer.len() > 0,
                    message_texts(pieces@) == session_pieces(buffer, offset),
                    out@ == (if k == 0 {
                        terminated(f)
                    } else {
                        terminated(f.push("CSI"@) + frame_fields(buffer.take(k - 1), offset))
                    }),
                decreases pieces@.len() - k,
            {
                out.append(message_str(&pieces[k]));
                proof {
                    let texts = session_pieces(buffer, offset);
                    assert(message_text(pieces@[k as int]) == texts[k as int]);
                    let g = f.push("CSI"@);
                    if k == 0 {
                        reveal_strlit("CSI");
                        reveal_strlit("CSI\x01");
                        assert("CSI\x01"@ =~= "CSI"@.push('\x01'));
                        lemma_terminated_push(f, "CSI"@);
                        assert(g + frame_fields(buffer.take(0), offset) =~= g);
                    } else {
                        let c = buffer[k - 1];
                        let fields = sample_fields(
                            c,
                            shared_time(c, offset),
                            b64_encoding(csi_bytes(c)),
                        );
                        let before = frame_fields(buffer.take(k - 1), offset);
                        assert(buffer.take(k as int).drop_last() =~= buffer.take(k - 1));
                        assert(buffer.take(k as int).last() == c);
                        lemma_terminated(fields);
                        lemma_terminated_add(g + before, fields);
                        assert(g + (before + fields) =~= g + before + fields);
                    }
                }
                k += 1;
            }
            proof {
                assert(buffer.take(buffer.len() as int) =~= buffer);
                assert(f + (seq!["CSI"@] + frame_fields(buffer, offset)) =~= f.push("CSI"@)
                    + frame_fields(buffer, offset));
                f = f + (seq!["CSI"@] + frame_fields(buffer, offset));
            }
        },
        None => {
            proof {
                assert(f + Seq::<Seq<char>>::empty() =~= f);
            }
        },
    }
    proof {
        lemma_terminated(f);
        assert(head =~= seq![
            "FTM"@,
            mac_text(report.meta.peer_mac@),
            dec(report.meta.num_entries as nat),
        ]);
        assert(f.push(Seq::empty()) =~= ftm_fields(*report, buffer, offset));
    }
    let mut line: String = String::new();
    line.push('\x02');
    line.append(out.as_str());
    line.push('\x03');
    line.push('\r');
    line.push('\n');
    assert(line@ =~= frame_text(ftm_fields(*report, buffer, offset)));
    line
}

/// The announcement of a ranging session by a peer, and when it came in.
#[derive(Clone, Copy)]
pub struct FtmNotification {
    pub peer_mac: [u8; 6],
    pub sync_info: FtmSyncPacket,
    pub _rx_mac_time: i64,
}

/// Prepares the announcement of a finished session for the peer that it was with,
/// if that is known: with the peer's number, and with the time of the shared
/// clock.
pub fn session_announcement(peers: &PeerList, report: &FtmReport, mac_raw: i64, offset: i64) -> (r:
    Option<Transmission>)
    ensures
        match r {
            Some(t) => {
                let k = place_of(peers@, report.meta.peer_mac, 0);
                &&& k < peers@.len()
                &&& t.peer == report.meta.peer_mac
                &&& t.data@.len() == SYNC_PACKET_LEN
                &&& sync_of(t.data@) == Some(
                    FtmSyncPacket {
                        sequence: peers@[k].ftm_stats.seq,
                        is_initiator: if peers@[k].ftm_stats.should_init {
                            1
                        } else {
                            0
                        },
                        mac_time: mac_raw.wrapping_add(offset),
                    },
                )
            },
            None => place_of(peers@, report.meta.peer_mac, 0) == peers@.len(),
        },
{
    proof {
        lemma_place_of(peers@, report.meta.peer_mac, 0);
    }
    match peers.find_by_bssid(&report.meta.peer_mac) {
        Some(p) => {
            match send_ftm_notification(
                &p.bssid,
                p.ftm_stats.seq,
                p.ftm_stats.should_init,
                mac_raw,
                offset,
            ) {
                Ok(t) => Some(t),
                Err(_) => None,
            }
        },
        None => None,
    }
}

/// What is known of a peer after it announced a session: it is on this node's
/// channel, and can be ranged from now on.
pub open spec fn announced(n: FtmNotification, channel: u8, now: u64) -> PeerInfo {
    PeerInfo {
        bssid: n.peer_mac,
        ftm_stats: PeerFtmStats {
            next_contact_after: now,
            seq: n.sync_info.sequence,
            should_init: true,
        },
        contact_stats: PeerContactStats { last_seen: now, rssi: 0, channel },
    }
}

/// Takes in the announcement of a session by a peer.
pub fn ftm_notification(peers: &mut PeerList, n: &FtmNotification, channel: u8, now: u64)
    requires
        old(peers).wf(),
        has_room(old(peers)@, n.peer_mac),
    ensures
        final(peers).wf(),
        final(peers)@ == with_peer(old(peers)@, announced(*n, channel, now)),
{
    let ghost before = peers@;
    let peer = PeerInfo {
        bssid: n.peer_mac,
        ftm_stats: PeerFtmStats {
            next_contact_after: now,
            seq: n.sync_info.sequence,
            should_init: true,
        },
        contact_stats: PeerContactStats { last_seen: now, rssi: 0, channel },
    };
    proof {
        lemma_place_of(before, peer.bssid, 0);
        lemma_with_peer_distinct(before, peer);
    }
    let _ = peers.add_or_update(peer);
    assert(peers@ =~= with_peer(before, peer));
}

/// The time for a session with a peer has come.
pub open spec fn is_due(p: PeerInfo, now: u64) -> bool {
    now >= p.ftm_stats.next_contact_after
}

/// Among the first `n` peers, the one whose time came first; where there are
/// several, the first of them.
pub open spec fn most_overdue(peers: Seq<PeerInfo>, now: u64, n: nat) -> Option<int>
    decreases n,
{
    if n == 0 {
        None
    } else {
        let p = peers[n - 1];
        match most_overdue(peers, now, (n - 1) as nat) {
            None => if is_due(p, now) {
                Some(n - 1)
            } else {
                None
            },
            Some(k) => if is_due(p, now) && p.ftm_stats.next_contact_after
                < peers[k].ftm_stats.next_contact_after {
                Some(n - 1)
            } else {
                Some(k)
            },
        }
    }
}

/// Of the peers whose time has come, none has been waiting for longer than the
/// one that is ranged next; and one is ranged next wherever there are any.
pub proof fn lemma_most_overdue(peers: Seq<PeerInfo>, now: u64, n: nat)
    requires
        n <= peers.len(),
    ensures
        match most_overdue(peers, now, n) {
            Some(k) => {
                &&& 0 <= k < n
                &&& is_due(peers[k], now)
                &&& forall|j: int|
                    0 <= j < n && is_due(#[trigger] peers[j], now)
                        ==> peers[k].ftm_stats.next_contact_after
                        <= peers[j].ftm_stats.next_contact_after
            },
            None => forall|j: int| 0 <= j < n ==> !is_due(#[trigger] peers[j], now),
        },
    decreases n,
{
    if n > 0 {
        lemma_most_overdue(peers, now, (n - 1) as nat);
    }
}

/// How long a node rests where no peer is due: until the first of the first `n`
/// peers is, and a millisecond more, but a second at most.
pub open spec fn idle_ticks(peers: Seq<PeerInfo>, now: u64, n: nat) -> int
    decreases n,
{
    if n == 0 {
        1000 * TICKS_PER_MS
    } else {
        let rest = idle_ticks(peers, now, (n - 1) as nat);
        let until = peers[n - 1].ftm_stats.next_contact_after - now + TICKS_PER_MS;
        if !is_due(peers[n - 1], now) && until <= rest {
            until
        } else {
            rest
        }
    }
}

/// When a peer is ranged again: after the interval, or ten of them where it is
/// the peer that starts sessions.
pub open spec fn next_contact(p: PeerInfo, now: u64, interval_ms: u64) -> int {
    now + (if p.ftm_stats.should_init {
        interval_ms * TICKS_PER_MS
    } else {
        interval_ms * 10 * TICKS_PER_MS
    })
}

/// The times that a node computes with when it looks for a peer to range fit
/// into 64 bits.
pub open spec fn contact_fits(peers: Seq<PeerInfo>, now: u64, interval_ms: u64) -> bool {
    &&& forall|j: int|
        0 <= j < peers.len() ==> (is_due(#[trigger] peers[j], now)
            || peers[j].ftm_stats.next_contact_after - now + TICKS_PER_MS <= u64::MAX)
    &&& most_overdue(peers, now, peers.len()) matches Some(k) ==> next_contact(
        peers[k],
        now,
        interval_ms,
    ) <= u64::MAX
}

/// A peer after it was looked at: it has its next time, and a new number if it is
/// ranged.
pub open spec fn contacted(p: PeerInfo, now: u64, interval_ms: u64, is_mute: bool) -> PeerInfo {
    PeerInfo {
        ftm_stats: PeerFtmStats {
            next_contact_after: next_contact(p, now, interval_ms) as u64,
            seq: if !is_mute && p.ftm_stats.should_init {
                p.ftm_stats.seq.wrapping_add(1)
            } else {
                p.ftm_stats.seq
            },
            ..p.ftm_stats
        },
        ..p
    }
}

/// A peer that was looked at is due again when its interval is over, and not before:
/// the interval that was set, however long, for a peer that this node starts sessions
/// with, and ten of them for another. Only its time changes, and its number, which
/// goes up by one where a session is started.
pub proof fn lemma_due_again(p: PeerInfo, now: u64, interval_ms: u64, is_mute: bool, t: u64)
    requires
        p.ftm_stats.should_init ==> now + 1000 * interval_ms <= u64::MAX,
        !p.ftm_stats.should_init ==> now + 10_000 * interval_ms <= u64::MAX,
    ensures
        p.ftm_stats.should_init ==> (is_due(contacted(p, now, interval_ms, is_mute), t) <==> t
            >= now + 1000 * interval_ms),
        !p.ftm_stats.should_init ==> (is_due(contacted(p, now, interval_ms, is_mute), t) <==> t
            >= now + 10_000 * interval_ms),
        contacted(p, now, interval_ms, is_mute).ftm_stats.next_contact_after == now + (
        if p.ftm_stats.should_init {
            1000 * interval_ms
        } else {
            10_000 * interval_ms
        }),
        contacted(p, now, interval_ms, is_mute).bssid == p.bssid,
        contacted(p, now, interval_ms, is_mute).contact_stats == p.contact_stats,
        contacted(p, now, interval_ms, is_mute).ftm_stats.should_init == p.ftm_stats.should_init,
        is_mute || !p.ftm_stats.should_init ==> contacted(
            p,
            now,
            interval_ms,
            is_mute,
        ).ftm_stats.seq == p.ftm_stats.seq,
        !is_mute && p.ftm_stats.should_init ==> contacted(
            p,
            now,
            interval_ms,
            is_mute,
        ).ftm_stats.seq == (p.ftm_stats.seq + 1) % 0x1_0000_0000,
{
    assert(interval_ms * 10 * TICKS_PER_MS == 10_000 * interval_ms) by (nonlinear_arith)
        requires
            TICKS_PER_MS == 1000,
    ;
}

/// A peer is due from its time on.
pub proof fn lemma_due_from(p: PeerInfo, now: u64)
    ensures
        is_due(p, now) <==> p.ftm_stats.next_contact_after <= now,
{
}

/// The peer that is looked at next is due, has been for at least as long as any other
/// that is, and for longer than those before it; and there is one just where a peer is
/// due.
pub proof fn lemma_longest_due(peers: Seq<PeerInfo>, now: u64, n: nat)
    requires
        n <= peers.len(),
    ensures
        match most_overdue(peers, now, n) {
            Some(k) => {
                &&& 0 <= k < n
                &&& peers[k].ftm_stats.next_contact_after <= now
                &&& forall|j: int|
                    0 <= j < n ==> peers[k].ftm_stats.next_contact_after <= (
                    #[trigger] peers[j]).ftm_stats.next_contact_after
                &&& forall|j: int|
                    0 <= j < k ==> peers[k].ftm_stats.next_contact_after < (
                    #[trigger] peers[j]).ftm_stats.next_contact_after
            },
            None => forall|j: int|
                0 <= j < n ==> (#[trigger] peers[j]).ftm_stats.next_contact_after > now,
        },
    decreases n,
{
    if n > 0 {
        lemma_longest_due(peers, now, (n - 1) as nat);
    }
}

/// The rest is as long as was asked, but 300 ms at least.
pub proof fn lemma_least_rest(ticks: int)
    ensures
        ticks >= 300_000 ==> at_least_300_ms(ticks) == ticks,
        ticks < 300_000 ==> at_least_300_ms(ticks) == 300_000,
{
}

/// Where no peer is due, a node rests until a millisecond after the first of them is,
/// but for 300 ms at least and for a second at most.
pub proof fn lemma_rest(peers: Seq<PeerInfo>, now: u64, n: nat)
    requires
        n <= peers.len(),
        forall|j: int| 0 <= j < n ==> (#[trigger] peers[j]).ftm_stats.next_contact_after > now,
    ensures
        ({
            let rest = at_least_300_ms(idle_ticks(peers, now, n));
            &&& 300_000 <= rest <= 1_000_000
            &&& forall|j: int|
                0 <= j < n ==> rest == 300_000 || now + rest <= (
                #[trigger] peers[j]).ftm_stats.next_contact_after + 1000
            &&& rest == 1_000_000 || exists|j: int|
                0 <= j < n && now + rest >= (#[trigger] peers[j]).ftm_stats.next_contact_after
                    + 1000
        }),
    decreases n,
{
    if n > 0 {
        lemma_rest(peers, now, (n - 1) as nat);
        let before = at_least_300_ms(idle_ticks(peers, now, (n - 1) as nat));
        if before != 1_000_000 {
            let j = choose|j: int|
                0 <= j < n - 1 && now + before >= (
                #[trigger] peers[j]).ftm_stats.next_contact_after + 1000;
            assert(0 <= j < n && now + before >= peers[j].ftm_stats.next_contact_after + 1000);
        }
        assert(peers[n - 1].ftm_stats.next_contact_after > now);
    }
}

/// A node can look for a peer wherever the times it computes with fit into 64 bits.
pub proof fn lemma_contact_fits(peers: Seq<PeerInfo>, now: u64, interval_ms: u64)
    requires
        now + 10_000 * interval_ms <= u64::MAX,
        forall|j: int|
            0 <= j < peers.len() ==> (#[trigger] peers[j]).ftm_stats.next_contact_after
                <= u64::MAX - 1000,
    ensures
        contact_fits(peers, now, interval_ms),
{
    lemma_longest_due(peers, now, peers.len());
    assert(interval_ms * 10 * TICKS_PER_MS == 10_000 * interval_ms) by (nonlinear_arith)
        requires
            TICKS_PER_MS == 1000,
    ;
}

/// A peer that announces a session is known afterwards, as seen now on this node's
/// channel. One that was known keeps its time and number, and a new one is due now and
/// has the number that it announced. All others stay as they are.
pub proof fn lemma_announced(
    peers: Seq<PeerInfo>,
    n: FtmNotification,
    channel: u8,
    now: u64,
    k: int,
)
    requires
        distinct(peers),
        0 <= k < with_peer(peers, announced(n, channel, now)).len(),
    ensures
        ({
            let after = with_peer(peers, announced(n, channel, now));
            &&& peers.len() <= after.len() <= peers.len() + 1
            &&& exists|j: int| 0 <= j < after.len() && (#[trigger] after[j]).bssid == n.peer_mac
            &&& after[k].bssid == n.peer_mac ==> after[k].contact_stats == (PeerContactStats {
                last_seen: now,
                rssi: 0,
                channel,
            })
            &&& k < peers.len() ==> after[k].ftm_stats == peers[k].ftm_stats && after[k].bssid
                == peers[k].bssid
            &&& k < peers.len() && peers[k].bssid != n.peer_mac ==> after[k] == peers[k]
            &&& k >= peers.len() ==> after[k].bssid == n.peer_mac && after[k].ftm_stats == (
            PeerFtmStats {
                next_contact_after: now,
                seq: n.sync_info.sequence,
                should_init: true,
            })
        }),
{
    lemma_place_of(peers, n.peer_mac, 0);
    let after = with_peer(peers, announced(n, channel, now));
    let j = place_of(peers, n.peer_mac, 0);
    assert(after[j].bssid == n.peer_mac);
}

/// What a node does next: range a peer, if there is one to range, and then rest.
#[derive(Clone, Copy)]
pub struct ContactPlan {
    pub contact: Option<PeerInfo>,
    pub rest_ticks: u64,
}

/// The rest is never shorter than 300 ms: sessions any closer break.
pub open spec fn at_least_300_ms(ticks: int) -> int {
    if ticks < 300 * TICKS_PER_MS {
        300 * TICKS_PER_MS
    } else {
        ticks
    }
}

/// The place of the peer that is ranged next.
fn find_most_overdue(peers: &PeerList, now: u64) -> (r: Option<usize>)
    ensures
        match r {
            Some(k) => most_overdue(peers@, now, peers@.len()) == Some(k as int) && k
                < peers@.len(),
            None => most_overdue(peers@, now, peers@.len()) is None,
        },
{
    let all: &[PeerInfo] = peers.all();
    let mut best: Option<usize> = None;
    let mut i: usize = 0;
    while i < all.len()
        invariant
            i <= all@.len(),
            all@ == peers@,
            match best {
                Some(k) => most_overdue(peers@, now, i as nat) == Some(k as int) && k < i,
                None => most_overdue(peers@, now, i as nat) is None,
            },
        decreases all@.len() - i,
    {
        let time: u64 = all[i].ftm_stats.next_contact_after;
        if now >= time {
            best = match best {
                None => Some(i),
                Some(k) => if time < all[k].ftm_stats.next_contact_after {
                    Some(i)
                } else {
                    Some(k)
                },
            };
        }
        i += 1;
    }
    best
}

/// Whether the times that a node computes with when it looks for a peer to range
/// fit into 64 bits.
pub fn contact_in_range(peers: &PeerList, now: u64, contact_interval_ms: u64) -> (r: bool)
    ensures
        r == contact_fits(peers@, now, contact_interval_ms),
{
    let all: &[PeerInfo] = peers.all();
    let mut i: usize = 0;
    while i < all.len()
        invariant
            i <= all@.len(),
            all@ == peers@,
            forall|j: int|
                0 <= j < i ==> (is_due(#[trigger] all@[j], now)
                    || all@[j].ftm_stats.next_contact_after - now + TICKS_PER_MS <= u64::MAX),
        decreases all@.len() - i,
    {
        let time: u64 = all[i].ftm_stats.next_contact_after;
        if now < time && time - now > u64::MAX - TICKS_PER_MS {
            assert(!is_due(all@[i as int], now));
            return false;
        }
        i += 1;
    }
    match find_most_overdue(peers, now) {
        Some(k) => {
            let factor: u64 = if all[k].ftm_stats.should_init {
                TICKS_PER_MS
            } else {
                10 * TICKS_PER_MS
            };
            proof {
                let p = all@[k as int];
                assert(contact_interval_ms * 10 * TICKS_PER_MS == contact_interval_ms * (10
                    * TICKS_PER_MS)) by (nonlinear_arith);
                assert(next_contact(p, now, contact_interval_ms) == now + contact_interval_ms
                    * factor);
            }
            match contact_interval_ms.checked_mul(factor) {
                Some(ticks) => ticks <= u64::MAX - now,
                None => false,
            }
        },
        None => true,
    }
}

/// Looks for a peer to range. The one that has been due for longest gets its next
/// time, and is ranged unless the node is mute. Says how long to rest afterwards.
pub fn contact_step(peers: &mut PeerList, now: u64, is_mute: bool, contact_interval_ms: u64) -> (r:
    ContactPlan)
    requires
        old(peers).wf(),
        contact_fits(old(peers)@, now, contact_interval_ms),
    ensures
        final(peers).wf(),
        final(peers)@.len() == old(peers)@.len(),
        300_000 <= r.rest_ticks <= 1_000_000,
        r.contact matches Some(p) ==> !is_mute && p.ftm_stats.next_contact_after <= now,
        match most_overdue(old(peers)@, now, old(peers)@.len()) {
            Some(k) => {
                &&& final(peers)@ == old(peers)@.update(
                    k,
                    contacted(old(peers)@[k], now, contact_interval_ms, is_mute),
                )
                &&& r.contact == (if is_mute {
                    None
                } else {
                    Some(old(peers)@[k])
                })
                &&& r.rest_ticks == at_least_300_ms(1 * TICKS_PER_MS)
            },
            None => {
                &&& final(peers)@ == old(peers)@
                &&& r.contact is None
                &&& r.rest_ticks == at_least_300_ms(
                    idle_ticks(old(peers)@, now, old(peers)@.len()),
                )
            },
        },
{
    let ghost before = peers@;
    let floor: u64 = millis(300);
    match find_most_overdue(peers, now) {
        Some(k) => {
            proof {
                lemma_most_overdue(before, now, before.len());
            }
            let mut contact: Option<PeerInfo> = None;
            match peers.get_mut(k) {
                Some(peer) => {
                    let copy: PeerInfo = *peer;
                    let interval: u64 = if copy.ftm_stats.should_init {
                        millis(contact_interval_ms)
                    } else {
                        millis(contact_interval_ms * 10)
                    };
                    peer.ftm_stats.next_contact_after = now + interval;
                    if !is_mute {
                        if copy.ftm_stats.should_init {
                            peer.ftm_stats.seq = copy.ftm_stats.seq.wrapping_add(1);
                        }
                        contact = Some(copy);
                    }
                },
                None => {},
            }
            assert(peers@ =~= before.update(
                k as int,
                contacted(before[k as int], now, contact_interval_ms, is_mute),
            ));
            let mut rest: u64 = millis(1);
            if rest < floor {
                rest = floor;
            }
            ContactPlan { contact, rest_ticks: rest }
        },
        None => {
            proof {
                lemma_longest_due(before, now, before.len());
                lemma_rest(before, now, before.len());
            }
            let all: &[PeerInfo] = peers.all();
            let ms: u64 = millis(1);
            let mut rest: u64 = millis(1000);
            let mut i: usize = 0;
            while i < all.len()
                invariant
                    i <= all@.len(),
                    all@ == before,
                    ms == TICKS_PER_MS,
                    forall|j: int|
                        0 <= j < before.len() ==> (is_due(#[trigger] before[j], now)
                            || before[j].ftm_stats.next_contact_after - now + TICKS_PER_MS
                            <= u64::MAX),
                    rest == idle_ticks(before, now, i as nat),
                decreases all@.len() - i,
            {
                let time: u64 = all[i].ftm_stats.next_contact_after;
                if now < time {
                    assert(!is_due(before[i as int], now));
                    let until: u64 = time - now + ms;
                    if until <= rest {
                        rest = until;
                    }
                }
                i += 1;
            }
            if rest < floor {
                rest = floor;
            }
            ContactPlan { contact: None, rest_ticks: rest }
        },
    }
}

/// How many of the first `n` peers are due.
pub open spec fn due_count(peers: Seq<PeerInfo>, now: u64, n: nat) -> nat
    decreases n,
{
    if n == 0 {
        0
    } else if is_due(peers[n - 1], now) {
        due_count(peers, now, (n - 1) as nat) + 1
    } else {
        due_count(peers, now, (n - 1) as nat)
    }
}

/// A peer that is no longer due counts for one less.
proof fn lemma_due_update(peers: Seq<PeerInfo>, now: u64, k: int, p: PeerInfo, n: nat)
    requires
        0 <= k < peers.len(),
        n <= peers.len(),
        is_due(peers[k], now),
        !is_due(p, now),
    ensures
        due_count(peers.update(k, p), now, n) == (if k < n {
            due_count(peers, now, n) - 1
        } else {
            due_count(peers, now, n) as int
        }),
    decreases n,
{
    if n > 0 {
        lemma_due_update(peers, now, k, p, (n - 1) as nat);
    }
}

/// Every peer has its turn: as long as peers are due, one of them is ranged, or
/// would be if the node were not mute, and is then not due before its interval is
/// over. So after as many steps as there are peers that are due, none is.
pub proof fn lemma_contact_progress(
    peers: Seq<PeerInfo>,
    now: u64,
    interval_ms: u64,
    is_mute: bool,
    k: int,
)
    requires
        most_overdue(peers, now, peers.len()) == Some(k),
        contact_fits(peers, now, interval_ms),
        interval_ms > 0,
    ensures
        !is_due(contacted(peers[k], now, interval_ms, is_mute), now),
        due_count(
            peers.update(k, contacted(peers[k], now, interval_ms, is_mute)),
            now,
            peers.len(),
        ) == due_count(peers, now, peers.len()) - 1,
{
    lemma_most_overdue(peers, now, peers.len());
    let p = contacted(peers[k], now, interval_ms, is_mute);
    assert(next_contact(peers[k], now, interval_ms) > now);
    lemma_due_update(peers, now, k, p, peers.len());
}

} // verus!
