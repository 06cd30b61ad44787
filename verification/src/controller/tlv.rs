//! The messages of a node: what their fields say, and the rows that are kept of
//! them.
use vstd::prelude::*;
use vstd::utf8::*;
use crate::b64::{b64_decode, b64_decoding};
use crate::bytes::{apart_64, le_value, lemma_as_signed, lemma_le_value_places, read_le};
use crate::frame::{
    field_bytes, fields_of, find, joined, next_dec, next_signed, next_text, split_range, END, START,
};
use crate::number::{
    check_float, fault_text, float_fault, float_fault_message, float_fault_text, int_fault_text,
    lemma_dec_round_trip, lemma_value_bounds, parse_i32, parse_unsigned, signed_value,
    unsigned_value, IntFault,
};
use crate::text::{ascii_bytes, dec, push_dec, signed_dec, texts};
use crate::utf8::{str_eq, str_from_utf8, trim, trimmed, utf8_fault_text};

verus! {

/// One FTM exchange of a burst, with the channel state measured in it.
#[derive(Debug, Clone)]
pub struct FTMReport {
    pub own_mac: String,
    pub tgt_mac: String,
    pub dlog_token: u8,
    pub rssi: i8,
    pub t1: u64,
    pub t2: u64,
    pub t3: u64,
    pub t4: u64,
    pub channel: u32,
    pub channel2: u32,
    pub payload_b64: String,
    pub mac_timestamp: i64,
}

/// A finished FTM session with one peer.
#[derive(Debug, Clone)]
pub struct FTMEvent {
    pub t_ms: u64,
    pub own_mac: String,
    pub tgt_mac: String,
    pub seq: u32,
    pub reports: Vec<FTMReport>,
}

/// Channel state of one received frame.
#[derive(Debug, Clone)]
pub struct CSIEvent {
    pub t_ms: u64,
    pub seq: i32,
    pub own_mac: String,
    pub tgt_mac: String,
    pub timestamp: u64,
    pub channel: u32,
    pub channel2: u32,
    pub rssi: i32,
    pub payload_b64: String,
    pub mac_timestamp: i64,
    pub sig_mode: u8,
}

/// Raw data that a node sends for debugging.
#[derive(Debug, Clone)]
pub struct DBGEvent {
    pub own_mac: String,
    pub data_type: String,
    pub len: usize,
    pub payload_b64: String,
}

/// A range that a node has estimated. The range itself, in metres, is kept as
/// the text of a number, which is also what it has in a row.
#[derive(Debug, Clone)]
pub struct RangeEvent {
    pub t_ms: u64,
    pub own_mac: String,
    pub tgt_mac: String,
    pub timestamp: u64,
    pub range: String,
}

/// What a node reports.
#[derive(Debug, Clone)]
pub enum ESPEvent {
    CSI(CSIEvent),
    FTM(FTMEvent),
    DBG(DBGEvent),
    Range(RangeEvent),
}

/// An `FTMReport` with its texts as character sequences.
pub struct FtmReportRecord {
    pub own_mac: Seq<char>,
    pub tgt_mac: Seq<char>,
    pub dlog_token: u8,
    pub rssi: i8,
    pub t1: u64,
    pub t2: u64,
    pub t3: u64,
    pub t4: u64,
    pub channel: u32,
    pub channel2: u32,
    pub payload_b64: Seq<char>,
    pub mac_timestamp: i64,
}

/// An `FTMEvent` with its texts as character sequences.
pub struct FtmRecord {
    pub t_ms: u64,
    pub own_mac: Seq<char>,
    pub tgt_mac: Seq<char>,
    pub seq: u32,
    pub reports: Seq<FtmReportRecord>,
}

/// A `CSIEvent` with its texts as character sequences.
pub struct CsiRecord {
    pub t_ms: u64,
    pub seq: i32,
    pub own_mac: Seq<char>,
    pub tgt_mac: Seq<char>,
    pub timestamp: u64,
    pub channel: u32,
    pub channel2: u32,
    pub rssi: i32,
    pub payload_b64: Seq<char>,
    pub mac_timestamp: i64,
    pub sig_mode: u8,
}

/// A `DBGEvent` with its texts as character sequences.
pub struct DbgRecord {
    pub own_mac: Seq<char>,
    pub data_type: Seq<char>,
    pub len: usize,
    pub payload_b64: Seq<char>,
}

/// A `RangeEvent` with its texts as character sequences.
pub struct RangeRecord {
    pub t_ms: u64,
    pub own_mac: Seq<char>,
    pub tgt_mac: Seq<char>,
    pub timestamp: u64,
    pub range: Seq<char>,
}

/// An `ESPEvent` with its texts as character sequences.
pub enum EspRecord {
    CSI(CsiRecord),
    FTM(FtmRecord),
    DBG(DbgRecord),
    Range(RangeRecord),
}

impl View for FTMReport {
    type V = FtmReportRecord;

    open spec fn view(&self) -> FtmReportRecord {
        FtmReportRecord {
            own_mac: self.own_mac@,
            tgt_mac: self.tgt_mac@,
            dlog_token: self.dlog_token,
            rssi: self.rssi,
            t1: self.t1,
            t2: self.t2,
            t3: self.t3,
            t4: self.t4,
            channel: self.channel,
            channel2: self.channel2,
            payload_b64: self.payload_b64@,
            mac_timestamp: self.mac_timestamp,
        }
    }
}

/// The records of a list of reports.
pub open spec fn report_records(reports: Seq<FTMReport>) -> Seq<FtmReportRecord> {
    reports.map_values(|r: FTMReport| r@)
}

impl View for FTMEvent {
    type V = FtmRecord;

    open spec fn view(&self) -> FtmRecord {
        FtmRecord {
            t_ms: self.t_ms,
            own_mac: self.own_mac@,
            tgt_mac: self.tgt_mac@,
            seq: self.seq,
            reports: report_records(self.reports@),
        }
    }
}

impl View for CSIEvent {
    type V = CsiRecord;

    open spec fn view(&self) -> CsiRecord {
        CsiRecord {
            t_ms: self.t_ms,
            seq: self.seq,
            own_mac: self.own_mac@,
            tgt_mac: self.tgt_mac@,
            timestamp: self.timestamp,
            channel: self.channel,
            channel2: self.channel2,
            rssi: self.rssi,
            payload_b64: self.payload_b64@,
            mac_timestamp: self.mac_timestamp,
            sig_mode: self.sig_mode,
        }
    }
}

impl View for DBGEvent {
    type V = DbgRecord;

    open spec fn view(&self) -> DbgRecord {
        DbgRecord {
            own_mac: self.own_mac@,
            data_type: self.data_type@,
            len: self.len,
            payload_b64: self.payload_b64@,
        }
    }
}

impl View for RangeEvent {
    type V = RangeRecord;

    open spec fn view(&self) -> RangeRecord {
        RangeRecord {
            t_ms: self.t_ms,
            own_mac: self.own_mac@,
            tgt_mac: self.tgt_mac@,
            timestamp: self.timestamp,
            range: self.range@,
        }
    }
}

impl View for ESPEvent {
    type V = EspRecord;

    open spec fn view(&self) -> EspRecord {
        match self {
            ESPEvent::CSI(e) => EspRecord::CSI(e@),
            ESPEvent::FTM(e) => EspRecord::FTM(e@),
            ESPEvent::DBG(e) => EspRecord::DBG(e@),
            ESPEvent::Range(e) => EspRecord::Range(e@),
        }
    }
}

/// A field as text. The label says which field is at fault.
pub open spec fn text_field(b: Seq<u8>, label: Seq<char>) -> Result<Seq<char>, Seq<char>> {
    if valid_utf8(b) {
        Ok(decode_utf8(b))
    } else {
        Err(label + utf8_fault_text(b))
    }
}

/// A field as text without white space at either end.
pub open spec fn trimmed_field(b: Seq<u8>, label: Seq<char>) -> Result<Seq<char>, Seq<char>> {
    match text_field(b, label) {
        Ok(s) => Ok(trimmed(s)),
        Err(e) => Err(e),
    }
}

/// The fault of a number, behind the label of its field.
pub open spec fn labelled<T>(r: Result<T, IntFault>, label: Seq<char>) -> Result<T, Seq<char>> {
    match r {
        Ok(v) => Ok(v),
        Err(f) => Err(label + fault_text(f)),
    }
}

/// A field as an unsigned decimal number of at most `max`.
pub open spec fn unsigned_field(
    b: Seq<u8>,
    label: Seq<char>,
    number_label: Seq<char>,
    max: nat,
) -> Result<nat, Seq<char>> {
    match text_field(b, label) {
        Ok(s) => labelled(unsigned_value(b, 10, max), number_label),
        Err(e) => Err(e),
    }
}

/// A field as an unsigned number, with white space round it.
pub open spec fn padded_unsigned_field(
    b: Seq<u8>,
    label: Seq<char>,
    number_label: Seq<char>,
    radix: nat,
    max: nat,
) -> Result<nat, Seq<char>> {
    match trimmed_field(b, label) {
        Ok(s) => labelled(unsigned_value(encode_utf8(s), radix, max), number_label),
        Err(e) => Err(e),
    }
}

/// A field as a signed decimal number of 32 bits.
pub open spec fn signed_field(b: Seq<u8>, label: Seq<char>, number_label: Seq<char>) -> Result<
    int,
    Seq<char>,
> {
    match text_field(b, label) {
        Ok(s) => labelled(signed_value(b), number_label),
        Err(e) => Err(e),
    }
}

/// A label and what follows it.
fn label_with(label: &str, text: &str) -> (r: String)
    ensures
        r@ == label@ + text@,
{
    let mut out: String = String::new();
    out.append(label);
    out.append(text);
    assert(out@ =~= label@ + text@);
    out
}

/// Reads a field as text.
fn read_text<'a>(b: &'a [u8], label: &str) -> (r: Result<&'a str, String>)
    ensures
        match r {
            Ok(s) => text_field(b@, label@) == Ok::<Seq<char>, Seq<char>>(s@) && encode_utf8(s@)
                == b@,
            Err(e) => text_field(b@, label@) == Err::<Seq<char>, Seq<char>>(e@),
        },
{
    match str_from_utf8(b) {
        Ok(s) => {
            proof {
                decode_utf8_encode_utf8(b@);
            }
            Ok(s)
        },
        Err(e) => Err(label_with(label, e.as_str())),
    }
}

/// Reads a field as text without white space at either end.
fn read_trimmed<'a>(b: &'a [u8], label: &str) -> (r: Result<&'a str, String>)
    ensures
        match r {
            Ok(s) => trimmed_field(b@, label@) == Ok::<Seq<char>, Seq<char>>(s@),
            Err(e) => trimmed_field(b@, label@) == Err::<Seq<char>, Seq<char>>(e@),
        },
{
    match read_text(b, label) {
        Ok(s) => Ok(trim(s)),
        Err(e) => Err(e),
    }
}

/// Reads a field as an unsigned decimal number.
fn read_unsigned(b: &[u8], label: &str, number_label: &str, max: u64) -> (r: Result<u64, String>)
    ensures
        match r {
            Ok(v) => unsigned_field(b@, label@, number_label@, max as nat) == Ok::<nat, Seq<char>>(
                v as nat,
            ) && v <= max,
            Err(e) => unsigned_field(b@, label@, number_label@, max as nat) == Err::<
                nat,
                Seq<char>,
            >(e@),
        },
{
    match read_text(b, label) {
        Ok(s) => match parse_unsigned(s.as_bytes(), 10, max) {
            Ok(v) => Ok(v),
            Err(f) => Err(label_with(number_label, int_fault_text(f))),
        },
        Err(e) => Err(e),
    }
}

/// Reads a field as an unsigned number, with white space round it.
fn read_padded_unsigned(
    b: &[u8],
    label: &str,
    number_label: &str,
    radix: u64,
    max: u64,
) -> (r: Result<u64, String>)
    requires
        radix == 10 || radix == 16,
    ensures
        match r {
            Ok(v) => padded_unsigned_field(b@, label@, number_label@, radix as nat, max as nat)
                == Ok::<nat, Seq<char>>(v as nat) && v <= max,
            Err(e) => padded_unsigned_field(b@, label@, number_label@, radix as nat, max as nat)
                == Err::<nat, Seq<char>>(e@),
        },
{
    match read_trimmed(b, label) {
        Ok(s) => match parse_unsigned(s.as_bytes(), radix, max) {
            Ok(v) => Ok(v),
            Err(f) => Err(label_with(number_label, int_fault_text(f))),
        },
        Err(e) => Err(e),
    }
}

/// Reads a field as a signed decimal number.
fn read_signed(b: &[u8], label: &str, number_label: &str) -> (r: Result<i32, String>)
    ensures
        match r {
            Ok(v) => signed_field(b@, label@, number_label@) == Ok::<int, Seq<char>>(v as int),
            Err(e) => signed_field(b@, label@, number_label@) == Err::<int, Seq<char>>(e@),
        },
{
    match read_text(b, label) {
        Ok(s) => match parse_i32(s.as_bytes()) {
            Ok(v) => Ok(v),
            Err(f) => Err(label_with(number_label, int_fault_text(f))),
        },
        Err(e) => Err(e),
    }
}

/// Reads the fields of the message on a line, if there is one.
pub fn parse(line: &str) -> (r: Option<Vec<&[u8]>>)
    ensures
        match r {
            Some(fields) => fields_of(encode_utf8(line@)) == Some(field_bytes(fields@)),
            None => fields_of(encode_utf8(line@)) is None,
        },
{
    let bytes: &[u8] = line.as_bytes();
    let start: usize = find(bytes, START, 0);
    if start >= bytes.len() {
        return None;
    }
    let end: usize = find(bytes, END, start);
    if end >= bytes.len() {
        return None;
    }
    Some(split_range(bytes, start + 1, end))
}

/// A text with a number behind it.
pub open spec fn counted(label: Seq<char>, n: nat) -> Seq<char> {
    label + dec(n)
}

/// Writes a text with a number behind it.
fn counted_text(label: &str, n: usize) -> (r: String)
    ensures
        r@ == counted(label@, n as nat),
{
    let mut out: String = String::new();
    out.append(label);
    push_dec(&mut out, n as u64);
    assert(out@ =~= counted(label@, n as nat));
    out
}

/// What is said of a CSI payload of the wrong length.
pub open spec fn csi_size_text(expected: nat, found: nat) -> Seq<char> {
    "Incorrect CSI Size: expected "@ + dec(expected) + ", got "@ + dec(found)
}

/// Writes what is said of a CSI payload of the wrong length.
fn csi_size_message(expected: usize, found: usize) -> (r: String)
    ensures
        r@ == csi_size_text(expected as nat, found as nat),
{
    let mut out: String = String::new();
    out.append("Incorrect CSI Size: expected ");
    push_dec(&mut out, expected as u64);
    out.append(", got ");
    push_dec(&mut out, found as u64);
    assert(out@ =~= csi_size_text(expected as nat, found as nat));
    out
}

/// What a CSI message says, or the first fault found in it: the fields are read
/// in order, the payload last.
pub open spec fn csi_of(m: Seq<Seq<u8>>, own_mac: Seq<char>, t_ms: u64) -> Result<
    CsiRecord,
    Seq<char>,
> {
    let mac_timestamp = padded_unsigned_field(
        m[1],
        "Invalid UTF-8 in seq: "@,
        "Invalid hex field: "@,
        16,
        u64::MAX as nat,
    );
    let seq = signed_field(m[2], "Invalid UTF-8 in seq: "@, "Invalid seq: "@);
    let tgt_mac = trimmed_field(m[3], "Invalid UTF-8 in tgt_mac: "@);
    let timestamp = unsigned_field(
        m[4],
        "Invalid UTF-8 in timestamp: "@,
        "Invalid timestamp: "@,
        u64::MAX as nat,
    );
    let size = unsigned_field(
        m[5],
        "Invalid UTF-8 in payload size: "@,
        "Invalid payload size: "@,
        usize::MAX as nat,
    );
    let payload = text_field(m[6], "Invalid UTF-8 in payload: "@);
    let channel = unsigned_field(m[7], "Invalid UTF-8: "@, "Invalid: "@, u32::MAX as nat);
    let channel2 = unsigned_field(m[8], "Invalid UTF-8: "@, "Invalid: "@, u32::MAX as nat);
    let rssi = signed_field(m[9], "Invalid UTF-8: "@, "Invalid: "@);
    let sig_mode = unsigned_field(m[10], "Invalid UTF-8: "@, "Invalid: "@, u8::MAX as nat);
    if m.len() != 11 {
        Err(counted("Invalid CSI message: expected 10 fields, got "@, m.len()))
    } else if let Err(e) = mac_timestamp {
        Err(e)
    } else if let Err(e) = seq {
        Err(e)
    } else if let Err(e) = tgt_mac {
        Err(e)
    } else if let Err(e) = timestamp {
        Err(e)
    } else if let Err(e) = size {
        Err(e)
    } else if let Err(e) = channel {
        Err(e)
    } else if let Err(e) = channel2 {
        Err(e)
    } else if let Err(e) = rssi {
        Err(e)
    } else if let Err(e) = sig_mode {
        Err(e)
    } else if m[6].len() != size->Ok_0 {
        Err(csi_size_text(size->Ok_0, m[6].len()))
    } else if let Err(e) = payload {
        Err(e)
    } else {
        Ok(
            CsiRecord {
                t_ms,
                seq: seq->Ok_0 as i32,
                own_mac,
                tgt_mac: tgt_mac->Ok_0,
                timestamp: timestamp->Ok_0 as u64,
                channel: channel->Ok_0 as u32,
                channel2: channel2->Ok_0 as u32,
                rssi: rssi->Ok_0 as i32,
                payload_b64: payload->Ok_0,
                mac_timestamp: (mac_timestamp->Ok_0 as u64) as i64,
                sig_mode: sig_mode->Ok_0 as u8,
            },
        )
    }
}

/// Reads a CSI message.
pub fn parse_csi(msg: Vec<&[u8]>, own_mac: &str, t_ms: u64) -> (r: Result<CSIEvent, String>)
    ensures
        match r {
            Ok(e) => csi_of(field_bytes(msg@), own_mac@, t_ms) == Ok::<CsiRecord, Seq<char>>(e@),
            Err(e) => csi_of(field_bytes(msg@), own_mac@, t_ms) == Err::<CsiRecord, Seq<char>>(e@),
        },
{
    let ghost m = field_bytes(msg@);
    if msg.len() != 11 {
        return Err(counted_text("Invalid CSI message: expected 10 fields, got ", msg.len()));
    }
    let mac_timestamp: u64 = match read_padded_unsigned(
        msg[1],
        "Invalid UTF-8 in seq: ",
        "Invalid hex field: ",
        16,
        u64::MAX,
    ) {
        Ok(v) => v,
        Err(e) => return Err(e),
    };
    let seq: i32 = match read_signed(msg[2], "Invalid UTF-8 in seq: ", "Invalid seq: ") {
        Ok(v) => v,
        Err(e) => return Err(e),
    };
    let tgt_mac = match read_trimmed(msg[3], "Invalid UTF-8 in tgt_mac: ") {
        Ok(v) => v,
        Err(e) => return Err(e),
    };
    let timestamp: u64 = match read_unsigned(
        msg[4],
        "Invalid UTF-8 in timestamp: ",
        "Invalid timestamp: ",
        u64::MAX,
    ) {
        Ok(v) => v,
        Err(e) => return Err(e),
    };
    let size: u64 = match read_unsigned(
        msg[5],
        "Invalid UTF-8 in payload size: ",
        "Invalid payload size: ",
        usize::MAX as u64,
    ) {
        Ok(v) => v,
        Err(e) => return Err(e),
    };
    let channel: u64 = match read_unsigned(
        msg[7],
        "Invalid UTF-8: ",
        "Invalid: ",
        u32::MAX as u64,
    ) {
        Ok(v) => v,
        Err(e) => return Err(e),
    };
    let channel2: u64 = match read_unsigned(
        msg[8],
        "Invalid UTF-8: ",
        "Invalid: ",
        u32::MAX as u64,
    ) {
        Ok(v) => v,
        Err(e) => return Err(e),
    };
    let rssi: i32 = match read_signed(msg[9], "Invalid UTF-8: ", "Invalid: ") {
        Ok(v) => v,
        Err(e) => return Err(e),
    };
    let sig_mode: u64 = match read_unsigned(msg[10], "Invalid UTF-8: ", "Invalid: ", u8::MAX as u64) {
        Ok(v) => v,
        Err(e) => return Err(e),
    };
    if msg[6].len() as u64 != size {
        return Err(csi_size_message(size as usize, msg[6].len()));
    }
    let payload = match read_text(msg[6], "Invalid UTF-8 in payload: ") {
        Ok(v) => v,
        Err(e) => return Err(e),
    };
    Ok(
        CSIEvent {
            t_ms,
            seq,
            own_mac: own_mac.to_owned(),
            tgt_mac: tgt_mac.to_owned(),
            timestamp,
            channel: channel as u32,
            channel2: channel2 as u32,
            rssi,
            payload_b64: payload.to_owned(),
            mac_timestamp: mac_timestamp as i64,
            sig_mode: sig_mode as u8,
        },
    )
}

/// What a DBG message says, or the first fault found in it.
pub open spec fn dbg_of(m: Seq<Seq<u8>>, own_mac: Seq<char>) -> Result<DbgRecord, Seq<char>> {
    let data_type = trimmed_field(m[1], "Invalid UTF-8 in data_type: "@);
    let len = padded_unsigned_field(
        m[2],
        "Invalid UTF-8 in len: "@,
        "Invalid len: "@,
        10,
        usize::MAX as nat,
    );
    let payload = trimmed_field(m[3], "Invalid UTF-8 in payload: "@);
    if m.len() != 4 {
        Err(counted("Invalid DBG message: expected 4 fields, got "@, m.len()))
    } else if let Err(e) = data_type {
        Err(e)
    } else if let Err(e) = len {
        Err(e)
    } else if let Err(e) = payload {
        Err(e)
    } else {
        Ok(
            DbgRecord {
                own_mac,
                data_type: data_type->Ok_0,
                len: len->Ok_0 as usize,
                payload_b64: payload->Ok_0,
            },
        )
    }
}

/// Reads a DBG message. The time does not matter to it.
pub fn parse_dbg(msg: Vec<&[u8]>, own_mac: &str, _t_ms: u64) -> (r: Result<DBGEvent, String>)
    ensures
        match r {
            Ok(e) => dbg_of(field_bytes(msg@), own_mac@) == Ok::<DbgRecord, Seq<char>>(e@),
            Err(e) => dbg_of(field_bytes(msg@), own_mac@) == Err::<DbgRecord, Seq<char>>(e@),
        },
{
    let ghost m = field_bytes(msg@);
    if msg.len() != 4 {
        return Err(counted_text("Invalid DBG message: expected 4 fields, got ", msg.len()));
    }
    let data_type = match read_trimmed(msg[1], "Invalid UTF-8 in data_type: ") {
        Ok(v) => v,
        Err(e) => return Err(e),
    };
    let len: u64 = match read_padded_unsigned(
        msg[2],
        "Invalid UTF-8 in len: ",
        "Invalid len: ",
        10,
        usize::MAX as u64,
    ) {
        Ok(v) => v,
        Err(e) => return Err(e),
    };
    let payload = match read_trimmed(msg[3], "Invalid UTF-8 in payload: ") {
        Ok(v) => v,
        Err(e) => return Err(e),
    };
    Ok(
        DBGEvent {
            own_mac: own_mac.to_owned(),
            data_type: data_type.to_owned(),
            len: len as usize,
            payload_b64: payload.to_owned(),
        },
    )
}

/// A field as a number, with white space round it: its text.
pub open spec fn number_field(b: Seq<u8>, label: Seq<char>, number_label: Seq<char>) -> Result<
    Seq<char>,
    Seq<char>,
> {
    match trimmed_field(b, label) {
        Ok(s) => match float_fault(encode_utf8(s)) {
            Some(f) => Err(number_label + float_fault_text(f)),
            None => Ok(s),
        },
        Err(e) => Err(e),
    }
}

/// Reads a field as a number, with white space round it.
fn read_number<'a>(b: &'a [u8], label: &str, number_label: &str) -> (r: Result<&'a str, String>)
    ensures
        match r {
            Ok(s) => number_field(b@, label@, number_label@) == Ok::<Seq<char>, Seq<char>>(s@),
            Err(e) => number_field(b@, label@, number_label@) == Err::<Seq<char>, Seq<char>>(e@),
        },
{
    match read_trimmed(b, label) {
        Ok(s) => match check_float(s.as_bytes()) {
            Some(f) => Err(label_with(number_label, float_fault_message(f))),
            None => Ok(s),
        },
        Err(e) => Err(e),
    }
}

/// What a RANGE message says, or the first fault found in it. The range is a
/// number, and is kept as it was sent, without white space at either end.
pub open spec fn range_of(m: Seq<Seq<u8>>, own_mac: Seq<char>, t_ms: u64) -> Result<
    RangeRecord,
    Seq<char>,
> {
    let tgt_mac = trimmed_field(m[1], "Invalid UTF-8 in tgt_mac: "@);
    let timestamp = padded_unsigned_field(
        m[2],
        "Invalid UTF-8 in timestamp: "@,
        "Invalid timestamp: "@,
        10,
        u64::MAX as nat,
    );
    let range = number_field(m[3], "Invalid UTF-8 in range: "@, "Invalid range: "@);
    if m.len() != 4 {
        Err(counted("Invalid RANGE message: expected 4 fields, got "@, m.len()))
    } else if let Err(e) = tgt_mac {
        Err(e)
    } else if let Err(e) = timestamp {
        Err(e)
    } else if let Err(e) = range {
        Err(e)
    } else {
        Ok(
            RangeRecord {
                t_ms,
                own_mac,
                tgt_mac: tgt_mac->Ok_0,
                timestamp: timestamp->Ok_0 as u64,
                range: range->Ok_0,
            },
        )
    }
}

/// Reads a RANGE message.
pub fn parse_range(msg: Vec<&[u8]>, own_mac: &str, t_ms: u64) -> (r: Result<RangeEvent, String>)
    ensures
        match r {
            Ok(e) => range_of(field_bytes(msg@), own_mac@, t_ms) == Ok::<RangeRecord, Seq<char>>(
                e@,
            ),
            Err(e) => range_of(field_bytes(msg@), own_mac@, t_ms) == Err::<RangeRecord, Seq<char>>(
                e@,
            ),
        },
{
    let ghost m = field_bytes(msg@);
    if msg.len() != 4 {
        return Err(counted_text("Invalid RANGE message: expected 4 fields, got ", msg.len()));
    }
    let tgt_mac = match read_trimmed(msg[1], "Invalid UTF-8 in tgt_mac: ") {
        Ok(v) => v,
        Err(e) => return Err(e),
    };
    let timestamp: u64 = match read_padded_unsigned(
        msg[2],
        "Invalid UTF-8 in timestamp: ",
        "Invalid timestamp: ",
        10,
        u64::MAX,
    ) {
        Ok(v) => v,
        Err(e) => return Err(e),
    };
    let range = match read_number(msg[3], "Invalid UTF-8 in range: ", "Invalid range: ") {
        Ok(v) => v,
        Err(e) => return Err(e),
    };
    Ok(
        RangeEvent {
            t_ms,
            own_mac: own_mac.to_owned(),
            tgt_mac: tgt_mac.to_owned(),
            timestamp,
            range: range.to_owned(),
        },
    )
}

/// The bytes of one exchange in the payload of an FTM message.
pub const FTM_REPORT_SIZE: usize = 40;

/// The exchange that 40 bytes of a payload hold: a token, a signal strength,
/// six bytes that are not read, and four times in little-endian order. No CSI is
/// known of it yet.
pub open spec fn exchange(own_mac: Seq<char>, tgt_mac: Seq<char>, b: Seq<u8>) -> FtmReportRecord {
    FtmReportRecord {
        own_mac,
        tgt_mac,
        dlog_token: b[0],
        rssi: b[1] as i8,
        t1: le_value(b.subrange(8, 16)) as u64,
        t2: le_value(b.subrange(16, 24)) as u64,
        t3: le_value(b.subrange(24, 32)) as u64,
        t4: le_value(b.subrange(32, 40)) as u64,
        channel: 0,
        channel2: 0,
        payload_b64: Seq::empty(),
        mac_timestamp: 0,
    }
}

/// All exchanges that a payload holds.
pub open spec fn exchanges(own_mac: Seq<char>, tgt_mac: Seq<char>, payload: Seq<u8>) -> Seq<
    FtmReportRecord,
> {
    Seq::new(
        payload.len() / 40,
        |k: int| exchange(own_mac, tgt_mac, payload.subrange(40 * k, 40 * k + 40)),
    )
}

/// What is said of a payload that does not hold whole exchanges.
pub open spec fn ftm_size_text(len: nat) -> Seq<char> {
    "Incorrect FTM Size: "@ + dec(len) + " (expected multiple of 40)"@
}

/// The exchanges of a decoded payload, or what is wrong with it.
pub open spec fn payload_reports(
    own_mac: Seq<char>,
    tgt_mac: Seq<char>,
    decoded: Result<Seq<u8>, Seq<char>>,
) -> Result<Seq<FtmReportRecord>, Seq<char>> {
    match decoded {
        Err(e) => Err("Error decoding FTM base64: "@ + e),
        Ok(payload) => if payload.len() % 40 != 0 {
            Err(ftm_size_text(payload.len()))
        } else {
            Ok(exchanges(own_mac, tgt_mac, payload))
        },
    }
}

/// `reports` before those of `r`.
pub open spec fn prepended(
    reports: Seq<FtmReportRecord>,
    r: Result<(Seq<FtmReportRecord>, int), Seq<char>>,
) -> Result<(Seq<FtmReportRecord>, int), Seq<char>> {
    match r {
        Ok((rest, next)) => Ok((reports + rest, next)),
        Err(e) => Err(e),
    }
}

/// The exchanges in the fields from `i` on, up to a field that reads CSI, and
/// the place of the field after that one.
pub open spec fn burst(own_mac: Seq<char>, tgt_mac: Seq<char>, m: Seq<Seq<u8>>, i: int) -> Result<
    (Seq<FtmReportRecord>, int),
    Seq<char>,
>
    decreases m.len() - i,
{
    if i >= m.len() {
        Ok((Seq::empty(), i))
    } else {
        match trimmed_field(m[i], "Invalid UTF-8 in tgt_mac: "@) {
            Err(e) => Err(e),
            Ok(s) => if s == "CSI"@ {
                Ok((Seq::empty(), i + 1))
            } else {
                match payload_reports(own_mac, tgt_mac, b64_decoding(m[i])) {
                    Err(e) => Err(e),
                    Ok(reports) => prepended(reports, burst(own_mac, tgt_mac, m, i + 1)),
                }
            },
        }
    }
}

/// Channel state as an FTM message brings it: where it was measured, the
/// measurement, and when.
pub struct Sample {
    pub channel: u32,
    pub channel2: u32,
    pub payload_b64: Seq<char>,
    pub time_ps: i64,
    pub mac_timestamp: i64,
}

/// A time in nanoseconds as picoseconds, in 64-bit arithmetic.
pub open spec fn picoseconds(ns: u64) -> i64 {
    ns.wrapping_mul(1000) as i64
}

/// The channel state in the five fields from `i` on.
pub open spec fn sample_at(m: Seq<Seq<u8>>, i: int) -> Result<Sample, Seq<char>> {
    let channel = unsigned_field(
        m[i],
        "Invalid UTF-8 in seq: "@,
        "Invalid seq: "@,
        u32::MAX as nat,
    );
    let channel2 = unsigned_field(
        m[i + 1],
        "Invalid UTF-8 in seq: "@,
        "Invalid seq: "@,
        u32::MAX as nat,
    );
    let payload = trimmed_field(m[i + 2], "Invalid UTF-8 in tgt_mac: "@);
    let time = unsigned_field(
        m[i + 3],
        "Invalid UTF-8 in seq: "@,
        "Invalid seq: "@,
        u64::MAX as nat,
    );
    let mac_timestamp = unsigned_field(
        m[i + 4],
        "Invalid UTF-8 in seq: "@,
        "Invalid seq: "@,
        u64::MAX as nat,
    );
    if let Err(e) = channel {
        Err(e)
    } else if let Err(e) = channel2 {
        Err(e)
    } else if let Err(e) = payload {
        Err(e)
    } else if let Err(e) = time {
        Err(e)
    } else if let Err(e) = mac_timestamp {
        Err(e)
    } else {
        Ok(
            Sample {
                channel: channel->Ok_0 as u32,
                channel2: channel2->Ok_0 as u32,
                payload_b64: payload->Ok_0,
                time_ps: picoseconds(time->Ok_0 as u64),
                mac_timestamp: (mac_timestamp->Ok_0 as u64) as i64,
            },
        )
    }
}

/// Less than two nanoseconds lie between a time and the arrival of the frame
/// that an exchange answers, in 64-bit arithmetic.
pub open spec fn is_near(report: FtmReportRecord, time_ps: i64) -> bool {
    -2000 < time_ps.wrapping_sub(report.t2 as i64) < 2000
}

/// The first exchange from `k` on that is near, or the number of exchanges.
pub open spec fn first_near(reports: Seq<FtmReportRecord>, time_ps: i64, k: int) -> int
    decreases reports.len() - k,
{
    if k >= reports.len() {
        reports.len() as int
    } else if is_near(reports[k], time_ps) {
        k
    } else {
        first_near(reports, time_ps, k + 1)
    }
}

/// An exchange with channel state.
pub open spec fn with_sample(report: FtmReportRecord, s: Sample) -> FtmReportRecord {
    FtmReportRecord {
        channel: s.channel,
        channel2: s.channel2,
        payload_b64: s.payload_b64,
        mac_timestamp: s.mac_timestamp,
        ..report
    }
}

/// Channel state goes to the first exchange that is near, if there is one.
pub open spec fn matched(reports: Seq<FtmReportRecord>, s: Sample) -> Seq<FtmReportRecord> {
    let k = first_near(reports, s.time_ps, 0);
    if k < reports.len() {
        reports.update(k, with_sample(reports[k], s))
    } else {
        reports
    }
}

/// The exchanges with all channel state of the fields from `i` on, five fields
/// at a time.
pub open spec fn all_matched(reports: Seq<FtmReportRecord>, m: Seq<Seq<u8>>, i: int) -> Result<
    Seq<FtmReportRecord>,
    Seq<char>,
>
    decreases m.len() - i,
{
    if i + 5 > m.len() {
        Ok(reports)
    } else {
        match sample_at(m, i) {
            Err(e) => Err(e),
            Ok(s) => all_matched(matched(reports, s), m, i + 5),
        }
    }
}

/// Channel state is known of an exchange.
pub open spec fn has_csi(report: FtmReportRecord) -> bool {
    report.payload_b64.len() > 0
}

/// What an FTM message says, or the first fault found in it. Its exchanges start
/// at the fifth field; only those with channel state are kept.
pub open spec fn ftm_of(m: Seq<Seq<u8>>, own_mac: Seq<char>, t_ms: u64) -> Result<
    FtmRecord,
    Seq<char>,
> {
    let tgt_mac = trimmed_field(m[1], "Invalid UTF-8 in tgt_mac: "@);
    let n_reports = unsigned_field(
        m[2],
        "Invalid UTF-8 in seq: "@,
        "Invalid seq: "@,
        u32::MAX as nat,
    );
    if m.len() < 4 {
        Err(counted("Invalid FTM message: expected at least 4 fields, got "@, m.len()))
    } else if let Err(e) = tgt_mac {
        Err(e)
    } else if let Err(e) = n_reports {
        Err(e)
    } else {
        match burst(own_mac, tgt_mac->Ok_0, m, 4) {
            Err(e) => Err(e),
            Ok((reports, next)) => match all_matched(reports, m, next) {
                Err(e) => Err(e),
                Ok(reports) => Ok(
                    FtmRecord {
                        t_ms,
                        own_mac,
                        tgt_mac: tgt_mac->Ok_0,
                        seq: 0,
                        reports: reports.filter(|r: FtmReportRecord| has_csi(r)),
                    },
                ),
            },
        }
    }
}

/// What is left of a filtered list passes the filter.
proof fn lemma_filtered(reports: Seq<FtmReportRecord>, k: int)
    requires
        0 <= k < reports.filter(|r: FtmReportRecord| has_csi(r)).len(),
    ensures
        has_csi(reports.filter(|r: FtmReportRecord| has_csi(r))[k]),
    decreases reports.len(),
{
    reveal(Seq::filter);
    let pred = |r: FtmReportRecord| has_csi(r);
    let init = reports.drop_last();
    assert(reports.filter(pred) == (if pred(reports.last()) {
        init.filter(pred).push(reports.last())
    } else {
        init.filter(pred)
    }));
    if k < init.filter(pred).len() {
        lemma_filtered(init, k);
    }
}

/// Channel state is known of every exchange that is kept of an FTM message.
pub proof fn lemma_ftm_has_csi(m: Seq<Seq<u8>>, own_mac: Seq<char>, t_ms: u64, k: int)
    requires
        ftm_of(m, own_mac, t_ms) is Ok,
        0 <= k < ftm_of(m, own_mac, t_ms)->Ok_0.reports.len(),
    ensures
        has_csi(ftm_of(m, own_mac, t_ms)->Ok_0.reports[k]),
{
    let tgt_mac = trimmed_field(m[1], "Invalid UTF-8 in tgt_mac: "@)->Ok_0;
    let (reports, next) = burst(own_mac, tgt_mac, m, 4)->Ok_0;
    lemma_filtered(all_matched(reports, m, next)->Ok_0, k);
}

/// The exchange at `k` is the one that channel state of a time goes to: it is less
/// than 2000 ps away, and none before it is.
pub open spec fn takes(reports: Seq<FtmReportRecord>, time_ps: int, k: int) -> bool {
    &&& 0 <= k < reports.len()
    &&& apart_64(time_ps, reports[k].t2 as int) < 2000
    &&& forall|j: int| 0 <= j < k ==> apart_64(time_ps, (#[trigger] reports[j]).t2 as int) >= 2000
}

/// An exchange is near just where it is less than 2000 ps away.
#[verifier::rlimit(50)]
pub proof fn lemma_is_near(report: FtmReportRecord, time_ps: i64)
    ensures
        is_near(report, time_ps) <==> apart_64(time_ps as int, report.t2 as int) < 2000,
{
    lemma_as_signed(report.t2);
}

/// What `first_near` finds.
proof fn lemma_first_near(reports: Seq<FtmReportRecord>, time_ps: i64, k: int)
    requires
        0 <= k <= reports.len(),
    ensures
        k <= first_near(reports, time_ps, k) <= reports.len(),
        first_near(reports, time_ps, k) < reports.len() ==> apart_64(
            time_ps as int,
            reports[first_near(reports, time_ps, k)].t2 as int,
        ) < 2000,
        forall|j: int|
            k <= j < first_near(reports, time_ps, k) ==> apart_64(
                time_ps as int,
                (#[trigger] reports[j]).t2 as int,
            ) >= 2000,
    decreases reports.len() - k,
{
    if k < reports.len() {
        lemma_is_near(reports[k], time_ps);
        lemma_first_near(reports, time_ps, k + 1);
    }
}

/// Channel state goes to the first exchange that is less than 2000 ps away,
/// wherever that stands in the list, and to no other: that one carries all of it
/// and keeps its times, and the others stay as they are. So all stay as they are
/// only if each is at least 2000 ps away.
pub proof fn lemma_matched(reports: Seq<FtmReportRecord>, s: Sample, k: int)
    requires
        0 <= k < reports.len(),
    ensures
        matched(reports, s).len() == reports.len(),
        takes(reports, s.time_ps as int, k) ==> matched(reports, s)[k] == (FtmReportRecord {
            channel: s.channel,
            channel2: s.channel2,
            payload_b64: s.payload_b64,
            mac_timestamp: s.mac_timestamp,
            ..reports[k]
        }),
        !takes(reports, s.time_ps as int, k) ==> matched(reports, s)[k] == reports[k],
        apart_64(s.time_ps as int, reports[k].t2 as int) < 2000 ==> exists|j: int|
            j <= k && takes(reports, s.time_ps as int, j),
{
    lemma_first_near(reports, s.time_ps, 0);
    let f = first_near(reports, s.time_ps, 0);
    if f < reports.len() {
        assert(takes(reports, s.time_ps as int, f));
    }
}

/// The place of the `q`th sample of five fields, where the first has `start`.
pub open spec fn sample_place(start: int, q: int) -> int {
    start + 5 * q
}

/// The exchange at `k` is one that none of the samples goes to.
pub open spec fn unclaimed(reports: Seq<FtmReportRecord>, samples: Seq<Sample>, k: int) -> bool {
    forall|q: int|
        0 <= q < samples.len() ==> !takes(reports, (#[trigger] samples[q]).time_ps as int, k)
}

/// The exchange at `k` after all samples: it carries the last of those that go to
/// it, and is as it was if there are none.
pub open spec fn served(
    reports: Seq<FtmReportRecord>,
    samples: Seq<Sample>,
    k: int,
    after: FtmReportRecord,
) -> bool {
    if unclaimed(reports, samples, k) {
        after == reports[k]
    } else {
        exists|q: int| #[trigger] is_last_claim(reports, samples, k, q) && after == (
        FtmReportRecord {
            channel: samples[q].channel,
            channel2: samples[q].channel2,
            payload_b64: samples[q].payload_b64,
            mac_timestamp: samples[q].mac_timestamp,
            ..reports[k]
        })
    }
}

/// The sample at `q` is the last that goes to the exchange at `k`.
pub open spec fn is_last_claim(
    reports: Seq<FtmReportRecord>,
    samples: Seq<Sample>,
    k: int,
    q: int,
) -> bool {
    &&& 0 <= q < samples.len()
    &&& takes(reports, samples[q].time_ps as int, k)
    &&& forall|r: int|
        q < r < samples.len() ==> !takes(reports, (#[trigger] samples[r]).time_ps as int, k)
}

/// Where channel state goes does not depend on what an exchange carries already.
proof fn lemma_takes_after(reports: Seq<FtmReportRecord>, s: Sample, time_ps: int, k: int)
    ensures
        takes(matched(reports, s), time_ps, k) == takes(reports, time_ps, k),
{
    let after = matched(reports, s);
    lemma_first_near(reports, s.time_ps, 0);
    assert(after.len() == reports.len());
    assert forall|j: int| 0 <= j < reports.len() implies (#[trigger] after[j]).t2
        == reports[j].t2 by {}
    if takes(after, time_ps, k) {
        assert forall|j: int| 0 <= j < k implies apart_64(
            time_ps,
            (#[trigger] reports[j]).t2 as int,
        ) >= 2000 by {
            assert(after[j].t2 == reports[j].t2);
        }
    }
}

/// One sample, and then others.
pub proof fn lemma_served_step(
    reports: Seq<FtmReportRecord>,
    samples: Seq<Sample>,
    k: int,
    after: FtmReportRecord,
)
    requires
        samples.len() > 0,
        0 <= k < reports.len(),
        served(matched(reports, samples[0]), samples.skip(1), k, after),
    ensures
        served(reports, samples, k, after),
{
    let s = samples[0];
    let rest = samples.skip(1);
    let mid = matched(reports, s);
    lemma_matched(reports, s, k);
    assert forall|q: int| 0 <= q < rest.len() implies takes(
        mid,
        (#[trigger] rest[q]).time_ps as int,
        k,
    ) == takes(reports, samples[q + 1].time_ps as int, k) by {
        lemma_takes_after(reports, s, rest[q].time_ps as int, k);
    }
    if unclaimed(mid, rest, k) {
        assert forall|q: int| 1 <= q < samples.len() implies !takes(
            reports,
            (#[trigger] samples[q]).time_ps as int,
            k,
        ) by {
            assert(rest[q - 1] == samples[q]);
            assert(!takes(mid, rest[q - 1].time_ps as int, k));
        }
        if takes(reports, s.time_ps as int, k) {
            assert(is_last_claim(reports, samples, k, 0));
        } else {
            assert(unclaimed(reports, samples, k));
        }
    } else {
        let q = choose|q: int| #[trigger] is_last_claim(mid, rest, k, q) && after == (
        FtmReportRecord {
            channel: rest[q].channel,
            channel2: rest[q].channel2,
            payload_b64: rest[q].payload_b64,
            mac_timestamp: rest[q].mac_timestamp,
            ..mid[k]
        });
        assert(rest[q] == samples[q + 1]);
        assert(takes(reports, samples[q + 1].time_ps as int, k));
        assert forall|r: int| q + 1 < r < samples.len() implies !takes(
            reports,
            (#[trigger] samples[r]).time_ps as int,
            k,
        ) by {
            assert(rest[r - 1] == samples[r]);
            assert(!takes(mid, rest[r - 1].time_ps as int, k));
        }
        assert(is_last_claim(reports, samples, k, q + 1));
        assert(!unclaimed(reports, samples, k));
    }
}

/// All channel state behind the exchanges is given out, however much there is: no
/// exchange is lost or added, and each carries the last sample that goes to it.
pub proof fn lemma_all_served(
    reports: Seq<FtmReportRecord>,
    m: Seq<Seq<u8>>,
    i: int,
    samples: Seq<Sample>,
)
    requires
        0 <= i,
        sample_place(i, samples.len() as int) <= m.len() < sample_place(i, samples.len() as int)
            + 5,
        forall|q: int|
            0 <= q < samples.len() ==> sample_at(m, #[trigger] sample_place(i, q)) == Ok::<
                Sample,
                Seq<char>,
            >(samples[q]),
    ensures
        match all_matched(reports, m, i) {
            Ok(with) => {
                &&& with.len() == reports.len()
                &&& forall|k: int|
                    0 <= k < reports.len() ==> served(reports, samples, k, #[trigger] with[k])
            },
            Err(_) => false,
        },
    decreases samples.len(),
{
    if samples.len() > 0 {
        let s = samples[0];
        let rest = samples.skip(1);
        let mid = matched(reports, s);
        assert(sample_place(i, 0) == i);
        assert forall|q: int| 0 <= q < rest.len() implies sample_at(
            m,
            #[trigger] sample_place(i + 5, q),
        ) == Ok::<Sample, Seq<char>>(rest[q]) by {
            assert(sample_place(i + 5, q) == sample_place(i, q + 1));
        }
        lemma_first_near(reports, s.time_ps, 0);
        lemma_all_served(mid, m, i + 5, rest);
        let with = all_matched(mid, m, i + 5)->Ok_0;
        assert forall|k: int| 0 <= k < reports.len() implies served(
            reports,
            samples,
            k,
            #[trigger] with[k],
        ) by {
            lemma_served_step(reports, samples, k, with[k]);
        }
    } else {
        assert forall|k: int| 0 <= k < reports.len() implies served(
            reports,
            samples,
            k,
            #[trigger] reports[k],
        ) by {
            assert(unclaimed(reports, samples, k));
        }
    }
}

/// `kept` are the members of `all` at rising places, just those that carry channel
/// state.
pub open spec fn keeps_with_payload(
    all: Seq<FtmReportRecord>,
    kept: Seq<FtmReportRecord>,
    places: Seq<int>,
) -> bool {
    &&& places.len() == kept.len()
    &&& forall|a: int, b: int| 0 <= a < b < places.len() ==> places[a] < places[b]
    &&& forall|a: int|
        0 <= a < places.len() ==> {
            &&& 0 <= #[trigger] places[a] < all.len()
            &&& kept[a] == all[places[a]]
            &&& kept[a].payload_b64.len() > 0
        }
    &&& forall|k: int|
        0 <= k < all.len() && (#[trigger] all[k]).payload_b64.len() > 0 ==> places.contains(k)
}

/// Filtering keeps the exchanges with channel state, in their order.
pub proof fn lemma_keeps(all: Seq<FtmReportRecord>) -> (places: Seq<int>)
    ensures
        keeps_with_payload(all, all.filter(|r: FtmReportRecord| has_csi(r)), places),
    decreases all.len(),
{
    reveal(Seq::filter);
    let pred = |r: FtmReportRecord| has_csi(r);
    if all.len() == 0 {
        Seq::empty()
    } else {
        let init = all.drop_last();
        let before = lemma_keeps(init);
        let n = all.len() - 1;
        if all.last().payload_b64.len() > 0 {
            assert(all.filter(pred) == init.filter(pred).push(all.last()));
            let places = before.push(n);
            assert forall|k: int|
                0 <= k < all.len() && (#[trigger] all[k]).payload_b64.len()
                    > 0 implies places.contains(k) by {
                if k < n {
                    assert(init[k] == all[k]);
                    let a = choose|a: int| 0 <= a < before.len() && before[a] == k;
                    assert(places[a] == k);
                } else {
                    assert(places[before.len() as int] == k);
                }
            }
            places
        } else {
            assert(all.filter(pred) == init.filter(pred));
            assert forall|k: int|
                0 <= k < all.len() && (#[trigger] all[k]).payload_b64.len()
                    > 0 implies before.contains(k) by {
                assert(init[k] == all[k]);
            }
            before
        }
    }
}

/// An FTM message with exchanges and channel state behind them is read as just
/// those exchanges to which some of it goes, each with the last that does, in the
/// order in which they were sent.
pub proof fn lemma_ftm_attached(
    m: Seq<Seq<u8>>,
    own_mac: Seq<char>,
    t_ms: u64,
    tgt_mac: Seq<char>,
    reports: Seq<FtmReportRecord>,
    next: int,
    samples: Seq<Sample>,
) -> (with: Seq<FtmReportRecord>)
    requires
        m.len() >= 4,
        trimmed_field(m[1], "Invalid UTF-8 in tgt_mac: "@) == Ok::<Seq<char>, Seq<char>>(tgt_mac),
        unsigned_field(
            m[2],
            "Invalid UTF-8 in seq: "@,
            "Invalid seq: "@,
            u32::MAX as nat,
        ) is Ok,
        burst(own_mac, tgt_mac, m, 4) == Ok::<(Seq<FtmReportRecord>, int), Seq<char>>(
            (reports, next),
        ),
        0 <= next,
        sample_place(next, samples.len() as int) <= m.len() < sample_place(
            next,
            samples.len() as int,
        ) + 5,
        forall|q: int|
            0 <= q < samples.len() ==> sample_at(m, #[trigger] sample_place(next, q)) == Ok::<
                Sample,
                Seq<char>,
            >(samples[q]),
    ensures
        with.len() == reports.len(),
        forall|k: int|
            0 <= k < reports.len() ==> served(reports, samples, k, #[trigger] with[k]),
        match ftm_of(m, own_mac, t_ms) {
            Ok(e) => {
                &&& e.t_ms == t_ms
                &&& e.own_mac == own_mac
                &&& e.tgt_mac == tgt_mac
                &&& e.seq == 0
                &&& exists|places: Seq<int>| keeps_with_payload(with, e.reports, places)
            },
            Err(_) => false,
        },
{
    lemma_all_served(reports, m, next, samples);
    let with = all_matched(reports, m, next)->Ok_0;
    let places = lemma_keeps(with);
    assert(keeps_with_payload(with, ftm_of(m, own_mac, t_ms)->Ok_0.reports, places));
    with
}

/// The times of an exchange stand in its bytes from the ninth on, eight bytes
/// each, the least significant first.
#[verifier::rlimit(50)]
pub proof fn lemma_exchange_bytes(own_mac: Seq<char>, tgt_mac: Seq<char>, b: Seq<u8>)
    requires
        b.len() == 40,
    ensures
        exchange(own_mac, tgt_mac, b).own_mac == own_mac,
        exchange(own_mac, tgt_mac, b).tgt_mac == tgt_mac,
        exchange(own_mac, tgt_mac, b).dlog_token == b[0],
        (exchange(own_mac, tgt_mac, b).rssi - b[1]) % 256 == 0,
        exchange(own_mac, tgt_mac, b).payload_b64.len() == 0,
        exchange(own_mac, tgt_mac, b).t1 == b[8] + 0x100 * b[9] + 0x1_0000 * b[10] + 0x100_0000
            * b[11] + 0x1_0000_0000 * b[12] + 0x100_0000_0000 * b[13] + 0x1_0000_0000_0000 * b[14]
            + 0x100_0000_0000_0000 * b[15],
        exchange(own_mac, tgt_mac, b).t2 == b[16] + 0x100 * b[17] + 0x1_0000 * b[18] + 0x100_0000
            * b[19] + 0x1_0000_0000 * b[20] + 0x100_0000_0000 * b[21] + 0x1_0000_0000_0000 * b[22]
            + 0x100_0000_0000_0000 * b[23],
        exchange(own_mac, tgt_mac, b).t3 == b[24] + 0x100 * b[25] + 0x1_0000 * b[26] + 0x100_0000
            * b[27] + 0x1_0000_0000 * b[28] + 0x100_0000_0000 * b[29] + 0x1_0000_0000_0000 * b[30]
            + 0x100_0000_0000_0000 * b[31],
        exchange(own_mac, tgt_mac, b).t4 == b[32] + 0x100 * b[33] + 0x1_0000 * b[34] + 0x100_0000
            * b[35] + 0x1_0000_0000 * b[36] + 0x100_0000_0000 * b[37] + 0x1_0000_0000_0000 * b[38]
            + 0x100_0000_0000_0000 * b[39],
{
    lemma_le_value_places(b.subrange(8, 16));
    lemma_le_value_places(b.subrange(16, 24));
    lemma_le_value_places(b.subrange(24, 32));
    lemma_le_value_places(b.subrange(32, 40));
    let rssi = b[1];
    assert(rssi < 128 ==> rssi as i8 == rssi) by (bit_vector);
    assert(rssi >= 128 ==> rssi as i8 == rssi - 256) by (bit_vector);
}

/// A payload holds as many exchanges as there are times forty bytes in it: putting
/// one behind another puts their exchanges one behind the other.
pub proof fn lemma_exchanges_add(own_mac: Seq<char>, tgt_mac: Seq<char>, a: Seq<u8>, b: Seq<u8>)
    requires
        a.len() % 40 == 0,
        b.len() == 40,
    ensures
        exchanges(own_mac, tgt_mac, Seq::empty()).len() == 0,
        exchanges(own_mac, tgt_mac, a + b) == exchanges(own_mac, tgt_mac, a).push(
            exchange(own_mac, tgt_mac, b),
        ),
{
    let all = a + b;
    let n = (a.len() / 40) as int;
    assert(all.len() / 40 == n + 1);
    assert forall|k: int| 0 <= k <= n implies #[trigger] exchanges(own_mac, tgt_mac, all)[k]
        == exchanges(own_mac, tgt_mac, a).push(exchange(own_mac, tgt_mac, b))[k] by {
        if k < n {
            assert(all.subrange(40 * k, 40 * k + 40) =~= a.subrange(40 * k, 40 * k + 40));
        } else {
            assert(all.subrange(40 * k, 40 * k + 40) =~= b);
        }
    }
    assert(exchanges(own_mac, tgt_mac, all) =~= exchanges(own_mac, tgt_mac, a).push(
        exchange(own_mac, tgt_mac, b),
    ));
}

/// Reads the exchange at `from`.
fn read_exchange(own_mac: &str, tgt_mac: &str, payload: &[u8], from: usize) -> (r: FTMReport)
    requires
        from + 40 <= payload@.len(),
    ensures
        r@ == exchange(own_mac@, tgt_mac@, payload@.subrange(from as int, from + 40)),
{
    let ghost b = payload@.subrange(from as int, from + 40);
    assert(payload.len() == payload@.len());
    let t1: u64 = read_le(payload, from + 8, from + 16);
    let t2: u64 = read_le(payload, from + 16, from + 24);
    let t3: u64 = read_le(payload, from + 24, from + 32);
    let t4: u64 = read_le(payload, from + 32, from + 40);
    let r = FTMReport {
        own_mac: own_mac.to_owned(),
        tgt_mac: tgt_mac.to_owned(),
        dlog_token: payload[from],
        rssi: payload[from + 1] as i8,
        t1,
        t2,
        t3,
        t4,
        channel: 0,
        channel2: 0,
        payload_b64: String::new(),
        mac_timestamp: 0,
    };
    assert(b.subrange(8, 16) =~= payload@.subrange(from + 8, from + 16));
    assert(b.subrange(16, 24) =~= payload@.subrange(from + 16, from + 24));
    assert(b.subrange(24, 32) =~= payload@.subrange(from + 24, from + 32));
    assert(b.subrange(32, 40) =~= payload@.subrange(from + 32, from + 40));
    assert(r.payload_b64@ =~= Seq::<char>::empty());
    r
}

/// What decoding a payload gave, as sequences.
pub open spec fn decoded_view(decoded: Result<Vec<u8>, String>) -> Result<Seq<u8>, Seq<char>> {
    match decoded {
        Ok(v) => Ok(v@),
        Err(e) => Err(e@),
    }
}

/// Reads the exchanges of a decoded payload.
pub fn ftm_payload_reports(own_mac: &str, tgt_mac: &str, decoded: Result<Vec<u8>, String>) -> (r:
    Result<Vec<FTMReport>, String>)
    ensures
        match r {
            Ok(reports) => payload_reports(own_mac@, tgt_mac@, decoded_view(decoded)) == Ok::<
                Seq<FtmReportRecord>,
                Seq<char>,
            >(report_records(reports@)),
            Err(e) => payload_reports(own_mac@, tgt_mac@, decoded_view(decoded)) == Err::<
                Seq<FtmReportRecord>,
                Seq<char>,
            >(e@),
        },
{
    let payload: Vec<u8> = match decoded {
        Ok(v) => v,
        Err(e) => return Err(label_with("Error decoding FTM base64: ", e.as_str())),
    };
    if payload.len() % FTM_REPORT_SIZE != 0 {
        let mut out: String = String::new();
        out.append("Incorrect FTM Size: ");
        push_dec(&mut out, payload.len() as u64);
        out.append(" (expected multiple of 40)");
        assert(out@ =~= ftm_size_text(payload@.len()));
        return Err(out);
    }
    let mut reports: Vec<FTMReport> = Vec::new();
    let n: usize = payload.len() / FTM_REPORT_SIZE;
    let mut k: usize = 0;
    while k < n
        invariant
            k <= n,
            n == payload@.len() / 40,
            40 * n <= usize::MAX,
            payload@.len() == 40 * n,
            reports@.len() == k,
            forall|j: int|
                0 <= j < k ==> (#[trigger] reports@[j])@ == exchange(
                    own_mac@,
                    tgt_mac@,
                    payload@.subrange(40 * j, 40 * j + 40),
                ),
        decreases n - k,
    {
        reports.push(
            read_exchange(own_mac, tgt_mac, payload.as_slice(), FTM_REPORT_SIZE * k),
        );
        k += 1;
    }
    assert(report_records(reports@) =~= exchanges(own_mac@, tgt_mac@, payload@));
    Ok(reports)
}

/// Reads the exchanges in the fields from the fifth on, up to a field that reads
/// CSI. Also gives the place of the field after that one.
fn read_burst(own_mac: &str, tgt_mac: &str, msg: &Vec<&[u8]>) -> (r: Result<
    (Vec<FTMReport>, usize),
    String,
>)
    requires
        msg@.len() >= 4,
    ensures
        match r {
            Ok((reports, next)) => next <= msg@.len() && burst(
                own_mac@,
                tgt_mac@,
                field_bytes(msg@),
                4,
            ) == Ok::<(Seq<FtmReportRecord>, int), Seq<char>>(
                (report_records(reports@), next as int),
            ),
            Err(e) => burst(own_mac@, tgt_mac@, field_bytes(msg@), 4) == Err::<
                (Seq<FtmReportRecord>, int),
                Seq<char>,
            >(e@),
        },
{
    let ghost m = field_bytes(msg@);
    let ghost whole = burst(own_mac@, tgt_mac@, m, 4);
    let mut reports: Vec<FTMReport> = Vec::new();
    let mut i: usize = 4;
    proof {
        match whole {
            Ok((rest, next)) => {
                assert(report_records(reports@) + rest =~= rest);
            },
            Err(e) => {},
        }
    }
    while i < msg.len()
        invariant
            4 <= i <= msg@.len(),
            m == field_bytes(msg@),
            whole == burst(own_mac@, tgt_mac@, m, 4),
            whole == prepended(
                report_records(reports@),
                burst(own_mac@, tgt_mac@, m, i as int),
            ),
        decreases msg@.len() - i,
    {
        match read_trimmed(msg[i], "Invalid UTF-8 in tgt_mac: ") {
            Err(e) => return Err(e),
            Ok(s) => {
                if str_eq(s, "CSI") {
                    assert(report_records(reports@) + Seq::<FtmReportRecord>::empty()
                        =~= report_records(reports@));
                    return Ok((reports, i + 1));
                }
            },
        }
        let decoded = b64_decode(msg[i]);
        assert(decoded_view(decoded) == b64_decoding(m[i as int]));
        match ftm_payload_reports(own_mac, tgt_mac, decoded) {
            Err(e) => return Err(e),
            Ok(more) => {
                let ghost before = report_records(reports@);
                let ghost added = report_records(more@);
                let mut more = more;
                reports.append(&mut more);
                proof {
                    assert(report_records(reports@) =~= before + added);
                    match burst(own_mac@, tgt_mac@, m, i + 1) {
                        Ok((rest, next)) => {
                            assert(before + (added + rest) =~= before + added + rest);
                        },
                        Err(e) => {},
                    }
                }
            },
        }
        i += 1;
    }
    assert(report_records(reports@) + Seq::<FtmReportRecord>::empty()
        =~= report_records(reports@));
    Ok((reports, i))
}

/// Gives channel state to the first exchange that is near.
fn attach(
    reports: &mut Vec<FTMReport>,
    channel: u32,
    channel2: u32,
    payload: &str,
    time_ps: i64,
    mac_timestamp: i64,
)
    ensures
        report_records(final(reports)@) == matched(
            report_records(old(reports)@),
            (Sample { channel, channel2, payload_b64: payload@, time_ps, mac_timestamp }),
        ),
{
    let ghost before = report_records(reports@);
    let ghost s = Sample { channel, channel2, payload_b64: payload@, time_ps, mac_timestamp };
    let mut k: usize = 0;
    while k < reports.len()
        invariant
            k <= reports@.len(),
            before == report_records(old(reports)@),
            before == report_records(reports@),
            s == (Sample { channel, channel2, payload_b64: payload@, time_ps, mac_timestamp }),
            first_near(before, time_ps, 0) == first_near(before, time_ps, k as int),
        decreases reports@.len() - k,
    {
        let delta: i64 = time_ps.wrapping_sub(reports[k].t2 as i64);
        assert(before[k as int] == reports@[k as int]@);
        if delta > -2000 && delta < 2000 {
            let report: &mut FTMReport = &mut reports[k];
            report.channel = channel;
            report.channel2 = channel2;
            report.payload_b64 = payload.to_owned();
            report.mac_timestamp = mac_timestamp;
            assert(report_records(reports@) =~= before.update(
                k as int,
                with_sample(before[k as int], s),
            ));
            return ;
        }
        k += 1;
    }
}

/// Gives the channel state in the fields from `from` on to the exchanges it
/// belongs to.
pub fn attach_csi(reports: Vec<FTMReport>, msg: &Vec<&[u8]>, from: usize) -> (r: Result<
    Vec<FTMReport>,
    String,
>)
    requires
        from <= msg@.len(),
    ensures
        match r {
            Ok(with) => all_matched(
                report_records(reports@),
                field_bytes(msg@),
                from as int,
            ) == Ok::<Seq<FtmReportRecord>, Seq<char>>(report_records(with@)),
            Err(e) => all_matched(report_records(reports@), field_bytes(msg@), from as int)
                == Err::<Seq<FtmReportRecord>, Seq<char>>(e@),
        },
{
    let ghost m = field_bytes(msg@);
    let ghost whole = all_matched(report_records(reports@), m, from as int);
    let mut with = reports;
    let mut i: usize = from;
    while msg.len() - i >= 5
        invariant
            from <= i <= msg@.len(),
            m == field_bytes(msg@),
            whole == all_matched(report_records(reports@), m, from as int),
            whole == all_matched(report_records(with@), m, i as int),
        decreases msg@.len() - i,
    {
        let channel: u64 = match read_unsigned(
            msg[i],
            "Invalid UTF-8 in seq: ",
            "Invalid seq: ",
            u32::MAX as u64,
        ) {
            Ok(v) => v,
            Err(e) => return Err(e),
        };
        let channel2: u64 = match read_unsigned(
            msg[i + 1],
            "Invalid UTF-8 in seq: ",
            "Invalid seq: ",
            u32::MAX as u64,
        ) {
            Ok(v) => v,
            Err(e) => return Err(e),
        };
        let payload = match read_trimmed(msg[i + 2], "Invalid UTF-8 in tgt_mac: ") {
            Ok(v) => v,
            Err(e) => return Err(e),
        };
        let time: u64 = match read_unsigned(
            msg[i + 3],
            "Invalid UTF-8 in seq: ",
            "Invalid seq: ",
            u64::MAX,
        ) {
            Ok(v) => v,
            Err(e) => return Err(e),
        };
        let mac_timestamp: u64 = match read_unsigned(
            msg[i + 4],
            "Invalid UTF-8 in seq: ",
            "Invalid seq: ",
            u64::MAX,
        ) {
            Ok(v) => v,
            Err(e) => return Err(e),
        };
        attach(
            &mut with,
            channel as u32,
            channel2 as u32,
            payload,
            time.wrapping_mul(1000) as i64,
            mac_timestamp as i64,
        );
        i += 5;
    }
    Ok(with)
}

/// Drops the exchanges without channel state.
fn keep_with_csi(reports: &mut Vec<FTMReport>)
    ensures
        report_records(final(reports)@) == report_records(old(reports)@).filter(
            |r: FtmReportRecord| has_csi(r),
        ),
{
    let ghost pred = |r: FtmReportRecord| has_csi(r);
    let ghost whole = report_records(reports@).filter(pred);
    let mut i: usize = 0;
    proof {
        let rs = report_records(reports@);
        assert(rs.subrange(0, 0) =~= Seq::empty());
        assert(rs.subrange(0, rs.len() as int) =~= rs);
        assert(Seq::<FtmReportRecord>::empty() + whole =~= whole);
    }
    while i < reports.len()
        invariant
            i <= reports@.len(),
            pred == (|r: FtmReportRecord| has_csi(r)),
            whole == report_records(reports@).subrange(0, i as int) + report_records(
                reports@,
            ).subrange(i as int, reports@.len() as int).filter(pred),
        decreases reports@.len() - i,
    {
        let ghost rs = report_records(reports@);
        let ghost head = rs.subrange(i as int, i + 1);
        let ghost tail = rs.subrange(i + 1, rs.len() as int);
        proof {
            assert(rs.subrange(i as int, rs.len() as int) =~= head + tail);
            Seq::filter_distributes_over_add(head, tail, pred);
            reveal(Seq::filter);
            assert(head.drop_last() =~= Seq::<FtmReportRecord>::empty());
            assert(head.drop_last().filter(pred) =~= Seq::<FtmReportRecord>::empty());
            assert(head =~= seq![rs[i as int]]);
            assert(rs[i as int] == reports@[i as int]@);
        }
        if reports[i].payload_b64.as_str().is_empty() {
            assert(head.filter(pred) =~= Seq::empty());
            reports.remove(i);
            proof {
                let now = report_records(reports@);
                assert(now.subrange(0, i as int) =~= rs.subrange(0, i as int));
                assert(now.subrange(i as int, now.len() as int) =~= tail);
                assert(Seq::<FtmReportRecord>::empty() + tail.filter(pred) =~= tail.filter(pred));
            }
        } else {
            assert(head.filter(pred) =~= head);
            proof {
                assert(rs.subrange(0, i + 1) =~= rs.subrange(0, i as int) + head);
                assert(rs.subrange(0, i as int) + (head + tail.filter(pred)) =~= rs.subrange(
                    0,
                    i + 1,
                ) + tail.filter(pred));
            }
            i += 1;
        }
    }
    proof {
        let rs = report_records(reports@);
        assert(rs.subrange(i as int, rs.len() as int) =~= Seq::empty());
        reveal(Seq::filter);
        assert(rs.subrange(0, i as int) =~= rs);
        assert(rs + Seq::<FtmReportRecord>::empty() =~= rs);
    }
}

/// Reads an FTM message.
pub fn parse_ftm(msg: Vec<&[u8]>, own_mac: &str, t_ms: u64) -> (r: Result<FTMEvent, String>)
    ensures
        match r {
            Ok(e) => ftm_of(field_bytes(msg@), own_mac@, t_ms) == Ok::<FtmRecord, Seq<char>>(e@),
            Err(e) => ftm_of(field_bytes(msg@), own_mac@, t_ms) == Err::<FtmRecord, Seq<char>>(e@),
        },
{
    let ghost m = field_bytes(msg@);
    if msg.len() < 4 {
        return Err(
            counted_text("Invalid FTM message: expected at least 4 fields, got ", msg.len()),
        );
    }
    let tgt_mac = match read_trimmed(msg[1], "Invalid UTF-8 in tgt_mac: ") {
        Ok(v) => v,
        Err(e) => return Err(e),
    };
    match read_unsigned(msg[2], "Invalid UTF-8 in seq: ", "Invalid seq: ", u32::MAX as u64) {
        Ok(_) => {},
        Err(e) => return Err(e),
    }
    let (reports, next) = match read_burst(own_mac, tgt_mac, &msg) {
        Ok(v) => v,
        Err(e) => return Err(e),
    };
    let mut reports = match attach_csi(reports, &msg, next) {
        Ok(v) => v,
        Err(e) => return Err(e),
    };
    keep_with_csi(&mut reports);
    Ok(
        FTMEvent {
            t_ms,
            own_mac: own_mac.to_owned(),
            tgt_mac: tgt_mac.to_owned(),
            seq: 0,
            reports,
        },
    )
}

/// Fields with a comma between each two, and the end of the line.
pub open spec fn csv_row(fields: Seq<Seq<char>>) -> Seq<char> {
    joined(fields, ',').push('\n')
}

impl CsiRecord {
    /// The row that is kept of a CSI event.
    pub open spec fn row(self) -> Seq<char> {
        csv_row(
            seq![
                dec(self.t_ms as nat),
                dec(self.timestamp as nat),
                self.own_mac,
                self.tgt_mac,
                signed_dec(self.seq as int),
                self.payload_b64,
                signed_dec(self.mac_timestamp as int),
                signed_dec(self.rssi as int),
                dec(self.sig_mode as nat),
            ],
        )
    }
}

impl FtmRecord {
    /// The row that is kept of one exchange of an FTM event.
    pub open spec fn report_row(self, r: FtmReportRecord) -> Seq<char> {
        csv_row(
            seq![
                self.own_mac,
                dec(self.t_ms as nat),
                dec(self.seq as nat),
                self.tgt_mac,
                dec(r.dlog_token as nat),
                signed_dec(r.rssi as int),
                dec(r.t1 as nat),
                dec(r.t2 as nat),
                dec(r.t3 as nat),
                dec(r.t4 as nat),
                r.payload_b64,
            ],
        )
    }

    /// The rows that are kept of an FTM event, one for each exchange.
    pub open spec fn rows(self) -> Seq<Seq<char>> {
        self.reports.map_values(|r: FtmReportRecord| self.report_row(r))
    }
}

impl DbgRecord {
    /// The row that is kept of a DBG event.
    pub open spec fn row(self) -> Seq<char> {
        csv_row(seq![self.own_mac, self.data_type, dec(self.len as nat), self.payload_b64])
    }
}

impl RangeRecord {
    /// The row that is kept of a range.
    pub open spec fn row(self) -> Seq<char> {
        csv_row(
            seq![
                dec(self.t_ms as nat),
                self.own_mac,
                self.tgt_mac,
                dec(self.timestamp as nat),
                self.range,
            ],
        )
    }
}

impl EspRecord {
    /// The rows that are kept of an event.
    pub open spec fn rows(self) -> Seq<Seq<char>> {
        match self {
            EspRecord::CSI(e) => seq![e.row()],
            EspRecord::FTM(e) => e.rows(),
            EspRecord::DBG(e) => seq![e.row()],
            EspRecord::Range(e) => seq![e.row()],
        }
    }

    /// The name of the kind of event.
    pub open spec fn id(self) -> Seq<char> {
        match self {
            EspRecord::CSI(_) => "CSI"@,
            EspRecord::FTM(_) => "FTM"@,
            EspRecord::DBG(_) => "DBG"@,
            EspRecord::Range(_) => "RANGE"@,
        }
    }
}

impl CSIEvent {
    /// The row that is kept of the event.
    pub fn to_csv(&self) -> (r: String)
        ensures
            r@ == self@.row(),
    {
        let mut out: String = String::new();
        let ghost mut f: Seq<Seq<char>> = seq![dec(self.t_ms as nat)];
        push_dec(&mut out, self.t_ms);
        assert(out@ =~= joined(f, ','));
        next_dec(&mut out, self.timestamp, ',', Ghost(f));
        proof {
            f = f.push(dec(self.timestamp as nat));
        }
        next_text(&mut out, self.own_mac.as_str(), ',', Ghost(f));
        proof {
            f = f.push(self.own_mac@);
        }
        next_text(&mut out, self.tgt_mac.as_str(), ',', Ghost(f));
        proof {
            f = f.push(self.tgt_mac@);
        }
        next_signed(&mut out, self.seq as i64, ',', Ghost(f));
        proof {
            f = f.push(signed_dec(self.seq as int));
        }
        next_text(&mut out, self.payload_b64.as_str(), ',', Ghost(f));
        proof {
            f = f.push(self.payload_b64@);
        }
        next_signed(&mut out, self.mac_timestamp, ',', Ghost(f));
        proof {
            f = f.push(signed_dec(self.mac_timestamp as int));
        }
        next_signed(&mut out, self.rssi as i64, ',', Ghost(f));
        proof {
            f = f.push(signed_dec(self.rssi as int));
        }
        next_dec(&mut out, self.sig_mode as u64, ',', Ghost(f));
        proof {
            f = f.push(dec(self.sig_mode as nat));
        }
        out.push('\n');
        assert(f =~= seq![
            dec(self.t_ms as nat),
            dec(self.timestamp as nat),
            self.own_mac@,
            self.tgt_mac@,
            signed_dec(self.seq as int),
            self.payload_b64@,
            signed_dec(self.mac_timestamp as int),
            signed_dec(self.rssi as int),
            dec(self.sig_mode as nat),
        ]);
        out
    }
}

impl FTMEvent {
    /// The row that is kept of one exchange.
    fn report_csv(&self, report: &FTMReport) -> (r: String)
        ensures
            r@ == self@.report_row(report@),
    {
        let mut out: String = String::new();
        let ghost mut f: Seq<Seq<char>> = seq![self.own_mac@];
        out.append(self.own_mac.as_str());
        assert(out@ =~= joined(f, ','));
        next_dec(&mut out, self.t_ms, ',', Ghost(f));
        proof {
            f = f.push(dec(self.t_ms as nat));
        }
        next_dec(&mut out, self.seq as u64, ',', Ghost(f));
        proof {
            f = f.push(dec(self.seq as nat));
        }
        next_text(&mut out, self.tgt_mac.as_str(), ',', Ghost(f));
        proof {
            f = f.push(self.tgt_mac@);
        }
        next_dec(&mut out, report.dlog_token as u64, ',', Ghost(f));
        proof {
            f = f.push(dec(report.dlog_token as nat));
        }
        next_signed(&mut out, report.rssi as i64, ',', Ghost(f));
        proof {
            f = f.push(signed_dec(report.rssi as int));
        }
        next_dec(&mut out, report.t1, ',', Ghost(f));
        proof {
            f = f.push(dec(report.t1 as nat));
        }
        next_dec(&mut out, report.t2, ',', Ghost(f));
        proof {
            f = f.push(dec(report.t2 as nat));
        }
        next_dec(&mut out, report.t3, ',', Ghost(f));
        proof {
            f = f.push(dec(report.t3 as nat));
        }
        next_dec(&mut out, report.t4, ',', Ghost(f));
        proof {
            f = f.push(dec(report.t4 as nat));
        }
        next_text(&mut out, report.payload_b64.as_str(), ',', Ghost(f));
        proof {
            f = f.push(report.payload_b64@);
        }
        out.push('\n');
        assert(f =~= seq![
            self.own_mac@,
            dec(self.t_ms as nat),
            dec(self.seq as nat),
            self.tgt_mac@,
            dec(report.dlog_token as nat),
            signed_dec(report.rssi as int),
            dec(report.t1 as nat),
            dec(report.t2 as nat),
            dec(report.t3 as nat),
            dec(report.t4 as nat),
            report.payload_b64@,
        ]);
        out
    }

    /// The rows that are kept of the event, one for each exchange.
    pub fn to_csv(&self) -> (r: Vec<String>)
        ensures
            texts(r@) == self@.rows(),
    {
        let mut rows: Vec<String> = Vec::new();
        let mut k: usize = 0;
        while k < self.reports.len()
            invariant
                k <= self.reports@.len(),
                rows@.len() == k,
                forall|j: int|
                    0 <= j < k ==> (#[trigger] rows@[j])@ == self@.report_row(self.reports@[j]@),
            decreases self.reports@.len() - k,
        {
            rows.push(self.report_csv(&self.reports[k]));
            k += 1;
        }
        assert(texts(rows@) =~= self@.rows());
        rows
    }
}

impl DBGEvent {
    /// The row that is kept of the event.
    pub fn to_csv(&self) -> (r: String)
        ensures
            r@ == self@.row(),
    {
        let mut out: String = String::new();
        let ghost mut f: Seq<Seq<char>> = seq![self.own_mac@];
        out.append(self.own_mac.as_str());
        assert(out@ =~= joined(f, ','));
        next_text(&mut out, self.data_type.as_str(), ',', Ghost(f));
        proof {
            f = f.push(self.data_type@);
        }
        next_dec(&mut out, self.len as u64, ',', Ghost(f));
        proof {
            f = f.push(dec(self.len as nat));
        }
        next_text(&mut out, self.payload_b64.as_str(), ',', Ghost(f));
        proof {
            f = f.push(self.payload_b64@);
        }
        out.push('\n');
        assert(f =~= seq![
            self.own_mac@,
            self.data_type@,
            dec(self.len as nat),
            self.payload_b64@,
        ]);
        out
    }
}

impl RangeEvent {
    /// The row that is kept of the range.
    pub fn to_csv(&self) -> (r: String)
        ensures
            r@ == self@.row(),
    {
        let mut out: String = String::new();
        let ghost mut f: Seq<Seq<char>> = seq![dec(self.t_ms as nat)];
        push_dec(&mut out, self.t_ms);
        assert(out@ =~= joined(f, ','));
        next_text(&mut out, self.own_mac.as_str(), ',', Ghost(f));
        proof {
            f = f.push(self.own_mac@);
        }
        next_text(&mut out, self.tgt_mac.as_str(), ',', Ghost(f));
        proof {
            f = f.push(self.tgt_mac@);
        }
        next_dec(&mut out, self.timestamp, ',', Ghost(f));
        proof {
            f = f.push(dec(self.timestamp as nat));
        }
        next_text(&mut out, self.range.as_str(), ',', Ghost(f));
        proof {
            f = f.push(self.range@);
        }
        out.push('\n');
        assert(f =~= seq![
            dec(self.t_ms as nat),
            self.own_mac@,
            self.tgt_mac@,
            dec(self.timestamp as nat),
            self.range@,
        ]);
        out
    }
}

impl ESPEvent {
    /// The rows that are kept of the event.
    pub fn to_csv(&self) -> (r: Vec<String>)
        ensures
            texts(r@) == self@.rows(),
    {
        let row = match self {
            ESPEvent::CSI(e) => e.to_csv(),
            ESPEvent::FTM(e) => return e.to_csv(),
            ESPEvent::DBG(e) => e.to_csv(),
            ESPEvent::Range(e) => e.to_csv(),
        };
        let mut rows: Vec<String> = Vec::new();
        rows.push(row);
        assert(texts(rows@) =~= seq![row@]);
        rows
    }

    /// The name of the kind of event.
    pub fn id_str(&self) -> (r: String)
        ensures
            r@ == self@.id(),
    {
        match self {
            ESPEvent::CSI(_) => "CSI".to_owned(),
            ESPEvent::FTM(_) => "FTM".to_owned(),
            ESPEvent::DBG(_) => "DBG".to_owned(),
            ESPEvent::Range(_) => "RANGE".to_owned(),
        }
    }
}

/// The text of a field reads as a number.
pub open spec fn reads_as(field: Seq<char>, n: nat) -> bool {
    unsigned_value(ascii_bytes(field), 10, n) == Ok::<nat, IntFault>(n)
}

/// A row on a frame is nine fields with commas between them: when the host took it in and
/// when it was received, who received it from whom, and what was measured.
pub proof fn lemma_csi_row(e: CsiRecord) -> (f: Seq<Seq<char>>)
    ensures
        e.row() == joined(f, ',').push('\n'),
        f.len() == 9,
        reads_as(f[0], e.t_ms as nat),
        reads_as(f[1], e.timestamp as nat),
        f[2] == e.own_mac,
        f[3] == e.tgt_mac,
        f[4] == signed_dec(e.seq as int),
        f[5] == e.payload_b64,
        f[6] == signed_dec(e.mac_timestamp as int),
        f[7] == signed_dec(e.rssi as int),
        reads_as(f[8], e.sig_mode as nat),
{
    lemma_dec_round_trip(e.t_ms as nat, e.t_ms as nat);
    lemma_dec_round_trip(e.timestamp as nat, e.timestamp as nat);
    lemma_dec_round_trip(e.sig_mode as nat, e.sig_mode as nat);
    seq![
        dec(e.t_ms as nat),
        dec(e.timestamp as nat),
        e.own_mac,
        e.tgt_mac,
        signed_dec(e.seq as int),
        e.payload_b64,
        signed_dec(e.mac_timestamp as int),
        signed_dec(e.rssi as int),
        dec(e.sig_mode as nat),
    ]
}

/// Of a session there is a row for each exchange, in their order: eleven fields with commas
/// between them, the four times of the exchange among them.
pub proof fn lemma_ftm_row(e: FtmRecord, k: int) -> (f: Seq<Seq<char>>)
    requires
        0 <= k < e.reports.len(),
    ensures
        e.rows().len() == e.reports.len(),
        e.rows()[k] == joined(f, ',').push('\n'),
        f.len() == 11,
        f[0] == e.own_mac,
        reads_as(f[1], e.t_ms as nat),
        reads_as(f[2], e.seq as nat),
        f[3] == e.tgt_mac,
        reads_as(f[4], e.reports[k].dlog_token as nat),
        f[5] == signed_dec(e.reports[k].rssi as int),
        reads_as(f[6], e.reports[k].t1 as nat),
        reads_as(f[7], e.reports[k].t2 as nat),
        reads_as(f[8], e.reports[k].t3 as nat),
        reads_as(f[9], e.reports[k].t4 as nat),
        f[10] == e.reports[k].payload_b64,
{
    let r = e.reports[k];
    lemma_dec_round_trip(e.t_ms as nat, e.t_ms as nat);
    lemma_dec_round_trip(e.seq as nat, e.seq as nat);
    lemma_dec_round_trip(r.dlog_token as nat, r.dlog_token as nat);
    lemma_dec_round_trip(r.t1 as nat, r.t1 as nat);
    lemma_dec_round_trip(r.t2 as nat, r.t2 as nat);
    lemma_dec_round_trip(r.t3 as nat, r.t3 as nat);
    lemma_dec_round_trip(r.t4 as nat, r.t4 as nat);
    seq![
        e.own_mac,
        dec(e.t_ms as nat),
        dec(e.seq as nat),
        e.tgt_mac,
        dec(r.dlog_token as nat),
        signed_dec(r.rssi as int),
        dec(r.t1 as nat),
        dec(r.t2 as nat),
        dec(r.t3 as nat),
        dec(r.t4 as nat),
        r.payload_b64,
    ]
}

/// A row on raw numbers is four fields with commas between them, and one on a range five;
/// every event but a session has one row.
pub proof fn lemma_other_rows(d: DbgRecord, r: RangeRecord, c: CsiRecord) -> (f: (
    Seq<Seq<char>>,
    Seq<Seq<char>>,
))
    ensures
        d.row() == joined(f.0, ',').push('\n'),
        f.0.len() == 4,
        f.0[0] == d.own_mac,
        f.0[1] == d.data_type,
        reads_as(f.0[2], d.len as nat),
        f.0[3] == d.payload_b64,
        r.row() == joined(f.1, ',').push('\n'),
        f.1.len() == 5,
        reads_as(f.1[0], r.t_ms as nat),
        f.1[1] == r.own_mac,
        f.1[2] == r.tgt_mac,
        reads_as(f.1[3], r.timestamp as nat),
        f.1[4] == r.range,
        EspRecord::DBG(d).rows() == seq![d.row()],
        EspRecord::Range(r).rows() == seq![r.row()],
        EspRecord::CSI(c).rows() == seq![c.row()],
{
    lemma_dec_round_trip(d.len as nat, d.len as nat);
    lemma_dec_round_trip(r.t_ms as nat, r.t_ms as nat);
    lemma_dec_round_trip(r.timestamp as nat, r.timestamp as nat);
    (
        seq![d.own_mac, d.data_type, dec(d.len as nat), d.payload_b64],
        seq![dec(r.t_ms as nat), r.own_mac, r.tgt_mac, dec(r.timestamp as nat), r.range],
    )
}

/// A message is read only if it has as many fields as its kind: eleven on a frame, four on
/// raw numbers or a range, and at least four on a session; and one on a frame only if its
/// payload is as long as it says.
pub proof fn lemma_field_counts(m: Seq<Seq<u8>>, own_mac: Seq<char>, t_ms: u64)
    ensures
        csi_of(m, own_mac, t_ms) is Ok ==> m.len() == 11,
        csi_of(m, own_mac, t_ms) is Ok ==> unsigned_value(m[5], 10, usize::MAX as nat) == Ok::<
            nat,
            IntFault,
        >(m[6].len()),
        dbg_of(m, own_mac) is Ok ==> m.len() == 4,
        range_of(m, own_mac, t_ms) is Ok ==> m.len() == 4,
        ftm_of(m, own_mac, t_ms) is Ok ==> m.len() >= 4,
        m.len() != 11 ==> csi_of(m, own_mac, t_ms) == Err::<CsiRecord, Seq<char>>(
            "Invalid CSI message: expected 10 fields, got "@ + dec(m.len()),
        ),
        m.len() != 4 ==> dbg_of(m, own_mac) == Err::<DbgRecord, Seq<char>>(
            "Invalid DBG message: expected 4 fields, got "@ + dec(m.len()),
        ),
        m.len() != 4 ==> range_of(m, own_mac, t_ms) == Err::<RangeRecord, Seq<char>>(
            "Invalid RANGE message: expected 4 fields, got "@ + dec(m.len()),
        ),
        m.len() < 4 ==> ftm_of(m, own_mac, t_ms) == Err::<FtmRecord, Seq<char>>(
            "Invalid FTM message: expected at least 4 fields, got "@ + dec(m.len()),
        ),
{
}

/// A CSI message is read just where each of its fields reads as what it is for, and then
/// says just that, for all numbers that fit: the times in 64 bits, the first of them
/// hexadecimal; the channels in 32; and the kind of signal in eight.
#[verifier::rlimit(50)]
pub proof fn lemma_csi_exact(m: Seq<Seq<u8>>, own_mac: Seq<char>, t_ms: u64)
    ensures
        csi_of(m, own_mac, t_ms) is Ok <==> {
            &&& m.len() == 11
            &&& forall|i: int| 1 <= i < 11 ==> valid_utf8(#[trigger] m[i])
            &&& unsigned_value(encode_utf8(trimmed(decode_utf8(m[1]))), 16, u64::MAX as nat) is Ok
            &&& signed_value(m[2]) is Ok
            &&& unsigned_value(m[4], 10, u64::MAX as nat) is Ok
            &&& unsigned_value(m[5], 10, usize::MAX as nat) == Ok::<nat, IntFault>(m[6].len())
            &&& unsigned_value(m[7], 10, 0xffff_ffff) is Ok
            &&& unsigned_value(m[8], 10, 0xffff_ffff) is Ok
            &&& signed_value(m[9]) is Ok
            &&& unsigned_value(m[10], 10, 255) is Ok
        },
        csi_of(m, own_mac, t_ms) matches Ok(e) ==> {
            &&& e.t_ms == t_ms
            &&& e.own_mac == own_mac
            &&& (e.mac_timestamp - unsigned_value(
                encode_utf8(trimmed(decode_utf8(m[1]))),
                16,
                u64::MAX as nat,
            )->Ok_0) % 0x1_0000_0000_0000_0000 == 0
            &&& e.seq == signed_value(m[2])->Ok_0
            &&& e.tgt_mac == trimmed(decode_utf8(m[3]))
            &&& e.timestamp == unsigned_value(m[4], 10, u64::MAX as nat)->Ok_0
            &&& e.payload_b64 == decode_utf8(m[6])
            &&& e.channel == unsigned_value(m[7], 10, 0xffff_ffff)->Ok_0
            &&& e.channel2 == unsigned_value(m[8], 10, 0xffff_ffff)->Ok_0
            &&& e.rssi == signed_value(m[9])->Ok_0
            &&& e.sig_mode == unsigned_value(m[10], 10, 255)->Ok_0
        },
{
    if m.len() == 11 {
        let time = unsigned_value(
            encode_utf8(trimmed(decode_utf8(m[1]))),
            16,
            u64::MAX as nat,
        );
        lemma_value_bounds(encode_utf8(trimmed(decode_utf8(m[1]))), 16, u64::MAX as nat);
        lemma_value_bounds(m[4], 10, u64::MAX as nat);
        lemma_value_bounds(m[7], 10, u32::MAX as nat);
        lemma_value_bounds(m[8], 10, u32::MAX as nat);
        lemma_value_bounds(m[10], 10, u8::MAX as nat);
        lemma_value_bounds(m[2], 10, 0);
        lemma_value_bounds(m[9], 10, 0);
        if time is Ok {
            lemma_as_signed(time->Ok_0 as u64);
        }
        assert(valid_utf8(m[1]) && valid_utf8(m[2]) && valid_utf8(m[3]) && valid_utf8(m[4])
            && valid_utf8(m[5]) && valid_utf8(m[6]) && valid_utf8(m[7]) && valid_utf8(m[8])
            && valid_utf8(m[9]) && valid_utf8(m[10]) ==> forall|i: int|
            1 <= i < 11 ==> valid_utf8(#[trigger] m[i]));
    }
}

/// A DBG message is read just where each of its fields reads as what it is for, and a RANGE
/// message too; and they say just that.
pub proof fn lemma_dbg_range_exact(m: Seq<Seq<u8>>, own_mac: Seq<char>, t_ms: u64)
    ensures
        dbg_of(m, own_mac) is Ok <==> {
            &&& m.len() == 4
            &&& valid_utf8(m[1]) && valid_utf8(m[2]) && valid_utf8(m[3])
            &&& unsigned_value(
                encode_utf8(trimmed(decode_utf8(m[2]))),
                10,
                usize::MAX as nat,
            ) is Ok
        },
        dbg_of(m, own_mac) matches Ok(e) ==> {
            &&& e.own_mac == own_mac
            &&& e.data_type == trimmed(decode_utf8(m[1]))
            &&& e.len == unsigned_value(
                encode_utf8(trimmed(decode_utf8(m[2]))),
                10,
                usize::MAX as nat,
            )->Ok_0
            &&& e.payload_b64 == trimmed(decode_utf8(m[3]))
        },
        range_of(m, own_mac, t_ms) is Ok <==> {
            &&& m.len() == 4
            &&& valid_utf8(m[1]) && valid_utf8(m[2]) && valid_utf8(m[3])
            &&& unsigned_value(encode_utf8(trimmed(decode_utf8(m[2]))), 10, u64::MAX as nat) is Ok
            &&& float_fault(encode_utf8(trimmed(decode_utf8(m[3])))) is None
        },
        range_of(m, own_mac, t_ms) matches Ok(e) ==> {
            &&& e.t_ms == t_ms
            &&& e.own_mac == own_mac
            &&& e.tgt_mac == trimmed(decode_utf8(m[1]))
            &&& e.timestamp == unsigned_value(
                encode_utf8(trimmed(decode_utf8(m[2]))),
                10,
                u64::MAX as nat,
            )->Ok_0
            &&& e.range == trimmed(decode_utf8(m[3]))
        },
{
    lemma_value_bounds(encode_utf8(trimmed(decode_utf8(m[2]))), 10, u64::MAX as nat);
    lemma_value_bounds(encode_utf8(trimmed(decode_utf8(m[2]))), 10, usize::MAX as nat);
}

/// Channel state is read just where each of its five fields reads as what it is for, and
/// then says just that.
#[verifier::rlimit(50)]
pub proof fn lemma_sample_exact(m: Seq<Seq<u8>>, i: int)
    ensures
        sample_at(m, i) is Ok <==> {
            &&& valid_utf8(m[i]) && valid_utf8(m[i + 1]) && valid_utf8(m[i + 2]) && valid_utf8(
                m[i + 3],
            ) && valid_utf8(m[i + 4])
            &&& unsigned_value(m[i], 10, 0xffff_ffff) is Ok
            &&& unsigned_value(m[i + 1], 10, 0xffff_ffff) is Ok
            &&& unsigned_value(m[i + 3], 10, u64::MAX as nat) is Ok
            &&& unsigned_value(m[i + 4], 10, u64::MAX as nat) is Ok
        },
        sample_at(m, i) matches Ok(s) ==> {
            &&& s.channel == unsigned_value(m[i], 10, 0xffff_ffff)->Ok_0
            &&& s.channel2 == unsigned_value(m[i + 1], 10, 0xffff_ffff)->Ok_0
            &&& s.payload_b64 == trimmed(decode_utf8(m[i + 2]))
            &&& (s.time_ps - 1000 * unsigned_value(m[i + 3], 10, u64::MAX as nat)->Ok_0)
                % 0x1_0000_0000_0000_0000 == 0
            &&& (s.mac_timestamp - unsigned_value(m[i + 4], 10, u64::MAX as nat)->Ok_0)
                % 0x1_0000_0000_0000_0000 == 0
        },
{
    let time = unsigned_value(m[i + 3], 10, u64::MAX as nat);
    let clock = unsigned_value(m[i + 4], 10, u64::MAX as nat);
    lemma_value_bounds(m[i], 10, u32::MAX as nat);
    lemma_value_bounds(m[i + 1], 10, u32::MAX as nat);
    lemma_value_bounds(m[i + 3], 10, u64::MAX as nat);
    lemma_value_bounds(m[i + 4], 10, u64::MAX as nat);
    if time is Ok && clock is Ok {
        lemma_as_signed((time->Ok_0 as u64).wrapping_mul(1000));
        lemma_as_signed(clock->Ok_0 as u64);
    }
}

/// The exchanges of an FTM message are those of all its payloads up to the mark, one
/// payload after the other, however many there are and however many exchanges each holds.
/// A payload that cannot be decoded, or that does not hold whole exchanges, is a fault.
pub proof fn lemma_burst_adds(
    own_mac: Seq<char>,
    tgt_mac: Seq<char>,
    m: Seq<Seq<u8>>,
    i: int,
    payload: Seq<u8>,
)
    requires
        0 <= i < m.len(),
        valid_utf8(m[i]),
    ensures
        trimmed(decode_utf8(m[i])) == "CSI"@ ==> burst(own_mac, tgt_mac, m, i) == Ok::<
            (Seq<FtmReportRecord>, int),
            Seq<char>,
        >((Seq::empty(), i + 1)),
        trimmed(decode_utf8(m[i])) != "CSI"@ && b64_decoding(m[i]) == Ok::<Seq<u8>, Seq<char>>(
            payload,
        ) && payload.len() % 40 == 0 ==> match burst(own_mac, tgt_mac, m, i + 1) {
            Ok((rest, next)) => burst(own_mac, tgt_mac, m, i) == Ok::<
                (Seq<FtmReportRecord>, int),
                Seq<char>,
            >((exchanges(own_mac, tgt_mac, payload) + rest, next)),
            Err(e) => burst(own_mac, tgt_mac, m, i) == Err::<
                (Seq<FtmReportRecord>, int),
                Seq<char>,
            >(e),
        },
        trimmed(decode_utf8(m[i])) != "CSI"@ && b64_decoding(m[i]) == Ok::<Seq<u8>, Seq<char>>(
            payload,
        ) && payload.len() % 40 != 0 ==> burst(own_mac, tgt_mac, m, i) is Err,
        trimmed(decode_utf8(m[i])) != "CSI"@ && b64_decoding(m[i]) is Err ==> burst(
            own_mac,
            tgt_mac,
            m,
            i,
        ) is Err,
        burst(own_mac, tgt_mac, m, m.len() as int) == Ok::<(Seq<FtmReportRecord>, int), Seq<char>>(
            (Seq::empty(), m.len() as int),
        ),
{
}

/// The number of exchanges that an FTM message names is read, and does not matter: any that
/// fits into 32 bits is taken.
pub proof fn lemma_ftm_head(m: Seq<Seq<u8>>, own_mac: Seq<char>, t_ms: u64)
    ensures
        ftm_of(m, own_mac, t_ms) is Ok ==> m.len() >= 4 && valid_utf8(m[1]) && valid_utf8(m[2])
            && unsigned_value(m[2], 10, 0xffff_ffff) is Ok,
        m.len() >= 4 && valid_utf8(m[1]) && valid_utf8(m[2]) && unsigned_value(
            m[2],
            10,
            0xffff_ffff,
        ) is Ok && (burst(own_mac, trimmed(decode_utf8(m[1])), m, 4) matches Ok((reports, next))
            && all_matched(reports, m, next) is Ok) ==> ftm_of(m, own_mac, t_ms) is Ok,
{
}

} // verus!
