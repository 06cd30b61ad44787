//! The serial line to a node: what its lines say, and where that is kept.
use vstd::prelude::*;
use vstd::utf8::*;
use crate::controller::tlv::{
    csi_of, dbg_of, ftm_of, parse, parse_csi, parse_dbg, parse_ftm, ESPEvent, EspRecord,
};
use crate::frame::{field_bytes, fields_of};
use crate::utf8::{bytes_eq, str_from_utf8, trim, trimmed};

verus! {

/// A field reads as the given word.
pub open spec fn reads(field: Seq<u8>, word: Seq<char>) -> bool {
    field == encode_utf8(word)
}

/// Whether a field reads as the given word.
fn field_reads(field: &[u8], word: &str) -> (r: bool)
    ensures
        r == reads(field@, word@),
{
    bytes_eq(field, word.as_bytes())
}

/// What became of a message.
pub enum MessageOutcome {
    /// There is nothing to do about it.
    Ignored,
    /// The address of the node is not known yet, so it is left.
    MacUnknown,
    /// It is of a kind that is not read.
    Unread,
    /// It reports an event.
    Event(ESPEvent),
    /// It has a fault.
    Fault(String),
}

/// A `MessageOutcome` with its texts as character sequences.
pub enum OutcomeRecord {
    Ignored,
    MacUnknown,
    Unread,
    Event(EspRecord),
    Fault(Seq<char>),
}

impl View for MessageOutcome {
    type V = OutcomeRecord;

    open spec fn view(&self) -> OutcomeRecord {
        match self {
            MessageOutcome::Ignored => OutcomeRecord::Ignored,
            MessageOutcome::MacUnknown => OutcomeRecord::MacUnknown,
            MessageOutcome::Unread => OutcomeRecord::Unread,
            MessageOutcome::Event(e) => OutcomeRecord::Event(e@),
            MessageOutcome::Fault(e) => OutcomeRecord::Fault(e@),
        }
    }
}

/// The address of a node, once it is known.
pub open spec fn mac_view(mac: Option<String>) -> Option<Seq<char>> {
    match mac {
        Some(s) => Some(s@),
        None => None,
    }
}

/// A message that names the address of a node has a field for it, which is text.
pub open spec fn mac_ok(m: Seq<Seq<u8>>) -> bool {
    m.len() > 0 && reads(m[0], "MAC"@) ==> m.len() > 1 && valid_utf8(m[1])
}

/// The address of a node after a message: the first one that it named.
pub open spec fn mac_after(mac: Option<Seq<char>>, m: Seq<Seq<u8>>) -> Option<Seq<char>> {
    if mac is None && m.len() > 0 && reads(m[0], "MAC"@) {
        Some(trimmed(decode_utf8(m[1])))
    } else {
        mac
    }
}

/// What becomes of a message that comes in at the given time.
pub open spec fn outcome_of(mac: Option<Seq<char>>, m: Seq<Seq<u8>>, t_ms: u64) -> OutcomeRecord {
    if m.len() == 0 || reads(m[0], "MAC"@) {
        OutcomeRecord::Ignored
    } else {
        match mac {
            None => OutcomeRecord::MacUnknown,
            Some(own_mac) => if reads(m[0], "CSI"@) {
                match csi_of(m, own_mac, t_ms) {
                    Ok(e) => OutcomeRecord::Event(EspRecord::CSI(e)),
                    Err(e) => OutcomeRecord::Fault(e),
                }
            } else if reads(m[0], "FTM"@) {
                match ftm_of(m, own_mac, t_ms) {
                    Ok(e) => OutcomeRecord::Event(EspRecord::FTM(e)),
                    Err(e) => OutcomeRecord::Fault(e),
                }
            } else if reads(m[0], "DBG"@) {
                match dbg_of(m, own_mac) {
                    Ok(e) => OutcomeRecord::Event(EspRecord::DBG(e)),
                    Err(e) => OutcomeRecord::Fault(e),
                }
            } else {
                OutcomeRecord::Unread
            },
        }
    }
}

/// A message is read only once the address of the node is known, and never where it names
/// that address; and one of a kind that is not CSI, FTM or DBG is not read at all.
pub proof fn lemma_unread(mac: Option<Seq<char>>, m: Seq<Seq<u8>>, t_ms: u64)
    requires
        m.len() > 0,
    ensures
        m[0] == encode_utf8("MAC"@) ==> outcome_of(mac, m, t_ms) == OutcomeRecord::Ignored,
        m[0] != encode_utf8("MAC"@) && mac is None ==> outcome_of(mac, m, t_ms)
            == OutcomeRecord::MacUnknown,
        m[0] != encode_utf8("MAC"@) && m[0] != encode_utf8("CSI"@) && m[0] != encode_utf8("FTM"@)
            && m[0] != encode_utf8("DBG"@) && mac is Some ==> outcome_of(mac, m, t_ms)
            == OutcomeRecord::Unread,
        outcome_of(mac, m, t_ms) is Event ==> mac is Some,
        m[0] != encode_utf8("MAC"@) || mac is Some ==> mac_after(mac, m) == mac,
        m[0] == encode_utf8("MAC"@) ==> mac_after(mac, m) is Some,
{
}

/// Whether a message that names the address of a node names it well.
pub fn mac_message_ok(msg: &Vec<&[u8]>) -> (r: bool)
    ensures
        r == mac_ok(field_bytes(msg@)),
{
    if msg.len() == 0 {
        return true;
    }
    let ghost m = field_bytes(msg@);
    assert(m[0] == msg@[0]@);
    if !field_reads(msg[0], "MAC") {
        return true;
    }
    if msg.len() < 2 {
        return false;
    }
    assert(m[1] == msg@[1]@);
    str_from_utf8(msg[1]).is_ok()
}

/// Takes in a message: notes the address of the node, or reads what the node
/// reports.
pub fn handle_message(esp_mac: &mut Option<String>, msg: Vec<&[u8]>, host_time_ms: u64) -> (r:
    MessageOutcome)
    requires
        mac_ok(field_bytes(msg@)),
    ensures
        r@ == outcome_of(mac_view(*old(esp_mac)), field_bytes(msg@), host_time_ms),
        mac_view(*final(esp_mac)) == mac_after(mac_view(*old(esp_mac)), field_bytes(msg@)),
{
    let ghost m = field_bytes(msg@);
    if msg.len() == 0 {
        return MessageOutcome::Ignored;
    }
    assert(m[0] == msg@[0]@);
    let kind: &[u8] = msg[0];
    if field_reads(kind, "MAC") {
        assert(m[1] == msg@[1]@);
        match str_from_utf8(msg[1]) {
            Ok(text) => {
                if esp_mac.is_none() {
                    *esp_mac = Some(trim(text).to_owned());
                }
            },
            Err(_) => {},
        }
        return MessageOutcome::Ignored;
    }
    let own_mac: &str = match esp_mac.as_ref() {
        Some(s) => s.as_str(),
        None => return MessageOutcome::MacUnknown,
    };
    if field_reads(kind, "CSI") {
        match parse_csi(msg, own_mac, host_time_ms) {
            Ok(e) => MessageOutcome::Event(ESPEvent::CSI(e)),
            Err(e) => MessageOutcome::Fault(e),
        }
    } else if field_reads(kind, "FTM") {
        match parse_ftm(msg, own_mac, host_time_ms) {
            Ok(e) => MessageOutcome::Event(ESPEvent::FTM(e)),
            Err(e) => MessageOutcome::Fault(e),
        }
    } else if field_reads(kind, "DBG") {
        match parse_dbg(msg, own_mac, host_time_ms) {
            Ok(e) => MessageOutcome::Event(ESPEvent::DBG(e)),
            Err(e) => MessageOutcome::Fault(e),
        }
    } else {
        MessageOutcome::Unread
    }
}

/// What becomes of a line.
pub enum LineOutcome<'a> {
    /// It has a message on it.
    Message(Vec<&'a [u8]>),
    /// It is shown, without white space at either end.
    Show(&'a str),
    /// It is too short to be shown.
    Quiet,
}

/// Takes in a line: looks for a message on it, and else shows it if it is longer
/// than four bytes.
pub fn read_line(line: &str) -> (r: LineOutcome<'_>)
    ensures
        match r {
            LineOutcome::Message(fields) => fields_of(encode_utf8(line@)) == Some(
                field_bytes(fields@),
            ),
            LineOutcome::Show(s) => fields_of(encode_utf8(line@)) is None && s@ == trimmed(line@)
                && encode_utf8(s@).len() > 4,
            LineOutcome::Quiet => fields_of(encode_utf8(line@)) is None && encode_utf8(
                trimmed(line@),
            ).len() <= 4,
        },
{
    match parse(line) {
        Some(fields) => LineOutcome::Message(fields),
        None => {
            let s: &str = trim(line);
            if s.as_bytes().len() > 4 {
                LineOutcome::Show(s)
            } else {
                LineOutcome::Quiet
            }
        },
    }
}

/// The line that carries a command to a node.
pub fn command_line(cmd: &str) -> (r: String)
    ensures
        r@ == cmd@.push('\n'),
{
    let mut out: String = cmd.to_owned();
    out.push('\n');
    out
}

/// A file that data is kept in.
#[derive(Clone, Copy, Debug, PartialEq, Eq, Structural)]
pub enum OutputFile {
    Raw,
    Ftm,
    Csi,
    Dbg,
    Range,
}

/// The name of a file.
pub open spec fn file_text(f: OutputFile) -> Seq<char> {
    match f {
        OutputFile::Raw => "raw.dat"@,
        OutputFile::Ftm => "ftm.csv"@,
        OutputFile::Csi => "csi.csv"@,
        OutputFile::Dbg => "dbg.csv"@,
        OutputFile::Range => "range.csv"@,
    }
}

/// The name of a file.
pub fn file_name(f: OutputFile) -> (r: &'static str)
    ensures
        r@ == file_text(f),
{
    match f {
        OutputFile::Raw => "raw.dat",
        OutputFile::Ftm => "ftm.csv",
        OutputFile::Csi => "csi.csv",
        OutputFile::Dbg => "dbg.csv",
        OutputFile::Range => "range.csv",
    }
}

/// The file that the rows of an event go to.
pub open spec fn file_of(e: EspRecord) -> OutputFile {
    match e {
        EspRecord::CSI(_) => OutputFile::Csi,
        EspRecord::FTM(_) => OutputFile::Ftm,
        EspRecord::DBG(_) => OutputFile::Dbg,
        EspRecord::Range(_) => OutputFile::Range,
    }
}

/// The file that the rows of an event go to.
pub fn event_file(event: &ESPEvent) -> (r: OutputFile)
    ensures
        r == file_of(event@),
{
    match event {
        ESPEvent::CSI(_) => OutputFile::Csi,
        ESPEvent::FTM(_) => OutputFile::Ftm,
        ESPEvent::DBG(_) => OutputFile::Dbg,
        ESPEvent::Range(_) => OutputFile::Range,
    }
}

/// The rows of different kinds of events go to files of different names, and none of them
/// to the file of all that was received.
pub proof fn lemma_files(a: EspRecord, b: EspRecord)
    ensures
        file_text(file_of(a)) == file_text(file_of(b)) ==> (a is CSI <==> b is CSI) && (
        a is FTM <==> b is FTM) && (a is DBG <==> b is DBG) && (a is Range <==> b is Range),
        file_text(file_of(a)) != "raw.dat"@,
{
    reveal_strlit("raw.dat");
    reveal_strlit("ftm.csv");
    reveal_strlit("csi.csv");
    reveal_strlit("dbg.csv");
    reveal_strlit("range.csv");
    assert("raw.dat"@[0] == 'r' && "raw.dat"@.len() == 7);
    assert("ftm.csv"@[0] == 'f');
    assert("csi.csv"@[0] == 'c');
    assert("dbg.csv"@[0] == 'd');
    assert("range.csv"@.len() == 9);
}

} // verus!
