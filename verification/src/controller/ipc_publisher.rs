//! Where events are published on the machine of the server.
use vstd::prelude::*;
use vstd::string::StrSliceExecFns;
use crate::controller::tlv::{ESPEvent, EspRecord};
use crate::utf8::{chars_of, str_eq};

verus! {

/// The address at which a kind of event is published.
pub open spec fn path_of(e: EspRecord) -> Seq<char> {
    match e {
        EspRecord::CSI(_) => "ipc:///tmp/wipro_csi_data"@,
        EspRecord::FTM(_) => "ipc:///tmp/wipro_ftm_data"@,
        EspRecord::DBG(_) => "ipc:///tmp/wipro_dbg_data"@,
        EspRecord::Range(_) => "ipc:///tmp/wipro_range_data"@,
    }
}

/// The address at which an event is published.
pub fn ipc_path(event: &ESPEvent) -> (r: &'static str)
    ensures
        r@ == path_of(event@),
{
    match event {
        ESPEvent::CSI(_) => "ipc:///tmp/wipro_csi_data",
        ESPEvent::FTM(_) => "ipc:///tmp/wipro_ftm_data",
        ESPEvent::DBG(_) => "ipc:///tmp/wipro_dbg_data",
        ESPEvent::Range(_) => "ipc:///tmp/wipro_range_data",
    }
}

/// The file of an address, where it stands for one.
pub open spec fn file_of_path(path: Seq<char>) -> Option<Seq<char>> {
    if "ipc://"@.is_prefix_of(path) {
        Some(path.skip(6))
    } else {
        None
    }
}

/// The file of an address, where it stands for one.
pub fn socket_file(path: &str) -> (r: Option<&str>)
    ensures
        match r {
            Some(f) => file_of_path(path@) == Some(f@),
            None => file_of_path(path@) is None,
        },
{
    proof {
        reveal_strlit("ipc://");
    }
    let chars: Vec<char> = chars_of(path);
    if chars.len() < 6 {
        return None;
    }
    let head: &str = path.substring_char(0, 6);
    if str_eq(head, "ipc://") {
        let file: &str = path.substring_char(6, chars.len());
        assert(file@ =~= path@.skip(6));
        Some(file)
    } else {
        None
    }
}

/// Each kind of event has an address of its own, which stands for a file that is named
/// after it.
pub proof fn lemma_paths(a: EspRecord, b: EspRecord)
    ensures
        file_of_path(path_of(a)) is Some,
        match a {
            EspRecord::CSI(_) => file_of_path(path_of(a))->0 == "/tmp/wipro_csi_data"@,
            EspRecord::FTM(_) => file_of_path(path_of(a))->0 == "/tmp/wipro_ftm_data"@,
            EspRecord::DBG(_) => file_of_path(path_of(a))->0 == "/tmp/wipro_dbg_data"@,
            EspRecord::Range(_) => file_of_path(path_of(a))->0 == "/tmp/wipro_range_data"@,
        },
        path_of(a) == path_of(b) ==> (a is CSI <==> b is CSI) && (a is FTM <==> b is FTM) && (
        a is DBG <==> b is DBG) && (a is Range <==> b is Range),
{
    reveal_strlit("ipc://");
    reveal_strlit("ipc:///tmp/wipro_csi_data");
    reveal_strlit("ipc:///tmp/wipro_ftm_data");
    reveal_strlit("ipc:///tmp/wipro_dbg_data");
    reveal_strlit("ipc:///tmp/wipro_range_data");
    reveal_strlit("/tmp/wipro_csi_data");
    reveal_strlit("/tmp/wipro_ftm_data");
    reveal_strlit("/tmp/wipro_dbg_data");
    reveal_strlit("/tmp/wipro_range_data");
    assert("ipc://"@ =~= path_of(a).subrange(0, 6));
    assert("ipc:///tmp/wipro_csi_data"@.skip(6) =~= "/tmp/wipro_csi_data"@);
    assert("ipc:///tmp/wipro_ftm_data"@.skip(6) =~= "/tmp/wipro_ftm_data"@);
    assert("ipc:///tmp/wipro_dbg_data"@.skip(6) =~= "/tmp/wipro_dbg_data"@);
    assert("ipc:///tmp/wipro_range_data"@.skip(6) =~= "/tmp/wipro_range_data"@);
    assert("ipc:///tmp/wipro_csi_data"@[17] == 'c');
    assert("ipc:///tmp/wipro_ftm_data"@[17] == 'f');
    assert("ipc:///tmp/wipro_dbg_data"@[17] == 'd');
    assert("ipc:///tmp/wipro_range_data"@[17] == 'r');
}

/// An address stands for the file that it names behind `ipc://`, and for none if it starts
/// otherwise.
pub proof fn lemma_file_of_path(file: Seq<char>, path: Seq<char>)
    ensures
        file_of_path("ipc://"@ + file) == Some(file),
        file_of_path(path) matches Some(f) ==> path == "ipc://"@ + f,
{
    reveal_strlit("ipc://");
    let whole = "ipc://"@ + file;
    assert("ipc://"@ =~= whole.subrange(0, 6));
    assert(whole.skip(6) =~= file);
    if "ipc://"@.is_prefix_of(path) {
        assert(path =~= path.subrange(0, 6) + path.skip(6));
    }
}

} // verus!
