//! Between a server and the program at the serial line: where the server is, and
//! the commands that it sends.
use vstd::prelude::*;
use vstd::utf8::*;
use crate::controller::esp_io::command_line;
use crate::text::{dec, push_dec};
use crate::utf8::{lossy_string, lossy_text};

verus! {

/// The address of a server.
pub fn server_address(ip: &str, port: u16) -> (r: String)
    ensures
        r@ == "tcp://"@ + ip@ + seq![':'] + dec(port as nat),
{
    let mut out: String = String::new();
    out.append("tcp://");
    out.append(ip);
    out.push(':');
    push_dec(&mut out, port as u64);
    assert(out@ =~= "tcp://"@ + ip@ + seq![':'] + dec(port as nat));
    out
}

/// What a server says in a message, which is in its last frame: the text, and the
/// line for the node.
pub fn server_message(frames: &Vec<Vec<u8>>) -> (r: Option<(String, String)>)
    ensures
        match r {
            Some((text, line)) => frames@.len() > 0 && text@ == lossy_text(frames@.last()@)
                && line@ == text@.push('\n') && (valid_utf8(frames@.last()@) ==> text@
                == decode_utf8(frames@.last()@)),
            None => frames@.len() == 0,
        },
{
    if frames.len() == 0 {
        return None;
    }
    let text = lossy_string(frames[frames.len() - 1].as_slice());
    let line = command_line(text.as_str());
    Some((text, line))
}

} // verus!
