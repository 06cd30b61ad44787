//! How the host programs are set up: where data goes, and which server takes
//! part.
use vstd::prelude::*;
use vstd::slice::slice_subrange;
use vstd::utf8::*;
use crate::frame::{find, first_at, joined, lemma_first_at_bounds, lemma_joined_push};
use crate::number::{
    lemma_dec_digits, lemma_dec_injective, lemma_dec_round_trip, parse_unsigned, unsigned_value,
    IntFault,
};
use crate::text::{ascii_bytes, dec, mac_text, push_dec};
use crate::utf8::{str_eq, str_from_utf8};

verus! {

/// A path in the file system.
#[verifier::external_type_specification]
#[verifier::external_body]
pub struct ExPathBuf(std::path::PathBuf);

/// How the program at the serial line is set up.
#[derive(Debug, Clone)]
pub struct Config {
    pub serial_port: String,
    pub output_dir: Option<std::path::PathBuf>,
    pub server: Option<(String, u16)>,
}

/// How the server is set up.
#[derive(Debug, Clone)]
pub struct ServerConfig {
    pub output_dir: Option<std::path::PathBuf>,
}

/// Why a text does not name a server.
#[derive(Clone, Copy, Debug, PartialEq, Eq, Structural)]
pub enum ServerFault {
    /// There is not exactly one colon.
    Format,
    /// What follows the colon is no port.
    Port(IntFault),
}

/// The server that a text names: an address and a port with one colon between
/// them.
pub open spec fn server_of(s: Seq<u8>) -> Result<(Seq<char>, u16), ServerFault> {
    let colon = first_at(s, 58, 0);
    if colon >= s.len() || first_at(s, 58, colon + 1) < s.len() {
        Err(ServerFault::Format)
    } else {
        match unsigned_value(s.subrange(colon + 1, s.len() as int), 10, u16::MAX as nat) {
            Ok(port) => Ok((decode_utf8(s.subrange(0, colon)), port as u16)),
            Err(f) => Err(ServerFault::Port(f)),
        }
    }
}

/// What is before an ASCII character of a text is text.
proof fn lemma_text_before(s: Seq<u8>, k: int)
    requires
        valid_utf8(s),
        0 <= k < s.len(),
        s[k] < 128,
    ensures
        valid_utf8(s.subrange(0, k)),
{
    is_char_boundary_iff_not_is_continuation_byte(s, k);
    valid_utf8_split(s, k);
    utf8_byte_ranges_bitwise(s[k]);
}

/// Where `first_at` ends up.
proof fn lemma_first_at_found(s: Seq<u8>, b: u8, from: int)
    requires
        0 <= from,
        first_at(s, b, from) < s.len(),
    ensures
        from <= first_at(s, b, from),
        s[first_at(s, b, from)] == b,
    decreases s.len() - from,
{
    if from < s.len() && s[from] != b {
        lemma_first_at_found(s, b, from + 1);
    }
}

/// An address and a port with a colon between them name that address and that port, for
/// every port there is. A text without a colon, or with two, names no server.
pub proof fn lemma_server_named(address: Seq<u8>, port: u16, s: Seq<u8>)
    requires
        forall|i: int| 0 <= i < address.len() ==> address[i] != 58,
    ensures
        server_of(address + seq![58u8] + ascii_bytes(dec(port as nat))) == Ok::<
            (Seq<char>, u16),
            ServerFault,
        >((decode_utf8(address), port)),
        (forall|i: int| 0 <= i < s.len() ==> s[i] != 58) ==> server_of(s) == Err::<
            (Seq<char>, u16),
            ServerFault,
        >(ServerFault::Format),
        (exists|i: int, j: int|
            0 <= i < j < s.len() && #[trigger] s[i] == 58 && #[trigger] s[j] == 58) ==> server_of(s)
            == Err::<(Seq<char>, u16), ServerFault>(ServerFault::Format),
{
    let digits = ascii_bytes(dec(port as nat));
    let t = address + seq![58u8] + digits;
    let k = address.len() as int;
    lemma_dec_round_trip(port as nat, u16::MAX as nat);
    lemma_dec_digits(port as nat);
    lemma_first_at_bounds(t, 58, 0);
    assert(t[k] == 58);
    assert forall|i: int| 0 <= i < t.len() && i != k implies t[i] != 58 by {
        if i > k {
            assert(t[i] == dec(port as nat)[i - k - 1] as u8);
        }
    }
    lemma_first_at_bounds(t, 58, k + 1);
    assert(t.subrange(0, k) =~= address);
    assert(t.subrange(k + 1, t.len() as int) =~= digits);
    lemma_first_at_bounds(s, 58, 0);
    let first = first_at(s, 58, 0);
    if first < s.len() {
        lemma_first_at_bounds(s, 58, first + 1);
    }
}

/// Reads the name of a server.
pub fn parse_server(s: &str) -> (r: Result<(String, u16), ServerFault>)
    ensures
        match r {
            Ok((ip, port)) => server_of(encode_utf8(s@)) == Ok::<(Seq<char>, u16), ServerFault>(
                (ip@, port),
            ),
            Err(f) => server_of(encode_utf8(s@)) == Err::<(Seq<char>, u16), ServerFault>(f),
        },
{
    let bytes: &[u8] = s.as_bytes();
    let colon: usize = find(bytes, 58, 0);
    if colon >= bytes.len() || find(bytes, 58, colon + 1) < bytes.len() {
        return Err(ServerFault::Format);
    }
    let port: u64 = match parse_unsigned(
        slice_subrange(bytes, colon + 1, bytes.len()),
        10,
        u16::MAX as u64,
    ) {
        Ok(v) => v,
        Err(f) => return Err(ServerFault::Port(f)),
    };
    proof {
        encode_utf8_valid_utf8(s@);
        lemma_first_at_found(bytes@, 58, 0);
        lemma_text_before(bytes@, colon as int);
    }
    match str_from_utf8(slice_subrange(bytes, 0, colon)) {
        Ok(ip) => Ok((ip.to_owned(), port as u16)),
        Err(_) => Err(ServerFault::Format),
    }
}

impl Config {
    /// Puts together the arguments of the program at the serial line.
    pub fn from_args(
        serial_port: String,
        output_dir: Option<std::path::PathBuf>,
        server: Option<String>,
    ) -> (r: Result<Config, ServerFault>)
        ensures
            match r {
                Ok(c) => {
                    &&& c.serial_port == serial_port
                    &&& c.output_dir == output_dir
                    &&& match server {
                        None => c.server is None,
                        Some(s) => c.server matches Some((ip, port)) && server_of(encode_utf8(s@))
                            == Ok::<(Seq<char>, u16), ServerFault>((ip@, port)),
                    }
                },
                Err(f) => server matches Some(s) && server_of(encode_utf8(s@)) == Err::<
                    (Seq<char>, u16),
                    ServerFault,
                >(f),
            },
    {
        let server = match server {
            None => None,
            Some(s) => match parse_server(s.as_str()) {
                Ok(v) => Some(v),
                Err(f) => return Err(f),
            },
        };
        Ok(Config { serial_port, output_dir, server })
    }
}

/// A pattern for dates and times: each percent sign stands before a letter for the
/// year, the month, the day, the hour, the minute or the second.
pub open spec fn is_date_pattern(p: Seq<char>) -> bool {
    forall|i: int|
        0 <= i < p.len() && #[trigger] p[i] == '%' ==> i + 1 < p.len() && seq![
            'Y',
            'm',
            'd',
            'H',
            'M',
            'S',
        ].contains(p[i + 1])
}

/// The date and time of day in UTC at a number of seconds since 1970, as
/// `chrono` writes it by a pattern; nothing for times that it does not know.
pub uninterp spec fn utc_stamp(secs: i64, pattern: Seq<char>) -> Option<Seq<char>>;

/// Calls `chrono::DateTime::<Utc>::from_timestamp`, `format` and `to_string`.
/// The text depends on the number of seconds and the pattern alone. A pattern
/// that `format` does not know would panic, and is left out.
#[verifier::external_body]
fn utc_text(secs: i64, pattern: &str) -> (r: Option<String>)
    requires
        is_date_pattern(pattern@),
    ensures
        match r {
            Some(s) => utc_stamp(secs, pattern@) == Some(s@),
            None => utc_stamp(secs, pattern@) is None,
        },
{
    let time: Option<chrono::DateTime<chrono::Utc>> = chrono::DateTime::from_timestamp(secs, 0);
    time.map(|t| t.format(pattern).to_string())
}

/// The `k`th choice for the name of a folder with a time in it.
pub open spec fn folder_choice(stamp: Seq<char>, k: nat) -> Seq<char> {
    if k == 0 {
        "log"@ + stamp
    } else {
        "log"@ + stamp + seq!['_'] + dec(k)
    }
}

/// A name is among those that are taken.
pub open spec fn is_taken(taken: Seq<String>, name: Seq<char>) -> bool {
    exists|i: int| 0 <= i < taken.len() && (#[trigger] taken[i])@ == name
}

/// A name is the first choice that is not taken.
pub open spec fn is_first_free(taken: Seq<String>, stamp: Seq<char>, name: Seq<char>) -> bool {
    &&& !is_taken(taken, name)
    &&& exists|k: nat|
        name == #[trigger] folder_choice(stamp, k) && forall|j: nat|
            j < k ==> is_taken(taken, #[trigger] folder_choice(stamp, j))
}

/// The choices for a name are all different.
proof fn lemma_choices_differ(stamp: Seq<char>, j: nat, k: nat)
    requires
        j != k,
    ensures
        folder_choice(stamp, j) != folder_choice(stamp, k),
{
    let base = "log"@ + stamp;
    if j == 0 {
        assert(folder_choice(stamp, k).len() > base.len());
    } else if k == 0 {
        assert(folder_choice(stamp, j).len() > base.len());
    } else if folder_choice(stamp, j) == folder_choice(stamp, k) {
        let n = base.len() as int + 1;
        assert(folder_choice(stamp, j).skip(n) =~= dec(j));
        assert(folder_choice(stamp, k).skip(n) =~= dec(k));
        lemma_dec_injective(j, k);
    }
}

/// Writes the `k`th choice for the name of a folder.
fn folder_name(stamp: &str, k: u64) -> (r: String)
    ensures
        r@ == folder_choice(stamp@, k as nat),
{
    let mut out: String = String::new();
    out.append("log");
    out.append(stamp);
    if k > 0 {
        out.push('_');
        push_dec(&mut out, k);
    }
    assert(out@ =~= folder_choice(stamp@, k as nat));
    out
}

/// Whether a name is among those that are taken.
fn find_name(taken: &Vec<String>, name: &str) -> (r: bool)
    ensures
        r == is_taken(taken@, name@),
{
    let mut i: usize = 0;
    while i < taken.len()
        invariant
            i <= taken@.len(),
            forall|k: int| 0 <= k < i ==> (#[trigger] taken@[k])@ != name@,
        decreases taken@.len() - i,
    {
        if str_eq(taken[i].as_str(), name) {
            assert(taken@[i as int]@ == name@);
            return true;
        }
        i += 1;
    }
    false
}

/// How many of the first `k` choices are taken, at least: each is a name of its
/// own.
proof fn lemma_choices_taken(taken: Seq<String>, stamp: Seq<char>, k: nat)
    requires
        forall|j: nat| j < k ==> is_taken(taken, #[trigger] folder_choice(stamp, j)),
    ensures
        k <= taken.len(),
    decreases taken.len(),
{
    if k > 0 {
        let last = folder_choice(stamp, (k - 1) as nat);
        assert(is_taken(taken, last));
        let i = choose|i: int| 0 <= i < taken.len() && (#[trigger] taken[i])@ == last;
        let rest = taken.remove(i);
        assert forall|j: nat| j < k - 1 implies is_taken(
            rest,
            #[trigger] folder_choice(stamp, j),
        ) by {
            let name = folder_choice(stamp, j);
            assert(is_taken(taken, name));
            let m = choose|m: int| 0 <= m < taken.len() && (#[trigger] taken[m])@ == name;
            lemma_choices_differ(stamp, j, (k - 1) as nat);
            if m < i {
                assert(rest[m]@ == name);
            } else {
                assert(rest[m - 1]@ == name);
            }
        }
        lemma_choices_taken(rest, stamp, (k - 1) as nat);
    }
}

/// A free name for a folder, given the time: the first choice that is not among
/// the names that are taken.
pub fn free_folder(stamp: &str, taken: &Vec<String>) -> (r: String)
    ensures
        is_first_free(taken@, stamp@, r@),
{
    let mut k: u64 = 0;
    loop
        invariant
            k <= taken@.len(),
            forall|j: nat| j < k ==> is_taken(taken@, #[trigger] folder_choice(stamp@, j)),
        decreases taken@.len() - k,
    {
        let name = folder_name(stamp, k);
        if !find_name(taken, name.as_str()) {
            return name;
        }
        assert forall|j: nat| j < k + 1 implies is_taken(
            taken@,
            #[trigger] folder_choice(stamp@, j),
        ) by {
            if j == k {
                assert(folder_choice(stamp@, j) == name@);
            }
        }
        proof {
            lemma_choices_taken(taken@, stamp@, (k + 1) as nat);
            assert(taken.len() == taken@.len());
        }
        k += 1;
    }
}

/// Where the data of a run goes: into the folder that was asked for, unless it is
/// occupied, that is, exists and is not empty, and then into a folder of its own
/// in it, so that nothing is overwritten. Gives the name of that folder, if there
/// is one, which tells the date and the time, and nothing where the time has no
/// name.
pub fn output_folder(occupied: bool, now_secs: i64, taken: &Vec<String>) -> (r: Option<
    Option<String>,
>)
    ensures
        match r {
            Some(None) => !occupied,
            Some(Some(name)) => occupied && (utc_stamp(now_secs, "%Y%m%d_%H%M%S"@) matches Some(stamp)
                && is_first_free(taken@, stamp, name@)),
            None => occupied && utc_stamp(now_secs, "%Y%m%d_%H%M%S"@) is None,
        },
{
    if !occupied {
        return Some(None);
    }
    proof {
        reveal_strlit("%Y%m%d_%H%M%S");
        let letters = seq!['Y', 'm', 'd', 'H', 'M', 'S'];
        assert(letters[0] == 'Y' && letters[1] == 'm' && letters[2] == 'd');
        assert(letters[3] == 'H' && letters[4] == 'M' && letters[5] == 'S');
    }
    match utc_text(now_secs, "%Y%m%d_%H%M%S") {
        Some(stamp) => Some(Some(free_folder(stamp.as_str(), taken))),
        None => None,
    }
}

/// An address that stands for the machine itself.
pub open spec fn is_loopback(a: [u8; 4]) -> bool {
    a[0] == 127
}

/// The first address from `i` on that starts with 10, or the number of addresses.
pub open spec fn first_ten(addrs: Seq<[u8; 4]>, i: int) -> int
    decreases addrs.len() - i,
{
    if i >= addrs.len() {
        addrs.len() as int
    } else if addrs[i][0] == 10 {
        i
    } else {
        first_ten(addrs, i + 1)
    }
}

/// Among the first `n` addresses, the first of those with the lowest first byte
/// that do not stand for the machine itself.
pub open spec fn first_lowest(addrs: Seq<[u8; 4]>, n: nat) -> Option<[u8; 4]>
    decreases n,
{
    if n == 0 {
        None
    } else {
        let a = addrs[n - 1];
        match first_lowest(addrs, (n - 1) as nat) {
            None => if is_loopback(a) {
                None
            } else {
                Some(a)
            },
            Some(b) => if !is_loopback(a) && a[0] < b[0] {
                Some(a)
            } else {
                Some(b)
            },
        }
    }
}

/// The address by which a machine is known: one that starts with 10, if it has
/// one, and else one with the lowest first byte.
pub open spec fn best_address(addrs: Seq<[u8; 4]>) -> Option<[u8; 4]> {
    let k = first_ten(addrs, 0);
    if k < addrs.len() {
        Some(addrs[k])
    } else {
        first_lowest(addrs, addrs.len())
    }
}

/// Picks the address by which a machine is known.
pub fn pick_address(addrs: &[[u8; 4]]) -> (r: Option<[u8; 4]>)
    ensures
        r == best_address(addrs@),
{
    let mut i: usize = 0;
    while i < addrs.len()
        invariant
            i <= addrs@.len(),
            first_ten(addrs@, 0) == first_ten(addrs@, i as int),
        decreases addrs@.len() - i,
    {
        if addrs[i][0] == 10 {
            return Some(addrs[i]);
        }
        i += 1;
    }
    let mut best: Option<[u8; 4]> = None;
    let mut n: usize = 0;
    while n < addrs.len()
        invariant
            n <= addrs@.len(),
            best == first_lowest(addrs@, n as nat),
        decreases addrs@.len() - n,
    {
        let a: [u8; 4] = addrs[n];
        if a[0] != 127 {
            best = match best {
                None => Some(a),
                Some(b) => if a[0] < b[0] {
                    Some(a)
                } else {
                    Some(b)
                },
            };
        }
        n += 1;
    }
    best
}

/// The text of an address: its bytes in decimal, with dots between them.
pub open spec fn address_text(a: [u8; 4]) -> Seq<char> {
    dec(a[0] as nat) + seq!['.'] + dec(a[1] as nat) + seq!['.'] + dec(a[2] as nat) + seq!['.'] + dec(
        a[3] as nat,
    )
}

/// The text of an address is its four bytes in decimal, in their order, with dots between
/// them.
pub proof fn lemma_address_text(a: [u8; 4])
    ensures
        address_text(a) == joined(
            seq![dec(a[0] as nat), dec(a[1] as nat), dec(a[2] as nat), dec(a[3] as nat)],
            '.',
        ),
{
    let (d0, d1, d2, d3) = (
        dec(a[0] as nat),
        dec(a[1] as nat),
        dec(a[2] as nat),
        dec(a[3] as nat),
    );
    lemma_joined_push(seq![d0], d1, '.');
    lemma_joined_push(seq![d0, d1], d2, '.');
    lemma_joined_push(seq![d0, d1, d2], d3, '.');
    assert(seq![d0].push(d1) =~= seq![d0, d1]);
    assert(seq![d0, d1].push(d2) =~= seq![d0, d1, d2]);
    assert(seq![d0, d1, d2].push(d3) =~= seq![d0, d1, d2, d3]);
    assert(address_text(a) =~= joined(seq![d0, d1, d2, d3], '.'));
}

/// Writes an address.
fn address_string(a: &[u8; 4]) -> (r: String)
    ensures
        r@ == address_text(*a),
{
    let mut out: String = String::new();
    push_dec(&mut out, a[0] as u64);
    out.push('.');
    push_dec(&mut out, a[1] as u64);
    out.push('.');
    push_dec(&mut out, a[2] as u64);
    out.push('.');
    push_dec(&mut out, a[3] as u64);
    assert(out@ =~= address_text(*a));
    out
}

/// Calls `mac_address::MacAddress::new` and `to_string`: the six bytes, upper
/// case, with colons between them.
#[verifier::external_body]
fn mac_string(mac: [u8; 6]) -> (r: String)
    ensures
        r@ == mac_text(mac@),
{
    mac_address::MacAddress::new(mac).to_string()
}

/// The name of a machine, given its addresses in networks and its hardware
/// address as far as they are known.
pub fn client_identifier(addrs: &[[u8; 4]], mac: Option<[u8; 6]>) -> (r: String)
    ensures
        r@ == (match best_address(addrs@) {
            Some(a) => address_text(a),
            None => match mac {
                Some(m) => mac_text(m@),
                None => "unknown"@,
            },
        }),
{
    match pick_address(addrs) {
        Some(a) => address_string(&a),
        None => match mac {
            Some(m) => mac_string(m),
            None => "unknown".to_owned(),
        },
    }
}

/// Of the addresses of a machine that do not stand for itself, none has a lower
/// first byte than the one by which it is known, unless that one starts with 10;
/// and it is known by one wherever there are any.
pub proof fn lemma_best_address(addrs: Seq<[u8; 4]>)
    ensures
        match best_address(addrs) {
            Some(a) => {
                &&& addrs.contains(a)
                &&& !is_loopback(a)
                &&& a[0] == 10 || forall|i: int|
                    0 <= i < addrs.len() && !is_loopback(#[trigger] addrs[i]) ==> a[0]
                        <= addrs[i][0]
            },
            None => forall|i: int| 0 <= i < addrs.len() ==> is_loopback(#[trigger] addrs[i]),
        },
{
    lemma_first_ten(addrs, 0);
    lemma_first_lowest(addrs, addrs.len());
}

/// What `first_ten` finds.
proof fn lemma_first_ten(addrs: Seq<[u8; 4]>, i: int)
    requires
        0 <= i,
    ensures
        first_ten(addrs, i) < addrs.len() ==> i <= first_ten(addrs, i) && addrs[first_ten(
            addrs,
            i,
        )][0] == 10,
    decreases addrs.len() - i,
{
    if i < addrs.len() && addrs[i][0] != 10 {
        lemma_first_ten(addrs, i + 1);
    }
}

/// What `first_lowest` finds.
proof fn lemma_first_lowest(addrs: Seq<[u8; 4]>, n: nat)
    requires
        n <= addrs.len(),
    ensures
        match first_lowest(addrs, n) {
            Some(a) => {
                &&& addrs.contains(a)
                &&& !is_loopback(a)
                &&& forall|i: int|
                    0 <= i < n && !is_loopback(#[trigger] addrs[i]) ==> a[0] <= addrs[i][0]
            },
            None => forall|i: int| 0 <= i < n ==> is_loopback(#[trigger] addrs[i]),
        },
    decreases n,
{
    if n > 0 {
        lemma_first_lowest(addrs, (n - 1) as nat);
        assert(addrs.contains(addrs[n - 1]));
    }
}

/// The folder of a run is new: its name is not taken. It tells the time, behind `log`; and
/// nothing more, unless that is taken.
pub proof fn lemma_free_folder(taken: Seq<String>, stamp: Seq<char>, name: Seq<char>)
    requires
        is_first_free(taken, stamp, name),
    ensures
        forall|i: int| 0 <= i < taken.len() ==> (#[trigger] taken[i])@ != name,
        ("log"@ + stamp).is_prefix_of(name),
        (forall|i: int| 0 <= i < taken.len() ==> (#[trigger] taken[i])@ != "log"@ + stamp)
            ==> name == "log"@ + stamp,
{
    let base = "log"@ + stamp;
    let k = choose|k: nat|
        name == #[trigger] folder_choice(stamp, k) && forall|j: nat|
            j < k ==> is_taken(taken, #[trigger] folder_choice(stamp, j));
    assert(name.subrange(0, base.len() as int) =~= base);
    if k > 0 {
        assert(is_taken(taken, folder_choice(stamp, 0)));
    }
}

/// Where a machine has an address that starts with 10, it is known by the first of them;
/// where it has none, by the first of those with the lowest first byte, leaving out those
/// that start with 127; and by none only where all do.
pub proof fn lemma_known_by(addrs: Seq<[u8; 4]>, k: int)
    requires
        0 <= k < addrs.len(),
    ensures
        addrs[k][0] == 10 && (forall|j: int| 0 <= j < k ==> (#[trigger] addrs[j])[0] != 10)
            ==> best_address(addrs) == Some(addrs[k]),
        (forall|j: int| 0 <= j < addrs.len() ==> (#[trigger] addrs[j])[0] != 10) && addrs[k][0]
            != 127 && (forall|j: int|
            0 <= j < addrs.len() && (#[trigger] addrs[j])[0] != 127 ==> addrs[k][0] <= addrs[j][0])
            && (forall|j: int| 0 <= j < k ==> (#[trigger] addrs[j])[0] != addrs[k][0])
            ==> best_address(addrs) == Some(addrs[k]),
        best_address(addrs) is None ==> addrs[k][0] == 127,
{
    lemma_first_ten_is(addrs, 0);
    lemma_lowest_is(addrs, addrs.len(), k);
    lemma_first_lowest(addrs, addrs.len());
}

/// What `first_ten` finds, and what it passes over.
proof fn lemma_first_ten_is(addrs: Seq<[u8; 4]>, i: int)
    requires
        0 <= i <= addrs.len(),
    ensures
        i <= first_ten(addrs, i) <= addrs.len(),
        first_ten(addrs, i) < addrs.len() ==> addrs[first_ten(addrs, i)][0] == 10,
        forall|j: int| i <= j < first_ten(addrs, i) ==> (#[trigger] addrs[j])[0] != 10,
    decreases addrs.len() - i,
{
    if i < addrs.len() {
        lemma_first_ten_is(addrs, i + 1);
    }
}

/// Which one `first_lowest` finds.
proof fn lemma_lowest_is(addrs: Seq<[u8; 4]>, n: nat, k: int)
    requires
        0 <= k < n <= addrs.len(),
        0 <= k,
    ensures
        addrs[k][0] != 127 && (forall|j: int|
            0 <= j < n && (#[trigger] addrs[j])[0] != 127 ==> addrs[k][0] <= addrs[j][0]) && (
        forall|j: int| 0 <= j < k ==> (#[trigger] addrs[j])[0] != addrs[k][0]) ==> first_lowest(
            addrs,
            n,
        ) == Some(addrs[k]),
    decreases n,
{
    let m = (n - 1) as nat;
    if k < m {
        lemma_lowest_is(addrs, m, k);
    } else {
        lemma_first_lowest(addrs, m);
        if let Some(b) = first_lowest(addrs, m) {
            lemma_lowest_member(addrs, m);
        }
    }
}

/// What `first_lowest` finds stands among the addresses it looks at.
proof fn lemma_lowest_member(addrs: Seq<[u8; 4]>, n: nat)
    requires
        n <= addrs.len(),
        first_lowest(addrs, n) is Some,
    ensures
        exists|j: int| 0 <= j < n && #[trigger] addrs[j] == first_lowest(addrs, n)->0,
    decreases n,
{
    let m = (n - 1) as nat;
    if first_lowest(addrs, m) is Some {
        lemma_lowest_member(addrs, m);
    }
    if first_lowest(addrs, n) == Some(addrs[n - 1]) {
        assert(addrs[n - 1] == first_lowest(addrs, n)->0);
    }
}

} // verus!
