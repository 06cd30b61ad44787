//! Ranges from sessions: which frame belongs to which exchange, and what is
//! computed from them and reported.
use vstd::prelude::*;
use vstd::arithmetic::div_mod::lemma_mod_multiples_vanish;
use crate::b64::{b64_encode, b64_encoding, decodes_to, is_b64_text};
use crate::bytes::{
    apart_64, le_value, lemma_as_signed, lemma_le_value_bound, lemma_le_value_places,
    lemma_pow256, read_le,
};
use crate::firmware::csi::{calculate_precise_timestamp_ns, received_ns, CsiData};
use crate::firmware::ftm::{FtmEntry, FtmReport};
use crate::frame::{frame_text, framed, joined, next_dec, next_mac, next_text};
use crate::text::{ascii_bytes, dec, mac_text};

verus! {

/// How many steps the interpolation of a channel takes.
pub struct WiproState {
    pub num_l1_iters: u32,
}

impl WiproState {
    /// No interpolation at first.
    pub fn new() -> (r: Self)
        ensures
            r.num_l1_iters == 0,
    {
        WiproState { num_l1_iters: 0 }
    }
}

/// Sets how many steps the interpolation of a channel takes.
pub fn set_l1_iters(state: &mut WiproState, iters: u32)
    ensures
        final(state).num_l1_iters == iters,
{
    state.num_l1_iters = iters;
}

/// The word at place `i` of a table of words of four bytes.
pub open spec fn word_at(bytes: Seq<u8>, i: int) -> u32 {
    le_value(bytes.subrange(4 * i, 4 * i + 4)) as u32
}

/// The words of a table follow one another, each with its least significant byte first.
pub proof fn lemma_word_at(bytes: Seq<u8>, i: int)
    requires
        0 <= i,
        4 * i + 4 <= bytes.len(),
    ensures
        word_at(bytes, i) == bytes[4 * i] + 0x100 * bytes[4 * i + 1] + 0x1_0000 * bytes[4 * i + 2]
            + 0x100_0000 * bytes[4 * i + 3],
{
    lemma_le_value_places(bytes.subrange(4 * i, 4 * i + 4));
}

/// Reads the word at place `i`.
fn read_word(bytes: &[u8], i: usize) -> (r: u32)
    requires
        4 * i + 4 <= bytes@.len(),
    ensures
        r == word_at(bytes@, i as int),
{
    assert(bytes.len() == bytes@.len());
    proof {
        lemma_le_value_bound(bytes@.subrange(4 * i, 4 * i + 4));
        lemma_pow256();
    }
    read_le(bytes, 4 * i, 4 * i + 4) as u32
}

/// Reads three words.
pub fn bytes_to_u32_slice(bytes: &[u8]) -> (r: [u32; 3])
    requires
        bytes@.len() >= 12,
    ensures
        r@ == seq![word_at(bytes@, 0), word_at(bytes@, 1), word_at(bytes@, 2)],
{
    let r: [u32; 3] = [read_word(bytes, 0), read_word(bytes, 1), read_word(bytes, 2)];
    assert(r@ =~= seq![word_at(bytes@, 0), word_at(bytes@, 1), word_at(bytes@, 2)]);
    r
}

/// Reads all words of a table; bytes that fill no word are left.
pub fn bytes_to_words(bytes: &[u8]) -> (r: Vec<u32>)
    ensures
        r@ == Seq::new(bytes@.len() / 4, |i: int| word_at(bytes@, i)),
{
    let n: usize = bytes.len() / 4;
    let mut out: Vec<u32> = Vec::new();
    let mut i: usize = 0;
    while i < n
        invariant
            i <= n,
            n == bytes@.len() / 4,
            out@.len() == i,
            forall|k: int| 0 <= k < i ==> out@[k] == word_at(bytes@, k),
        decreases n - i,
    {
        out.push(read_word(bytes, i));
        i += 1;
    }
    assert(out@ =~= Seq::new(bytes@.len() / 4, |i: int| word_at(bytes@, i)));
    out
}

/// Reads a table of pairs of words; bytes that fill no pair are left.
pub fn bytes_to_word_pairs(bytes: &[u8]) -> (r: Vec<(u32, u32)>)
    ensures
        r@ == Seq::new(
            bytes@.len() / 8,
            |i: int| (word_at(bytes@, 2 * i), word_at(bytes@, 2 * i + 1)),
        ),
{
    let n: usize = bytes.len() / 8;
    let mut out: Vec<(u32, u32)> = Vec::new();
    let mut i: usize = 0;
    while i < n
        invariant
            i <= n,
            n == bytes@.len() / 8,
            out@.len() == i,
            forall|k: int|
                0 <= k < i ==> out@[k] == (word_at(bytes@, 2 * k), word_at(bytes@, 2 * k + 1)),
        decreases n - i,
    {
        assert(bytes.len() == bytes@.len());
        out.push((read_word(bytes, 2 * i), read_word(bytes, 2 * i + 1)));
        i += 1;
    }
    assert(out@ =~= Seq::new(
        bytes@.len() / 8,
        |i: int| (word_at(bytes@, 2 * i), word_at(bytes@, 2 * i + 1)),
    ));
    out
}

/// One subcarrier of a channel, as the radio measures it.
#[derive(Clone, Copy, Debug, PartialEq, Eq, Structural)]
pub struct Tap {
    pub re: i8,
    pub im: i8,
}

/// The subcarriers of a channel of 40 MHz: 128 pairs of bytes behind the first
/// 128 bytes, the imaginary part first.
pub open spec fn taps_of(csi: CsiData) -> Option<Seq<Tap>> {
    if csi.len != 384 {
        None
    } else {
        Some(
            Seq::new(
                128,
                |i: int|
                    Tap {
                        re: csi.buf@[128 + 2 * i + 1] as i8,
                        im: csi.buf@[128 + 2 * i] as i8,
                    },
            ),
        )
    }
}

/// A channel of 40 MHz is read from 384 bytes, and from no other number of them. Of each
/// subcarrier the imaginary part comes first, and the first stands behind 128 bytes; both
/// parts are bytes read as signed.
#[verifier::rlimit(50)]
pub proof fn lemma_taps(csi: CsiData, i: int)
    requires
        0 <= i < 128,
    ensures
        match taps_of(csi) {
            Some(taps) => {
                &&& csi.len == 384
                &&& taps.len() == 128
                &&& (taps[i].im - csi.buf@[128 + 2 * i]) % 256 == 0
                &&& (taps[i].re - csi.buf@[129 + 2 * i]) % 256 == 0
            },
            None => csi.len != 384,
        },
{
    let re = csi.buf@[129 + 2 * i];
    let im = csi.buf@[128 + 2 * i];
    assert(forall|b: u8| #![trigger b as i8] b < 128 ==> b as i8 == b) by (bit_vector);
    assert(forall|b: u8| #![trigger b as i8] b >= 128 ==> b as i8 == b - 256) by (bit_vector);
    assert(re as i8 == re || re as i8 == re - 256);
    assert(im as i8 == im || im as i8 == im - 256);
}

/// Reads the subcarriers of a channel of 40 MHz.
pub fn load_h_40(csi: &CsiData) -> (r: Option<Vec<Tap>>)
    ensures
        match r {
            Some(taps) => taps_of(*csi) == Some(taps@),
            None => taps_of(*csi) is None,
        },
{
    if csi.len != 384 {
        return None;
    }
    let mut taps: Vec<Tap> = Vec::new();
    let mut i: usize = 0;
    while i < 128
        invariant
            i <= 128,
            taps@.len() == i,
            forall|k: int|
                0 <= k < i ==> taps@[k] == (Tap {
                    re: csi.buf@[128 + 2 * k + 1] as i8,
                    im: csi.buf@[128 + 2 * k] as i8,
                }),
        decreases 128 - i,
    {
        taps.push(Tap { re: csi.buf[128 + 2 * i + 1] as i8, im: csi.buf[128 + 2 * i] as i8 });
        i += 1;
    }
    assert(taps@ =~= taps_of(*csi).unwrap());
    Some(taps)
}

/// A number that counts modulo 2^48, as the one nearest to zero.
pub open spec fn nearest_48(d: int) -> int {
    let u = d % 0x1_0000_0000_0000;
    if u >= 0x8000_0000_0000 {
        u - 0x1_0000_0000_0000
    } else {
        u
    }
}

/// The difference of two times that count modulo 2^48.
#[verifier::spinoff_prover]
#[verifier::rlimit(50)]
pub fn diff_48bit(a: i64, b: i64) -> (r: i64)
    ensures
        r == nearest_48(a - b),
        -0x8000_0000_0000 <= r < 0x8000_0000_0000,
{
    let d: i64 = a.wrapping_sub(b);
    let bits: u64 = d as u64;
    let u: u64 = bits & 0xffff_ffff_ffff;
    assert(u == bits % 0x1_0000_0000_0000) by (bit_vector)
        requires
            u == bits & 0xffff_ffff_ffff,
    ;
    assert(d >= 0 ==> d as u64 == d) by (bit_vector);
    assert(d < 0 ==> d as u64 == d + 0x1_0000_0000_0000_0000) by (bit_vector);
    proof {
        let diff = a - b;
        assert(bits == diff || bits == 0x1_0000_0000_0000 * 0x1_0000 + diff || bits
            == 0x1_0000_0000_0000 * (-0x1_0000) + diff);
        lemma_mod_multiples_vanish(0x1_0000, diff, 0x1_0000_0000_0000);
        lemma_mod_multiples_vanish(-0x1_0000, diff, 0x1_0000_0000_0000);
        assert(diff % 0x1_0000_0000_0000 == u);
    }
    if u >= 0x8000_0000_0000 {
        u as i64 - 0x1_0000_0000_0000
    } else {
        u as i64
    }
}

/// A difference of less than 2^47 is found whatever multiples of 2^48 the two
/// times lost.
#[verifier::rlimit(50)]
pub proof fn lemma_diff_48(d: int, a: int, b: int, turns: int)
    requires
        -0x8000_0000_0000 <= d < 0x8000_0000_0000,
        a - b == d + turns * 0x1_0000_0000_0000,
    ensures
        nearest_48(a - b) == d,
{
    lemma_mod_multiples_vanish(turns, d, 0x1_0000_0000_0000);
}

/// The time that both ways take together: from the first frame leaving to the
/// answer arriving, less what the answer was held back.
pub open spec fn round_trip_ps(e: FtmEntry) -> int {
    nearest_48(e.t4 as i64 - e.t1 as i64) - nearest_48(e.t3 as i64 - e.t2 as i64)
}

/// The round trip is the time from the first frame leaving to the answer arriving, less
/// the time from the frame arriving to the answer leaving, whatever multiples of 2^48 the
/// times lost.
pub proof fn lemma_round_trip(e: FtmEntry, out: int, held: int, turns: int, others: int)
    requires
        e.t4 - e.t1 == out + turns * 0x1_0000_0000_0000,
        e.t3 - e.t2 == held + others * 0x1_0000_0000_0000,
        -0x8000_0000_0000 <= out < 0x8000_0000_0000,
        -0x8000_0000_0000 <= held < 0x8000_0000_0000,
    ensures
        round_trip_ps(e) == out - held,
{
    lemma_signed_difference(e.t4, e.t1);
    lemma_signed_difference(e.t3, e.t2);
    lemma_diff_48(out, e.t4 as int, e.t1 as int, turns);
    lemma_diff_48(held, e.t3 as int, e.t2 as int, others);
}

/// It does not matter to a difference that its times are read as signed.
#[verifier::spinoff_prover]
#[verifier::rlimit(50)]
proof fn lemma_signed_difference(x: u64, y: u64)
    ensures
        nearest_48(x as i64 - y as i64) == nearest_48(x - y),
{
    lemma_as_signed(x);
    lemma_as_signed(y);
    lemma_mod_multiples_vanish(0x1_0000, x - y, 0x1_0000_0000_0000);
    lemma_mod_multiples_vanish(-0x1_0000, x - y, 0x1_0000_0000_0000);
}

/// The clocks of the two nodes need not agree: setting either one differently leaves the
/// round trip as it is.
pub proof fn lemma_round_trip_clocks(a: FtmEntry, b: FtmEntry, here: int, there: int)
    requires
        b.t1 == a.t1 + here,
        b.t4 == a.t4 + here,
        b.t2 == a.t2 + there,
        b.t3 == a.t3 + there,
    ensures
        round_trip_ps(b) == round_trip_ps(a),
{
    lemma_signed_difference(a.t4, a.t1);
    lemma_signed_difference(a.t3, a.t2);
    lemma_signed_difference(b.t4, b.t1);
    lemma_signed_difference(b.t3, b.t2);
}

/// The time that both ways of an exchange take together.
pub fn rtt_ps(e: &FtmEntry) -> (r: i64)
    ensures
        r == round_trip_ps(*e),
{
    diff_48bit(e.t4 as i64, e.t1 as i64) - diff_48bit(e.t3 as i64, e.t2 as i64)
}

/// A frame belongs to an exchange: less than two nanoseconds lie between its
/// reception and the arrival of the frame that the exchange answers, in 64-bit
/// arithmetic.
pub open spec fn belongs(csi: CsiData, e: FtmEntry) -> bool {
    -2000 < (e.t2.wrapping_sub(received_ns(csi, true).wrapping_mul(1000)) as i64) < 2000
}

/// The first frame from `k` on that belongs to an exchange, or the number of
/// frames.
pub open spec fn first_belonging(frames: Seq<CsiData>, e: FtmEntry, k: int) -> int
    decreases frames.len() - k,
{
    if k >= frames.len() {
        frames.len() as int
    } else if belongs(frames[k], e) {
        k
    } else {
        first_belonging(frames, e, k + 1)
    }
}

/// A frame belongs to an exchange just where less than 2000 ps lie between them.
#[verifier::rlimit(50)]
pub proof fn lemma_belongs(csi: CsiData, e: FtmEntry)
    ensures
        belongs(csi, e) <==> apart_64(1000 * received_ns(csi, true), e.t2 as int) < 2000,
{
    let stamp = received_ns(csi, true).wrapping_mul(1000);
    lemma_as_signed(e.t2.wrapping_sub(stamp));
}

/// The frame at `k` is the first that is less than 2000 ps away from an exchange.
pub open spec fn is_first_within(frames: Seq<CsiData>, e: FtmEntry, k: int) -> bool {
    &&& 0 <= k < frames.len()
    &&& apart_64(1000 * received_ns(frames[k], true), e.t2 as int) < 2000
    &&& forall|j: int|
        0 <= j < k ==> apart_64(
            1000 * received_ns(#[trigger] frames[j], true),
            e.t2 as int,
        ) >= 2000
}

/// What `first_belonging` finds.
proof fn lemma_first_belonging_from(frames: Seq<CsiData>, e: FtmEntry, k: int)
    requires
        0 <= k <= frames.len(),
    ensures
        k <= first_belonging(frames, e, k) <= frames.len(),
        first_belonging(frames, e, k) < frames.len() ==> apart_64(
            1000 * received_ns(frames[first_belonging(frames, e, k)], true),
            e.t2 as int,
        ) < 2000,
        forall|j: int|
            k <= j < first_belonging(frames, e, k) ==> apart_64(
                1000 * received_ns(#[trigger] frames[j], true),
                e.t2 as int,
            ) >= 2000,
    decreases frames.len() - k,
{
    if k < frames.len() {
        lemma_belongs(frames[k], e);
        lemma_first_belonging_from(frames, e, k + 1);
    }
}

/// The frame that is found for an exchange is the first that is less than 2000 ps away,
/// wherever it stands; none is found only where none is so near.
pub proof fn lemma_first_belonging(frames: Seq<CsiData>, e: FtmEntry, k: int)
    ensures
        0 <= k < frames.len() ==> (first_belonging(frames, e, 0) == k <==> is_first_within(
            frames,
            e,
            k,
        )),
        0 <= first_belonging(frames, e, 0) <= frames.len(),
{
    lemma_first_belonging_from(frames, e, 0);
}

/// The first frame that belongs to an exchange.
pub fn find_csi(frames: &[CsiData], e: &FtmEntry) -> (r: Option<usize>)
    ensures
        match r {
            Some(k) => first_belonging(frames@, *e, 0) == k && k < frames@.len(),
            None => first_belonging(frames@, *e, 0) == frames@.len(),
        },
{
    let mut k: usize = 0;
    while k < frames.len()
        invariant
            k <= frames@.len(),
            first_belonging(frames@, *e, 0) == first_belonging(frames@, *e, k as int),
        decreases frames@.len() - k,
    {
        let stamp: u64 = calculate_precise_timestamp_ns(&frames[k], true).wrapping_mul(1000);
        let delta: i64 = e.t2.wrapping_sub(stamp) as i64;
        if delta > -2000 && delta < 2000 {
            return Some(k);
        }
        k += 1;
    }
    None
}

/// What a range is estimated from: the time of the exchange, its round trip, and
/// the channel of the frame that belongs to it.
pub struct RangeTask {
    pub t2: u64,
    pub rtt_ps: i64,
    pub taps: Vec<Tap>,
}

/// A `RangeTask` with its channel as a sequence.
pub struct RangeInput {
    pub t2: u64,
    pub rtt_ps: i64,
    pub taps: Seq<Tap>,
}

impl View for RangeTask {
    type V = RangeInput;

    open spec fn view(&self) -> RangeInput {
        RangeInput { t2: self.t2, rtt_ps: self.rtt_ps, taps: self.taps@ }
    }
}

/// What the range of an exchange is estimated from, where a frame belongs to it
/// that has a channel of 40 MHz.
pub open spec fn range_input(frames: Seq<CsiData>, e: FtmEntry) -> Option<RangeInput> {
    let k = first_belonging(frames, e, 0);
    if k >= frames.len() {
        None
    } else {
        match taps_of(frames[k]) {
            None => None,
            Some(taps) => Some(
                RangeInput { t2: e.t2, rtt_ps: round_trip_ps(e) as i64, taps },
            ),
        }
    }
}

/// What the ranges of the first `n` exchanges are estimated from.
pub open spec fn range_inputs(entries: Seq<FtmEntry>, frames: Seq<CsiData>, n: nat) -> Seq<
    RangeInput,
>
    decreases n,
{
    if n == 0 {
        Seq::empty()
    } else {
        let before = range_inputs(entries, frames, (n - 1) as nat);
        match range_input(frames, entries[n - 1]) {
            Some(input) => before.push(input),
            None => before,
        }
    }
}

/// A range is estimated for each exchange whose frame has a channel of 40 MHz, and for no
/// other, in the order of the exchanges: from the time of the exchange, its round trip and
/// that channel. Gives the places of those exchanges.
pub proof fn lemma_range_inputs(entries: Seq<FtmEntry>, frames: Seq<CsiData>, n: nat) -> (places:
    Seq<int>)
    requires
        n <= entries.len(),
    ensures
        places.len() == range_inputs(entries, frames, n).len(),
        forall|a: int, b: int| 0 <= a < b < places.len() ==> places[a] < places[b],
        forall|a: int|
            0 <= a < places.len() ==> {
                let e = entries[#[trigger] places[a]];
                let input = range_inputs(entries, frames, n)[a];
                &&& 0 <= places[a] < n
                &&& input.t2 == e.t2
                &&& input.rtt_ps == round_trip_ps(e)
                &&& exists|k: int| #[trigger]
                    is_first_within(frames, e, k) && frames[k].len == 384 && Some(input.taps)
                        == taps_of(frames[k])
            },
        forall|i: int, k: int|
            0 <= i < n && #[trigger] is_first_within(frames, entries[i], k) && frames[k].len == 384
                ==> places.contains(i),
    decreases n,
{
    if n == 0 {
        Seq::empty()
    } else {
        let e = entries[n - 1];
        let f = first_belonging(frames, e, 0);
        let init = lemma_range_inputs(entries, frames, (n - 1) as nat);
        lemma_first_belonging_from(frames, e, 0);
        assert(f < frames.len() ==> is_first_within(frames, e, f));
        assert forall|k: int| #[trigger] is_first_within(frames, e, k) implies k == f by {
            lemma_first_belonging(frames, e, k);
        }
        match range_input(frames, e) {
            Some(input) => {
                let places = init.push(n - 1);
                assert forall|i: int, k: int|
                    0 <= i < n && #[trigger] is_first_within(frames, entries[i], k)
                        && frames[k].len == 384 implies places.contains(i) by {
                    if i < n - 1 {
                        let a = choose|a: int| 0 <= a < init.len() && init[a] == i;
                        assert(places[a] == i);
                    } else {
                        assert(places[init.len() as int] == i);
                    }
                }
                places
            },
            None => init,
        }
    }
}

/// Collects what the ranges of a session are estimated from.
pub fn range_tasks(report: &FtmReport, frames: &[CsiData]) -> (r: Vec<RangeTask>)
    requires
        report.wf(),
    ensures
        r@.map_values(|t: RangeTask| t@) == range_inputs(
            report.exchanges(),
            frames@,
            report.exchanges().len(),
        ),
{
    let ghost entries = report.exchanges();
    let n: usize = report.meta.num_entries as usize;
    let mut tasks: Vec<RangeTask> = Vec::new();
    let mut i: usize = 0;
    assert(tasks@.map_values(|t: RangeTask| t@) =~= Seq::<RangeInput>::empty());
    while i < n
        invariant
            i <= n <= 64,
            n == report.meta.num_entries,
            entries == report.exchanges(),
            entries.len() == n,
            tasks@.map_values(|t: RangeTask| t@) == range_inputs(entries, frames@, i as nat),
        decreases n - i,
    {
        let entry: FtmEntry = report.entries[i];
        assert(entry == entries[i as int]);
        if let Some(k) = find_csi(frames, &entry) {
            if let Some(taps) = load_h_40(&frames[k]) {
                let ghost before = tasks@.map_values(|t: RangeTask| t@);
                let task = RangeTask { t2: entry.t2, rtt_ps: rtt_ps(&entry), taps };
                let ghost added = task@;
                tasks.push(task);
                assert(tasks@.map_values(|t: RangeTask| t@) =~= before.push(added));
            }
        }
        i += 1;
    }
    tasks
}

/// The fields of the message on a range, which is given as text.
pub open spec fn range_fields(peer_mac: Seq<u8>, t2: u64, range: Seq<char>) -> Seq<Seq<char>> {
    seq!["RANGE"@, mac_text(peer_mac), dec(t2 as nat), range]
}

/// Whether the subcarrier in place `i` is measured.
pub fn is_measured(i: usize) -> (r: bool)
    ensures
        r == (2 <= i <= 58 || 70 <= i <= 126),
{
    (2 <= i && i <= 58) || (70 <= i && i <= 126)
}

/// The message on a range, which is given as text.
pub fn range_message(peer_mac: &[u8; 6], t2: u64, range: &str) -> (r: String)
    ensures
        r@ == frame_text(range_fields(peer_mac@, t2, range@)),
{
    let mut out: String = String::new();
    let ghost mut f: Seq<Seq<char>> = seq!["RANGE"@];
    out.append("RANGE");
    assert(out@ =~= joined(f, '\x01'));
    next_mac(&mut out, peer_mac, '\x01', Ghost(f));
    proof {
        f = f.push(mac_text(peer_mac@));
    }
    next_dec(&mut out, t2, '\x01', Ghost(f));
    proof {
        f = f.push(dec(t2 as nat));
    }
    next_text(&mut out, range, '\x01', Ghost(f));
    proof {
        f = f.push(range@);
        assert(f =~= range_fields(peer_mac@, t2, range@));
    }
    framed(out.as_str(), Ghost(f))
}

/// The fields of the message on raw numbers: how many there are, and their bytes
/// as text.
pub open spec fn dbg_fields(len: nat, encoded: Seq<char>) -> Seq<Seq<char>> {
    seq!["DBG"@, "fc32"@, dec(len), encoded]
}

/// The message on raw numbers, given their bytes as text.
pub fn dbg_line(len: usize, encoded: &str) -> (r: String)
    ensures
        r@ == frame_text(dbg_fields(len as nat, encoded@)),
{
    let mut out: String = String::new();
    let ghost mut f: Seq<Seq<char>> = seq!["DBG"@];
    out.append("DBG");
    assert(out@ =~= joined(f, '\x01'));
    next_text(&mut out, "fc32", '\x01', Ghost(f));
    proof {
        f = f.push("fc32"@);
    }
    next_dec(&mut out, len as u64, '\x01', Ghost(f));
    proof {
        f = f.push(dec(len as nat));
    }
    next_text(&mut out, encoded, '\x01', Ghost(f));
    proof {
        f = f.push(encoded@);
        assert(f =~= dbg_fields(len as nat, encoded@));
    }
    framed(out.as_str(), Ghost(f))
}

/// The message on raw numbers: how many there are, and their bytes.
pub fn dbg_message(len: usize, raw_bytes: &[u8]) -> (r: String)
    requires
        (raw_bytes@.len() + 2) / 3 * 4 <= isize::MAX,
    ensures
        r@ == frame_text(dbg_fields(len as nat, b64_encoding(raw_bytes@))),
        is_b64_text(b64_encoding(raw_bytes@)),
        decodes_to(ascii_bytes(b64_encoding(raw_bytes@)), raw_bytes@),
{
    let encoded = b64_encode(raw_bytes);
    dbg_line(len, encoded.as_str())
}

} // verus!
