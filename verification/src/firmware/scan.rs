//! Looking for peers: which of the networks in reach are other nodes.
use vstd::prelude::*;
use vstd::slice::slice_subrange;
use vstd::utf8::*;
use crate::firmware::ftm::PeerFtmStats;
use crate::firmware::peers::{
    distinct, fresh, has_room, lemma_fresh, lemma_fresh_members, lemma_has_room, lemma_place_of,
    lemma_with_peer_distinct, place_of, with_peer, PeerContactStats, PeerInfo, PeerList,
};
use crate::firmware::ticks::{secs, TICKS_PER_S};
use crate::utf8::str_from_utf8;

verus! {

/// The most networks that one scan takes in.
pub const MAX_APS: u16 = 32;

/// A network in reach. Its name ends before the first zero.
#[derive(Clone, Copy)]
pub struct ApRecord {
    pub ssid: [u8; 33],
    pub bssid: [u8; 6],
    pub rssi: i8,
    pub primary: u8,
}

/// How many networks to fetch of those that a scan found; nothing where there
/// are none.
pub fn records_to_fetch(ap_count: u16) -> (r: Option<u16>)
    ensures
        r == (if ap_count == 0 {
            None
        } else if ap_count <= MAX_APS {
            Some(ap_count)
        } else {
            Some(MAX_APS)
        }),
{
    if ap_count == 0 {
        None
    } else if ap_count <= MAX_APS {
        Some(ap_count)
    } else {
        Some(MAX_APS)
    }
}

/// How many bytes from `i` on come before the first zero, and `i`.
pub open spec fn name_end(ssid: Seq<u8>, i: int) -> int
    decreases ssid.len() - i,
{
    if i >= ssid.len() || ssid[i] == 0 {
        i
    } else {
        name_end(ssid, i + 1)
    }
}

/// The bytes of the name of a network.
pub open spec fn name_bytes(ap: ApRecord) -> Seq<u8> {
    ap.ssid@.take(name_end(ap.ssid@, 0))
}

/// A network is one of ours: its name is text, and starts with the prefix.
pub open spec fn is_ours(ap: ApRecord, prefix: Seq<char>) -> bool {
    valid_utf8(name_bytes(ap)) && encode_utf8(prefix).is_prefix_of(name_bytes(ap))
}

/// A network as a peer, seen now and not yet ranged.
pub open spec fn seen_peer(ap: ApRecord, now: u64) -> PeerInfo {
    PeerInfo {
        bssid: ap.bssid,
        ftm_stats: PeerFtmStats { next_contact_after: now, seq: 0, should_init: true },
        contact_stats: PeerContactStats { last_seen: now, rssi: ap.rssi, channel: ap.primary },
    }
}

/// A network is taken in: it is one of ours, and there is room for it.
pub open spec fn is_taken(peers: Seq<PeerInfo>, ap: ApRecord, prefix: Seq<char>) -> bool {
    is_ours(ap, prefix) && has_room(peers, ap.bssid)
}

/// The peers after the first `n` networks were taken in.
pub open spec fn peers_after(
    peers: Seq<PeerInfo>,
    records: Seq<ApRecord>,
    prefix: Seq<char>,
    now: u64,
    n: nat,
) -> Seq<PeerInfo>
    decreases n,
{
    if n == 0 {
        peers
    } else {
        let before = peers_after(peers, records, prefix, now, (n - 1) as nat);
        if is_taken(before, records[n - 1], prefix) {
            with_peer(before, seen_peer(records[n - 1], now))
        } else {
            before
        }
    }
}

/// Which of the first `n` networks are taken in.
pub open spec fn taken(
    peers: Seq<PeerInfo>,
    records: Seq<ApRecord>,
    prefix: Seq<char>,
    now: u64,
    n: nat,
) -> Seq<int>
    decreases n,
{
    if n == 0 {
        Seq::empty()
    } else {
        let before = taken(peers, records, prefix, now, (n - 1) as nat);
        if is_taken(
            peers_after(peers, records, prefix, now, (n - 1) as nat),
            records[n - 1],
            prefix,
        ) {
            before.push(n - 1)
        } else {
            before
        }
    }
}

/// The peers that remain after a scan: those that were not seen for 60 s go.
pub open spec fn remaining(peers: Seq<PeerInfo>, now: u64) -> Seq<PeerInfo> {
    if now >= 60 * TICKS_PER_S {
        fresh(peers, (now - 60 * TICKS_PER_S) as u64)
    } else {
        peers
    }
}

/// After a scan, every peer was seen within the last 60 s.
pub proof fn lemma_remaining_fresh(peers: Seq<PeerInfo>, now: u64, k: int)
    requires
        0 <= k < remaining(peers, now).len(),
    ensures
        remaining(peers, now)[k].contact_stats.last_seen + 60 * TICKS_PER_S >= now,
{
    if now >= 60 * TICKS_PER_S {
        let cutoff = (now - 60 * TICKS_PER_S) as u64;
        lemma_fresh(peers, cutoff, k);
    }
}

/// A peer remains after a scan just where it was seen within the last 60 s.
pub proof fn lemma_remaining_members(peers: Seq<PeerInfo>, now: u64, p: PeerInfo)
    ensures
        remaining(peers, now).contains(p) <==> peers.contains(p) && p.contact_stats.last_seen
            + 60_000_000 >= now,
{
    if now >= 60_000_000 {
        lemma_fresh_members(peers, (now - 60_000_000) as u64, p);
    }
}

/// What `name_end` finds.
proof fn lemma_name_end(ssid: Seq<u8>, i: int, e: int)
    requires
        0 <= i <= e <= ssid.len(),
        e < ssid.len() ==> ssid[e] == 0,
        forall|k: int| i <= k < e ==> ssid[k] != 0,
    ensures
        name_end(ssid, i) == e,
    decreases e - i,
{
    if i < e {
        lemma_name_end(ssid, i + 1, e);
    }
}

/// A network is one of ours just where its name, which ends before the first zero if
/// there is one, is text that starts with the prefix.
pub proof fn lemma_is_ours(ap: ApRecord, prefix: Seq<char>, e: int)
    requires
        0 <= e <= 33,
        e < 33 ==> ap.ssid@[e] == 0,
        forall|k: int| 0 <= k < e ==> ap.ssid@[k] != 0,
    ensures
        is_ours(ap, prefix) <==> valid_utf8(ap.ssid@.take(e)) && encode_utf8(prefix).len() <= e
            && forall|k: int|
            0 <= k < encode_utf8(prefix).len() ==> ap.ssid@[k] == #[trigger] encode_utf8(prefix)[k],
{
    lemma_name_end(ap.ssid@, 0, e);
    let p = encode_utf8(prefix);
    let name = name_bytes(ap);
    if p.len() <= e {
        if forall|k: int| 0 <= k < p.len() ==> ap.ssid@[k] == #[trigger] p[k] {
            assert(p =~= name.subrange(0, p.len() as int));
        }
        if p.is_prefix_of(name) {
            assert forall|k: int| 0 <= k < p.len() implies ap.ssid@[k] == #[trigger] p[k] by {
                assert(name.subrange(0, p.len() as int)[k] == ap.ssid@[k]);
            }
        }
    }
}

/// Which of the networks are taken in: those that are ours and that there is room
/// for when their turn comes.
pub proof fn lemma_taken(
    peers: Seq<PeerInfo>,
    records: Seq<ApRecord>,
    prefix: Seq<char>,
    now: u64,
    n: nat,
    i: int,
)
    requires
        n <= records.len(),
    ensures
        taken(peers, records, prefix, now, n).contains(i) <==> 0 <= i < n && is_ours(
            records[i],
            prefix,
        ) && ({
            let so_far = peers_after(peers, records, prefix, now, i as nat);
            so_far.len() < 64 || exists|k: int|
                0 <= k < so_far.len() && (#[trigger] so_far[k]).bssid == records[i].bssid
        }),
    decreases n,
{
    let all = taken(peers, records, prefix, now, n);
    if n > 0 {
        let init = taken(peers, records, prefix, now, (n - 1) as nat);
        let so_far = peers_after(peers, records, prefix, now, (n - 1) as nat);
        lemma_taken(peers, records, prefix, now, (n - 1) as nat, i);
        lemma_has_room(so_far, records[n - 1].bssid);
        if is_taken(so_far, records[n - 1], prefix) {
            assert(all == init.push(n - 1));
            assert(all[init.len() as int] == n - 1);
            if init.contains(i) {
                let j = choose|j: int| 0 <= j < init.len() && init[j] == i;
                assert(all[j] == i);
            }
            if all.contains(i) && i != n - 1 {
                let j = choose|j: int| 0 <= j < all.len() && all[j] == i;
                assert(init[j] == i);
            }
        }
    }
}

/// What a scan leaves of the peers that were known: all of them, in their places, with
/// their times and numbers; and those that none of the networks was taken in for as
/// they were. The others that are there now are due now, for their first session.
#[verifier::rlimit(50)]
proof fn lemma_peers_after(
    peers: Seq<PeerInfo>,
    records: Seq<ApRecord>,
    prefix: Seq<char>,
    now: u64,
    n: nat,
)
    requires
        distinct(peers),
        n <= records.len(),
    ensures
        ({
            let after = peers_after(peers, records, prefix, now, n);
            &&& distinct(after)
            &&& after.len() >= peers.len()
            &&& forall|k: int|
                0 <= k < peers.len() ==> (#[trigger] after[k]).bssid == peers[k].bssid
                    && after[k].ftm_stats == peers[k].ftm_stats
            &&& forall|k: int|
                0 <= k < peers.len() ==> (#[trigger] after[k]) == peers[k] || exists|i: int|
                    #[trigger]
                    taken(peers, records, prefix, now, n).contains(i) && records[i].bssid
                        == peers[k].bssid
            &&& forall|k: int|
                peers.len() <= k < after.len() ==> (#[trigger] after[k]).ftm_stats == (
                PeerFtmStats { next_contact_after: now, seq: 0, should_init: true }) && exists|
                    i: int,
                |
                    #[trigger]
                    taken(peers, records, prefix, now, n).contains(i) && records[i].bssid
                        == after[k].bssid
        }),
    decreases n,
{
    if n > 0 {
        let m = (n - 1) as nat;
        lemma_peers_after(peers, records, prefix, now, m);
        let so_far = peers_after(peers, records, prefix, now, m);
        let after = peers_after(peers, records, prefix, now, n);
        let old_taken = taken(peers, records, prefix, now, m);
        let new_taken = taken(peers, records, prefix, now, n);
        let ap = records[n - 1];
        if is_taken(so_far, ap, prefix) {
            let news = seen_peer(ap, now);
            lemma_place_of(so_far, ap.bssid, 0);
            lemma_with_peer_distinct(so_far, news);
            let j = place_of(so_far, ap.bssid, 0);
            assert(new_taken == old_taken.push(n - 1));
            assert(new_taken[old_taken.len() as int] == n - 1);
            assert(new_taken.contains(n - 1));
            assert forall|i: int| #[trigger] old_taken.contains(i) implies new_taken.contains(i) by {
                let a = choose|a: int| 0 <= a < old_taken.len() && old_taken[a] == i;
                assert(new_taken[a] == i);
            }
            assert forall|k: int| 0 <= k < peers.len() implies (#[trigger] after[k]) == peers[k]
                || exists|i: int| #[trigger]
                new_taken.contains(i) && records[i].bssid == peers[k].bssid by {
                assert(so_far[k].bssid == peers[k].bssid);
                if k == j {
                    assert(new_taken.contains(n - 1) && records[n - 1].bssid == peers[k].bssid);
                } else if so_far[k] != peers[k] {
                    let i = choose|i: int| #[trigger]
                        old_taken.contains(i) && records[i].bssid == peers[k].bssid;
                    assert(new_taken.contains(i) && records[i].bssid == peers[k].bssid);
                }
            }
            assert forall|k: int| peers.len() <= k < after.len() implies (
            #[trigger] after[k]).ftm_stats == (PeerFtmStats {
                next_contact_after: now,
                seq: 0,
                should_init: true,
            }) && exists|i: int| #[trigger]
                new_taken.contains(i) && records[i].bssid == after[k].bssid by {
                if k == j {
                    assert(new_taken.contains(n - 1) && records[n - 1].bssid == after[k].bssid);
                    if k < so_far.len() {
                        assert(so_far[k].ftm_stats == after[k].ftm_stats);
                    }
                } else {
                    assert(so_far[k] == after[k]);
                    let i = choose|i: int| #[trigger]
                        old_taken.contains(i) && records[i].bssid == so_far[k].bssid;
                    assert(new_taken.contains(i) && records[i].bssid == after[k].bssid);
                }
            }
        }
    }
}

/// How a peer was seen that a network was taken in for.
proof fn lemma_seen_after(
    peers: Seq<PeerInfo>,
    records: Seq<ApRecord>,
    prefix: Seq<char>,
    now: u64,
    n: nat,
    i: int,
) -> (k: int)
    requires
        distinct(peers),
        n <= records.len(),
        taken(peers, records, prefix, now, n).contains(i),
        forall|j: int|
            i < j && #[trigger] taken(peers, records, prefix, now, n).contains(j)
                ==> records[j].bssid != records[i].bssid,
    ensures
        0 <= i < n,
        0 <= k < peers_after(peers, records, prefix, now, n).len(),
        peers_after(peers, records, prefix, now, n)[k].bssid == records[i].bssid,
        peers_after(peers, records, prefix, now, n)[k].contact_stats == (PeerContactStats {
            last_seen: now,
            rssi: records[i].rssi,
            channel: records[i].primary,
        }),
    decreases n,
{
    let all = taken(peers, records, prefix, now, n);
    lemma_taken(peers, records, prefix, now, n, i);
    let m = (n - 1) as nat;
    let init = taken(peers, records, prefix, now, m);
    let so_far = peers_after(peers, records, prefix, now, m);
    let ap = records[n - 1];
    lemma_place_of(so_far, ap.bssid, 0);
    lemma_peers_after(peers, records, prefix, now, m);
    if i == n - 1 {
        lemma_taken(peers, records, prefix, now, n, n - 1);
        lemma_has_room(so_far, ap.bssid);
        place_of(so_far, ap.bssid, 0)
    } else {
        assert forall|j: int| #[trigger] init.contains(j) implies all.contains(j) by {
            let a = choose|a: int| 0 <= a < init.len() && init[a] == j;
            assert(all[a] == j);
        }
        lemma_taken(peers, records, prefix, now, m, i);
        let k = lemma_seen_after(peers, records, prefix, now, m, i);
        if is_taken(so_far, ap, prefix) {
            assert(all[init.len() as int] == n - 1);
            assert(all.contains(n - 1));
            assert(so_far[k].bssid != ap.bssid);
        }
        k
    }
}

/// After a scan, every address that a network was taken in for is in the list, seen
/// now, with the signal strength and the primary channel of the last such network.
pub proof fn lemma_scan_takes(
    peers: Seq<PeerInfo>,
    records: Seq<ApRecord>,
    prefix: Seq<char>,
    now: u64,
    i: int,
) -> (p: PeerInfo)
    requires
        distinct(peers),
        taken(peers, records, prefix, now, records.len()).contains(i),
        forall|j: int|
            i < j && #[trigger] taken(peers, records, prefix, now, records.len()).contains(j)
                ==> records[j].bssid != records[i].bssid,
    ensures
        0 <= i < records.len(),
        remaining(peers_after(peers, records, prefix, now, records.len()), now).contains(p),
        p.bssid == records[i].bssid,
        p.contact_stats.rssi == records[i].rssi,
        p.contact_stats.channel == records[i].primary,
        p.contact_stats.last_seen == now,
{
    let after = peers_after(peers, records, prefix, now, records.len());
    let k = lemma_seen_after(peers, records, prefix, now, records.len(), i);
    assert(after.contains(after[k]));
    lemma_remaining_members(after, now, after[k]);
    after[k]
}

/// A scan leaves a peer alone that no network was taken in for: it stays as it is if it
/// was seen within the last 60 s, and goes otherwise.
pub proof fn lemma_scan_leaves(
    peers: Seq<PeerInfo>,
    records: Seq<ApRecord>,
    prefix: Seq<char>,
    now: u64,
    k: int,
)
    requires
        distinct(peers),
        0 <= k < peers.len(),
        forall|i: int| #[trigger]
            taken(peers, records, prefix, now, records.len()).contains(i) ==> records[i].bssid
                != peers[k].bssid,
    ensures
        remaining(peers_after(peers, records, prefix, now, records.len()), now).contains(peers[k])
            <==> peers[k].contact_stats.last_seen + 60_000_000 >= now,
{
    let after = peers_after(peers, records, prefix, now, records.len());
    lemma_peers_after(peers, records, prefix, now, records.len());
    assert(after[k] == peers[k]);
    lemma_remaining_members(after, now, peers[k]);
}

/// Every peer after a scan was known before, and has the time and number that it had,
/// or a network was taken in for it, and it is due now for its first session.
pub proof fn lemma_scan_origin(
    peers: Seq<PeerInfo>,
    records: Seq<ApRecord>,
    prefix: Seq<char>,
    now: u64,
    p: PeerInfo,
)
    requires
        distinct(peers),
        remaining(peers_after(peers, records, prefix, now, records.len()), now).contains(p),
    ensures
        ({
            ||| exists|k: int|
                0 <= k < peers.len() && (#[trigger] peers[k]).bssid == p.bssid
                    && peers[k].ftm_stats == p.ftm_stats
            ||| p.ftm_stats == (PeerFtmStats { next_contact_after: now, seq: 0, should_init: true })
                && exists|i: int| #[trigger]
                taken(peers, records, prefix, now, records.len()).contains(i) && records[i].bssid
                    == p.bssid
        }),
{
    let after = peers_after(peers, records, prefix, now, records.len());
    lemma_peers_after(peers, records, prefix, now, records.len());
    lemma_remaining_members(after, now, p);
    let k = choose|k: int| 0 <= k < after.len() && after[k] == p;
    if k < peers.len() {
        assert(peers[k].bssid == after[k].bssid);
    }
}

/// Whether `prefix` starts `bytes`.
fn starts_with(bytes: &[u8], prefix: &[u8]) -> (r: bool)
    ensures
        r == prefix@.is_prefix_of(bytes@),
{
    if prefix.len() > bytes.len() {
        return false;
    }
    let mut i: usize = 0;
    while i < prefix.len()
        invariant
            i <= prefix@.len() <= bytes@.len(),
            forall|k: int| 0 <= k < i ==> prefix@[k] == bytes@[k],
        decreases prefix@.len() - i,
    {
        if prefix[i] != bytes[i] {
            assert(prefix@[i as int] != bytes@.subrange(0, prefix@.len() as int)[i as int]);
            return false;
        }
        i += 1;
    }
    assert(prefix@ =~= bytes@.subrange(0, prefix@.len() as int));
    true
}

/// Whether a network is one of ours.
pub fn is_peer(ap: &ApRecord, prefix: &str) -> (r: bool)
    ensures
        r == is_ours(*ap, prefix@),
{
    let mut end: usize = 0;
    while end < 33 && ap.ssid[end] != 0
        invariant
            end <= 33,
            name_end(ap.ssid@, 0) == name_end(ap.ssid@, end as int),
        decreases 33 - end,
    {
        end += 1;
    }
    let name: &[u8] = slice_subrange(ap.ssid.as_slice(), 0, end);
    assert(name@ =~= name_bytes(*ap));
    match str_from_utf8(name) {
        Ok(_) => starts_with(name, prefix.as_bytes()),
        Err(_) => false,
    }
}

/// Takes in the networks that a scan found. Gives those that were taken in.
pub fn scan_results(peers: &mut PeerList, records: &[ApRecord], prefix: &str, now: u64) -> (r: Vec<
    usize,
>)
    requires
        old(peers).wf(),
    ensures
        final(peers).wf(),
        forall|k: int|
            0 <= k < final(peers)@.len() ==> (
            #[trigger] final(peers)@[k]).contact_stats.last_seen + 60_000_000 >= now,
        final(peers)@ == remaining(
            peers_after(old(peers)@, records@, prefix@, now, records@.len()),
            now,
        ),
        r@.map_values(|i: usize| i as int) == taken(
            old(peers)@,
            records@,
            prefix@,
            now,
            records@.len(),
        ),
{
    let ghost before = peers@;
    let mut accepted: Vec<usize> = Vec::new();
    let mut i: usize = 0;
    assert(accepted@.map_values(|i: usize| i as int) =~= Seq::<int>::empty());
    while i < records.len()
        invariant
            i <= records@.len(),
            before == old(peers)@,
            peers.wf(),
            peers@ == peers_after(before, records@, prefix@, now, i as nat),
            accepted@.map_values(|i: usize| i as int) == taken(
                before,
                records@,
                prefix@,
                now,
                i as nat,
            ),
        decreases records@.len() - i,
    {
        let ap: ApRecord = records[i];
        if is_peer(&ap, prefix) {
            let ghost current = peers@;
            let peer = PeerInfo {
                bssid: ap.bssid,
                ftm_stats: PeerFtmStats { next_contact_after: now, seq: 0, should_init: true },
                contact_stats: PeerContactStats {
                    last_seen: now,
                    rssi: ap.rssi,
                    channel: ap.primary,
                },
            };
            proof {
                lemma_place_of(current, peer.bssid, 0);
                lemma_with_peer_distinct(current, peer);
            }
            let added: bool = peers.add_or_update(peer).is_ok();
            if added {
                let ghost so_far = accepted@.map_values(|i: usize| i as int);
                accepted.push(i);
                assert(accepted@.map_values(|i: usize| i as int) =~= so_far.push(i as int));
                assert(peers@ =~= with_peer(current, peer));
            }
        }
        i += 1;
    }
    let minute: u64 = secs(60);
    if now >= minute {
        peers.remove_stale(now - minute);
    }
    proof {
        let all = peers_after(before, records@, prefix@, now, records@.len());
        assert forall|k: int| 0 <= k < remaining(all, now).len() implies (
        #[trigger] remaining(all, now)[k]).contact_stats.last_seen + 60_000_000 >= now by {
            lemma_remaining_fresh(all, now, k);
        }
    }
    accepted
}

/// After how many seconds to scan again: soon, where no peer is known.
pub fn rescan_after_secs(num_peers: usize) -> (r: u64)
    ensures
        r == (if num_peers > 0 {
            600u64
        } else {
            5u64
        }),
{
    if num_peers > 0 {
        600
    } else {
        5
    }
}

} // verus!
