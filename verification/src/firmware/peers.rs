//! The peers of a node: other nodes that it has seen lately.
use vstd::prelude::*;
use crate::firmware::ftm::PeerFtmStats;
use crate::text::{lower_mac_text, push_lower_mac};

verus! {

/// How many peers a node can keep.
pub const MAX_PEERS: usize = 64;

/// How a peer was seen last. Times are in ticks.
#[derive(Clone, Copy, Debug)]
pub struct PeerContactStats {
    pub last_seen: u64,
    pub rssi: i8,
    pub channel: u8,
}

/// A peer, known by its hardware address.
#[derive(Clone, Copy, Debug)]
pub struct PeerInfo {
    pub bssid: [u8; 6],
    pub ftm_stats: PeerFtmStats,
    pub contact_stats: PeerContactStats,
}

/// A vector with room for a fixed number of items.
#[verifier::external_type_specification]
#[verifier::external_body]
#[verifier::reject_recursive_types(T)]
pub struct ExHeaplessVec<T, const N: usize>(heapless::Vec<T, N>);

/// A text with room for a fixed number of bytes.
#[verifier::external_type_specification]
#[verifier::external_body]
pub struct ExHeaplessString<const N: usize>(heapless::String<N>);

/// The items of a vector of peers, in order.
pub uninterp spec fn peer_seq(v: heapless::Vec<PeerInfo, 64>) -> Seq<PeerInfo>;

/// The characters of a short text.
pub uninterp spec fn short_text(s: heapless::String<17>) -> Seq<char>;

/// Calls `heapless::Vec::new`, which gives a vector without items.
#[verifier::external_body]
fn peers_new() -> (r: heapless::Vec<PeerInfo, 64>)
    ensures
        peer_seq(r) == Seq::<PeerInfo>::empty(),
{
    heapless::Vec::new()
}

/// Calls `heapless::Vec::as_slice`, which shows the items, at most as many as
/// there is room for.
#[verifier::external_body]
fn peers_slice(v: &heapless::Vec<PeerInfo, 64>) -> (r: &[PeerInfo])
    ensures
        r@ == peer_seq(*v),
        r@.len() <= MAX_PEERS,
{
    v.as_slice()
}

/// Calls `heapless::Vec::push`: the item goes to the end, or comes back where
/// there is no room for it.
#[verifier::external_body]
fn peers_push(v: &mut heapless::Vec<PeerInfo, 64>, p: PeerInfo) -> (r: Result<(), PeerInfo>)
    ensures
        r is Ok <==> peer_seq(*old(v)).len() < MAX_PEERS,
        r matches Err(back) ==> back == p,
        peer_seq(*final(v)) == (if r is Ok {
            peer_seq(*old(v)).push(p)
        } else {
            peer_seq(*old(v))
        }),
{
    v.push(p)
}

/// Calls `get_mut` on the items of a `heapless::Vec`: a reference to the item at
/// a place, where there is one. What is written through it stays in the vector.
#[verifier::external_body]
fn peers_get_mut(v: &mut heapless::Vec<PeerInfo, 64>, i: usize) -> (r: Option<&mut PeerInfo>)
    ensures
        match r {
            Some(p) => i < peer_seq(*old(v)).len() && *p == peer_seq(*old(v))[i as int] && peer_seq(
                *final(v),
            ) == peer_seq(*old(v)).update(i as int, *final(p)),
            None => i >= peer_seq(*old(v)).len() && peer_seq(*final(v)) == peer_seq(*old(v)),
        },
{
    v.get_mut(i)
}

/// Calls `heapless::Vec::retain`, which keeps the items that the test holds of,
/// in their order.
#[verifier::external_body]
fn peers_retain(v: &mut heapless::Vec<PeerInfo, 64>, cutoff: u64)
    ensures
        peer_seq(*final(v)) == fresh(peer_seq(*old(v)), cutoff),
{
    v.retain(|p| seen_since(p, cutoff))
}

/// Calls `heapless::String::new`, which gives an empty text.
#[verifier::external_body]
fn short_new() -> (r: heapless::String<17>)
    ensures
        short_text(r) == Seq::<char>::empty(),
{
    heapless::String::new()
}

/// Calls `heapless::String::push_str`: the text goes to the end. Stated of an
/// ASCII text put into an empty one that has room for it.
#[verifier::external_body]
fn short_push_str(s: &mut heapless::String<17>, text: &str) -> (r: Result<(), ()>)
    requires
        short_text(*old(s)).len() == 0,
        text.is_ascii(),
        text@.len() <= 17,
    ensures
        r is Ok,
        short_text(*final(s)) == text@,
{
    s.push_str(text)
}

/// A peer was seen at the given time or after it.
pub open spec fn is_fresh(p: PeerInfo, cutoff: u64) -> bool {
    p.contact_stats.last_seen >= cutoff
}

/// The peers that were seen at the given time or after it, in their order.
pub open spec fn fresh(peers: Seq<PeerInfo>, cutoff: u64) -> Seq<PeerInfo> {
    peers.filter(|p: PeerInfo| is_fresh(p, cutoff))
}

/// Only peers that were seen since are kept.
pub proof fn lemma_fresh(peers: Seq<PeerInfo>, cutoff: u64, k: int)
    requires
        0 <= k < fresh(peers, cutoff).len(),
    ensures
        is_fresh(fresh(peers, cutoff)[k], cutoff),
    decreases peers.len(),
{
    reveal(Seq::filter);
    let init = peers.drop_last();
    let pred = |p: PeerInfo| is_fresh(p, cutoff);
    assert(fresh(peers, cutoff) == (if pred(peers.last()) {
        fresh(init, cutoff).push(peers.last())
    } else {
        fresh(init, cutoff)
    }));
    if k < fresh(init, cutoff).len() {
        lemma_fresh(init, cutoff, k);
    }
}

/// Just those peers are kept that were seen at the given time or after it.
pub proof fn lemma_fresh_members(peers: Seq<PeerInfo>, cutoff: u64, p: PeerInfo)
    ensures
        fresh(peers, cutoff).contains(p) <==> peers.contains(p) && p.contact_stats.last_seen
            >= cutoff,
    decreases peers.len(),
{
    reveal(Seq::filter);
    let pred = |p: PeerInfo| is_fresh(p, cutoff);
    let kept = fresh(peers, cutoff);
    if peers.len() > 0 {
        let init = peers.drop_last();
        lemma_fresh_members(init, cutoff, p);
        let before = fresh(init, cutoff);
        assert(kept == (if pred(peers.last()) {
            before.push(peers.last())
        } else {
            before
        }));
        if peers.contains(p) && p.contact_stats.last_seen >= cutoff {
            let i = choose|i: int| 0 <= i < peers.len() && peers[i] == p;
            if i < init.len() {
                assert(init[i] == p);
                let j = choose|j: int| 0 <= j < before.len() && before[j] == p;
                assert(kept[j] == p);
            } else {
                assert(kept[before.len() as int] == p);
            }
        }
        if kept.contains(p) {
            let j = choose|j: int| 0 <= j < kept.len() && kept[j] == p;
            if j < before.len() {
                assert(before[j] == p);
                let i = choose|i: int| 0 <= i < init.len() && init[i] == p;
                assert(peers[i] == p);
            } else {
                assert(peers[peers.len() - 1] == p);
            }
        }
    }
}

/// Whether a peer was seen at the given time or after it.
fn seen_since(p: &PeerInfo, cutoff: u64) -> (r: bool)
    ensures
        r == is_fresh(*p, cutoff),
{
    p.contact_stats.last_seen >= cutoff
}

/// Whether two hardware addresses are the same.
pub fn mac_eq(a: &[u8; 6], b: &[u8; 6]) -> (r: bool)
    ensures
        r <==> *a == *b,
{
    let mut i: usize = 0;
    while i < 6
        invariant
            i <= 6,
            forall|k: int| 0 <= k < i ==> a@[k] == b@[k],
        decreases 6 - i,
    {
        if a[i] != b[i] {
            return false;
        }
        i += 1;
    }
    assert(a@ =~= b@);
    assert(*a =~= *b);
    true
}

impl PeerInfo {
    /// The address of the peer, lower case, with colons between the bytes.
    pub fn bssid_str(&self) -> (r: heapless::String<17>)
        ensures
            short_text(r) == lower_mac_text(self.bssid@),
    {
        let mut text: String = String::new();
        push_lower_mac(&mut text, &self.bssid);
        assert(text@ =~= lower_mac_text(self.bssid@));
        let mut s = short_new();
        let _ = short_push_str(&mut s, text.as_str());
        s
    }
}

/// The place of the peer with the given address from `i` on, or the number of
/// peers.
pub open spec fn place_of(peers: Seq<PeerInfo>, bssid: [u8; 6], i: int) -> int
    decreases peers.len() - i,
{
    if i >= peers.len() {
        peers.len() as int
    } else if peers[i].bssid == bssid {
        i
    } else {
        place_of(peers, bssid, i + 1)
    }
}

/// No two peers have the same address.
pub open spec fn distinct(peers: Seq<PeerInfo>) -> bool {
    forall|i: int, j: int| 0 <= i < j < peers.len() ==> peers[i].bssid != peers[j].bssid
}

/// The peers after news of one: what is known of contact with it is replaced,
/// or it is added at the end.
pub open spec fn with_peer(peers: Seq<PeerInfo>, peer: PeerInfo) -> Seq<PeerInfo> {
    let k = place_of(peers, peer.bssid, 0);
    if k < peers.len() {
        peers.update(k, (PeerInfo { contact_stats: peer.contact_stats, ..peers[k] }))
    } else {
        peers.push(peer)
    }
}

/// There is room for news of a peer: it is known, or one more fits.
pub open spec fn has_room(peers: Seq<PeerInfo>, bssid: [u8; 6]) -> bool {
    place_of(peers, bssid, 0) < peers.len() || peers.len() < MAX_PEERS
}

/// Where `place_of` ends up.
pub proof fn lemma_place_of(peers: Seq<PeerInfo>, bssid: [u8; 6], i: int)
    requires
        0 <= i <= peers.len(),
    ensures
        i <= place_of(peers, bssid, i) <= peers.len(),
        place_of(peers, bssid, i) < peers.len() ==> peers[place_of(peers, bssid, i)].bssid
            == bssid,
        forall|k: int| i <= k < place_of(peers, bssid, i) ==> peers[k].bssid != bssid,
    decreases peers.len() - i,
{
    if i < peers.len() && peers[i].bssid != bssid {
        lemma_place_of(peers, bssid, i + 1);
    }
}

/// There is room for news of a peer that is known, and of any while fewer than 64 are.
pub proof fn lemma_has_room(peers: Seq<PeerInfo>, bssid: [u8; 6])
    ensures
        has_room(peers, bssid) <==> peers.len() < 64 || exists|k: int|
            0 <= k < peers.len() && (#[trigger] peers[k]).bssid == bssid,
{
    lemma_place_of(peers, bssid, 0);
}

/// News of a peer that is known changes how it was seen, and nothing else; a new one
/// is added behind the others, which stay as they are.
pub proof fn lemma_with_peer(peers: Seq<PeerInfo>, peer: PeerInfo, k: int)
    requires
        distinct(peers),
        0 <= k < peers.len(),
    ensures
        peers[k].bssid == peer.bssid ==> with_peer(peers, peer).len() == peers.len() && with_peer(
            peers,
            peer,
        )[k] == (PeerInfo {
            bssid: peer.bssid,
            ftm_stats: peers[k].ftm_stats,
            contact_stats: peer.contact_stats,
        }),
        peers[k].bssid != peer.bssid ==> with_peer(peers, peer)[k] == peers[k],
{
    lemma_place_of(peers, peer.bssid, 0);
}

/// A new peer is added behind the others.
pub proof fn lemma_with_new_peer(peers: Seq<PeerInfo>, peer: PeerInfo)
    requires
        forall|k: int| 0 <= k < peers.len() ==> (#[trigger] peers[k]).bssid != peer.bssid,
    ensures
        with_peer(peers, peer) == peers.push(peer),
{
    lemma_place_of(peers, peer.bssid, 0);
}

/// News of a peer leaves all addresses distinct.
pub proof fn lemma_with_peer_distinct(peers: Seq<PeerInfo>, peer: PeerInfo)
    requires
        distinct(peers),
    ensures
        distinct(with_peer(peers, peer)),
{
    lemma_place_of(peers, peer.bssid, 0);
}

/// Dropping peers leaves the addresses of the others distinct.
pub proof fn lemma_filter_distinct(peers: Seq<PeerInfo>, cutoff: u64)
    requires
        distinct(peers),
    ensures
        distinct(fresh(peers, cutoff)),
        fresh(peers, cutoff).len() <= peers.len(),
        forall|k: int|
            0 <= k < fresh(peers, cutoff).len() ==> peers.contains(
                #[trigger] fresh(peers, cutoff)[k],
            ),
    decreases peers.len(),
{
    reveal(Seq::filter);
    let pred = |p: PeerInfo| is_fresh(p, cutoff);
    if peers.len() > 0 {
        let init = peers.drop_last();
        lemma_filter_distinct(init, cutoff);
        let kept = fresh(init, cutoff);
        assert(fresh(peers, cutoff) == (if pred(peers.last()) {
            kept.push(peers.last())
        } else {
            kept
        }));
        assert forall|k: int| 0 <= k < kept.len() implies peers.contains(#[trigger] kept[k])
            && kept[k].bssid != peers.last().bssid by {
            assert(init.contains(kept[k]));
            let j = choose|j: int| 0 <= j < init.len() && init[j] == kept[k];
            assert(peers[j] == kept[k]);
        }
        assert(peers.contains(peers.last()));
    }
}

/// The peers of a node, at most 64, each address once.
pub struct PeerList {
    peers: heapless::Vec<PeerInfo, 64>,
}

impl View for PeerList {
    type V = Seq<PeerInfo>;

    closed spec fn view(&self) -> Seq<PeerInfo> {
        peer_seq(self.peers)
    }
}

impl PeerList {
    /// The list holds no address twice.
    pub open spec fn wf(&self) -> bool {
        &&& distinct(self@)
        &&& self@.len() <= MAX_PEERS
    }

    /// A list without peers.
    pub fn new() -> (r: Self)
        ensures
            r.wf(),
            r@ == Seq::<PeerInfo>::empty(),
    {
        PeerList { peers: peers_new() }
    }

    /// The place of the peer with the given address, or the number of peers.
    fn place(&self, bssid: &[u8; 6]) -> (r: usize)
        ensures
            r == place_of(self@, *bssid, 0),
    {
        let peers: &[PeerInfo] = peers_slice(&self.peers);
        let mut i: usize = 0;
        while i < peers.len()
            invariant
                i <= peers@.len(),
                peers@ == self@,
                place_of(self@, *bssid, 0) == place_of(self@, *bssid, i as int),
            decreases peers@.len() - i,
        {
            if mac_eq(&peers[i].bssid, bssid) {
                return i;
            }
            i += 1;
        }
        i
    }

    /// Takes in news of a peer: of one that is known, only how it was seen
    /// changes. Fails where the peer is new and there is no room.
    pub fn add_or_update(&mut self, peer: PeerInfo) -> (r: Result<&mut PeerInfo, ()>)
        requires
            old(self).wf(),
        ensures
            match r {
                Ok(p) => {
                    &&& has_room(old(self)@, peer.bssid)
                    &&& *p == with_peer(old(self)@, peer)[place_of(old(self)@, peer.bssid, 0)]
                    &&& final(self)@ == with_peer(old(self)@, peer).update(
                        place_of(old(self)@, peer.bssid, 0),
                        *final(p),
                    )
                },
                Err(_) => !has_room(old(self)@, peer.bssid) && final(self)@ == old(self)@,
            },
    {
        let ghost before = self@;
        let k: usize = self.place(&peer.bssid);
        proof {
            lemma_place_of(before, peer.bssid, 0);
        }
        let n: usize = self.count();
        if k < n {
            match peers_get_mut(&mut self.peers, k) {
                Some(p) => {
                    p.contact_stats = peer.contact_stats;
                    Ok(p)
                },
                None => Err(()),
            }
        } else {
            match peers_push(&mut self.peers, peer) {
                Ok(_) => match peers_get_mut(&mut self.peers, n) {
                    Some(p) => Ok(p),
                    None => Err(()),
                },
                Err(_) => Err(()),
            }
        }
    }

    /// How many peers are known.
    pub fn count(&self) -> (r: usize)
        ensures
            r == self@.len(),
            r <= MAX_PEERS,
    {
        peers_slice(&self.peers).len()
    }

    /// The peer at a place, to be changed.
    pub fn get_mut(&mut self, index: usize) -> (r: Option<&mut PeerInfo>)
        ensures
            match r {
                Some(p) => {
                    &&& index < old(self)@.len()
                    &&& *p == old(self)@[index as int]
                    &&& final(self)@ == old(self)@.update(index as int, *final(p))
                },
                None => index >= old(self)@.len() && final(self)@ == old(self)@,
            },
    {
        peers_get_mut(&mut self.peers, index)
    }

    /// All peers.
    pub fn all(&self) -> (r: &[PeerInfo])
        ensures
            r@ == self@,
            r@.len() <= MAX_PEERS,
    {
        peers_slice(&self.peers)
    }

    /// Drops the peers that were not seen since the given time.
    pub fn remove_stale(&mut self, cutoff: u64)
        requires
            old(self).wf(),
        ensures
            final(self).wf(),
            final(self)@ == fresh(old(self)@, cutoff),
    {
        proof {
            lemma_filter_distinct(self@, cutoff);
        }
        peers_retain(&mut self.peers, cutoff);
    }

    /// The peer with the given address.
    pub fn find_by_bssid(&self, bssid: &[u8; 6]) -> (r: Option<&PeerInfo>)
        ensures
            match r {
                Some(p) => place_of(self@, *bssid, 0) < self@.len() && *p == self@[place_of(
                    self@,
                    *bssid,
                    0,
                )],
                None => place_of(self@, *bssid, 0) == self@.len(),
            },
    {
        let k: usize = self.place(bssid);
        proof {
            lemma_place_of(self@, *bssid, 0);
        }
        let peers: &[PeerInfo] = peers_slice(&self.peers);
        if k < peers.len() {
            Some(&peers[k])
        } else {
            None
        }
    }
}

} // verus!
