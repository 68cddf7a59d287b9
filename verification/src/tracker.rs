//! The tracker: which peers have announced themselves, and when.

use vstd::prelude::*;

verus! {

/// Peer information stored by the tracker.
#[derive(Debug)]
pub struct PeerInfo {
    pub addr: String,
    /// Seconds since the Unix epoch at which the peer last announced itself.
    pub last_seen: u64,
}

/// Request to announce a peer.
#[derive(Debug)]
pub struct AnnounceRequest {
    pub addr: String,
}

/// Response containing the list of peers.
#[derive(Debug)]
pub struct PeersResponse {
    pub peers: Vec<PeerInfo>,
}

/// Standard reply to a request that has nothing else to report.
#[derive(Debug)]
pub struct ApiResponse {
    pub status: String,
}

impl Clone for PeerInfo {
    fn clone(&self) -> (copy: Self)
        ensures
            copy@ == self@,
    {
        PeerInfo { addr: self.addr.clone(), last_seen: self.last_seen }
    }
}

/// How many seconds after its last announcement a peer is dropped.
pub const PEER_TIMEOUT_SECONDS: u64 = 300;

/// How many seconds pass between two cleanups of the registry.
pub const CLEANUP_INTERVAL_SECONDS: u64 = 30;

/// The mathematical value of a [`PeerInfo`].
pub struct PeerRecord {
    pub addr: Seq<char>,
    pub last_seen: nat,
}

impl View for PeerInfo {
    type V = PeerRecord;

    open spec fn view(&self) -> PeerRecord {
        PeerRecord { addr: self.addr@, last_seen: self.last_seen as nat }
    }
}

/// The values of a list of peers, in order.
pub open spec fn records(peers: Seq<PeerInfo>) -> Seq<PeerRecord> {
    peers.map_values(|p: PeerInfo| p@)
}

/// No address occurs twice.
pub open spec fn distinct_addrs(peers: Seq<PeerRecord>) -> bool {
    forall|i: int, j: int|
        0 <= i < j < peers.len() ==> (#[trigger] peers[i]).addr != (#[trigger] peers[j]).addr
}

/// Where the peer with the given address stands, or the length if it is new.
pub open spec fn position_of(peers: Seq<PeerRecord>, addr: Seq<char>) -> int
    decreases peers.len(),
{
    if peers.len() == 0 {
        0
    } else if peers[0].addr == addr {
        0
    } else {
        1 + position_of(peers.drop_first(), addr)
    }
}

/// The registry after `peer` has announced itself: its record replaces the one
/// with the same address, or is added at the end.
pub open spec fn announced(peers: Seq<PeerRecord>, peer: PeerRecord) -> Seq<PeerRecord> {
    let at = position_of(peers, peer.addr);
    if at < peers.len() {
        peers.update(at, peer)
    } else {
        peers.push(peer)
    }
}

/// Whether a peer last seen at `last_seen` is still kept at time `now`: it
/// is, unless it was last seen more than `timeout_seconds` ago.
pub open spec fn is_fresh(last_seen: nat, now: nat, timeout_seconds: nat) -> bool {
    now - last_seen <= timeout_seconds
}

/// The registry without the peers that were last seen more than
/// `timeout_seconds` before `now`.
pub open spec fn cleaned(peers: Seq<PeerRecord>, now: nat, timeout_seconds: nat) -> Seq<PeerRecord> {
    peers.filter(|p: PeerRecord| is_fresh(p.last_seen, now, timeout_seconds))
}

/// `position_of` finds the first record with the address, if there is one.
pub proof fn lemma_position_of(peers: Seq<PeerRecord>, addr: Seq<char>)
    ensures
        0 <= position_of(peers, addr) <= peers.len(),
        position_of(peers, addr) < peers.len() ==> peers[position_of(peers, addr)].addr == addr,
        forall|i: int| 0 <= i < position_of(peers, addr) ==> (#[trigger] peers[i]).addr != addr,
    decreases peers.len(),
{
    if peers.len() > 0 && peers[0].addr != addr {
        let rest = peers.drop_first();
        lemma_position_of(rest, addr);
        assert forall|i: int| 0 <= i < position_of(peers, addr) implies (#[trigger] peers[i]).addr
            != addr by {
            if i > 0 {
                assert(peers[i] == rest[i - 1]);
            }
        }
    }
}

/// Tracker state: the peers that have announced themselves, each address once.
#[derive(Debug)]
pub struct TrackerState {
    peers: Vec<PeerInfo>,
}

impl View for TrackerState {
    type V = Seq<PeerRecord>;

    /// The known peers in the order of their first announcement.
    closed spec fn view(&self) -> Seq<PeerRecord> {
        records(self.peers@)
    }
}

impl TrackerState {
    #[verifier::type_invariant]
    spec fn inv(self) -> bool {
        distinct_addrs(records(self.peers@))
    }

    /// An empty registry.
    pub fn new() -> (state: Self)
        ensures
            state@ == Seq::<PeerRecord>::empty(),
    {
        let state = TrackerState { peers: Vec::new() };
        assert(state@ =~= Seq::<PeerRecord>::empty());
        state
    }

    /// Adds or updates a peer.
    pub fn announce_peer(&mut self, peer: PeerInfo)
        ensures
            final(self)@ == announced(old(self)@, peer@),
    {
        proof {
            use_type_invariant(&*self);
            lemma_position_of(self@, peer@.addr);
        }
        let ghost before = self@;
        let mut peers: Vec<PeerInfo> = Vec::new();
        std::mem::swap(&mut self.peers, &mut peers);
        let mut i: usize = 0;
        while i < peers.len() && !(peers[i].addr == peer.addr)
            invariant
                i <= peers.len(),
                records(peers@) == before,
                forall|j: int| 0 <= j < i ==> (#[trigger] before[j]).addr != peer@.addr,
            decreases peers.len() - i,
        {
            i = i + 1;
        }
        assert(i == position_of(before, peer@.addr)) by {
            let at = position_of(before, peer@.addr);
            if at < i {
                assert(before[at].addr == peer@.addr);
            }
            if i < at {
                assert(before[i as int].addr == peer@.addr);
            }
        }
        let ghost added = peer@;
        if i < peers.len() {
            peers[i] = peer;
        } else {
            peers.push(peer);
        }
        assert(records(peers@) =~= announced(before, added));
        assert(distinct_addrs(records(peers@)));
        self.peers = peers;
    }

    /// All known peers, in the order of their first announcement.
    pub fn get_peers(&self) -> (peers: Vec<PeerInfo>)
        ensures
            records(peers@) == self@,
            distinct_addrs(self@),
    {
        proof {
            use_type_invariant(self);
        }
        let mut peers: Vec<PeerInfo> = Vec::new();
        let mut i: usize = 0;
        while i < self.peers.len()
            invariant
                i <= self.peers.len(),
                records(peers@) == records(self.peers@).take(i as int),
            decreases self.peers.len() - i,
        {
            let copy = self.peers[i].clone();
            let ghost so_far = records(peers@);
            peers.push(copy);
            assert(records(peers@) =~= so_far.push(copy@));
            assert(records(self.peers@).take(i + 1) =~= so_far.push(copy@));
            i = i + 1;
        }
        assert(records(self.peers@).take(i as int) =~= records(self.peers@));
        peers
    }

    /// Removes the peers that were last seen more than `timeout_seconds`
    /// before `current_time`; peers seen later than `current_time` stay.
    pub fn cleanup_peers(&mut self, timeout_seconds: u64, current_time: u64)
        ensures
            final(self)@ == cleaned(old(self)@, current_time as nat, timeout_seconds as nat),
    {
        proof {
            use_type_invariant(&*self);
        }
        let ghost before = self@;
        let ghost keep = |p: PeerRecord| is_fresh(p.last_seen, current_time as nat, timeout_seconds as nat);
        let mut peers: Vec<PeerInfo> = Vec::new();
        std::mem::swap(&mut self.peers, &mut peers);
        let mut kept: Vec<PeerInfo> = Vec::new();
        assert(before.take(0) =~= Seq::<PeerRecord>::empty());
        let mut i: usize = 0;
        while i < peers.len()
            invariant
                i <= peers.len(),
                records(peers@) == before,
                records(kept@) == before.take(i as int).filter(keep),
                keep == |p: PeerRecord| is_fresh(p.last_seen, current_time as nat, timeout_seconds as nat),
            decreases peers.len() - i,
        {
            let last_seen = peers[i].last_seen;
            assert(before[i as int] == peers@[i as int]@);
            assert(before.take(i + 1) =~= before.take(i as int).push(before[i as int]));
            proof {
                before.take(i as int).lemma_filter_push(before[i as int], keep);
            }
            if last_seen > current_time || current_time - last_seen <= timeout_seconds {
                let copy = peers[i].clone();
                kept.push(copy);
                assert(records(kept@) =~= before.take(i as int).filter(keep).push(before[i as int]));
            }
            i = i + 1;
        }
        assert(before.take(i as int) =~= before);
        proof {
            lemma_filter_keeps_distinct(before, keep);
        }
        self.peers = kept;
    }

    /// Records that `request.addr` announced itself at time `now`.
    pub fn handle_announce(&mut self, request: AnnounceRequest, now: u64) -> (reply: ApiResponse)
        ensures
            final(self)@ == announced(
                old(self)@,
                PeerRecord { addr: request.addr@, last_seen: now as nat },
            ),
            reply.status@ == "ok"@,
    {
        self.announce_peer(PeerInfo { addr: request.addr, last_seen: now });
        ApiResponse { status: String::from_str("ok") }
    }

    /// The reply to a request for the list of peers.
    pub fn handle_get_peers(&self) -> (reply: PeersResponse)
        ensures
            records(reply.peers@) == self@,
    {
        PeersResponse { peers: self.get_peers() }
    }
}

/// The URL under which the tracker at `tracker` takes announcements.
pub fn announce_url(tracker: &str) -> (url: String)
    ensures
        url@ == tracker@ + "/announce"@,
{
    let mut url = String::from_str(tracker);
    url.append("/announce");
    url
}

/// Filtering keeps addresses distinct.
pub proof fn lemma_filter_keeps_distinct(peers: Seq<PeerRecord>, keep: spec_fn(PeerRecord) -> bool)
    requires
        distinct_addrs(peers),
    ensures
        distinct_addrs(peers.filter(keep)),
    decreases peers.len(),
{
    reveal(Seq::filter);
    if peers.len() > 0 {
        let head = peers.drop_last();
        assert forall|i: int, j: int| 0 <= i < j < head.len() implies (#[trigger] head[i]).addr != (
        #[trigger] head[j]).addr by {
            assert(head[i] == peers[i] && head[j] == peers[j]);
        }
        lemma_filter_keeps_distinct(head, keep);
        let kept = head.filter(keep);
        if keep(peers.last()) {
            assert forall|i: int, j: int| 0 <= i < j < kept.push(peers.last()).len() implies (
            #[trigger] kept.push(peers.last())[i]).addr != (#[trigger] kept.push(
                peers.last(),
            )[j]).addr by {
                if j == kept.len() {
                    assert(kept.contains(kept[i]));
                    head.lemma_filter_contains_rev(keep, kept[i]);
                    let k = choose|k: int| 0 <= k < head.len() && head[k] == kept[i];
                    assert(peers[k] == head[k]);
                    assert(peers[peers.len() - 1] == peers.last());
                }
            }
        }
    }
}

} // verus!
