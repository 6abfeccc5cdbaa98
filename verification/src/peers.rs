//! The routing table: 160 buckets of at most 20 peers each, one bucket for
//! each position at which a peer's identifier can first differ from the
//! local one, each bucket ordered from least to most recently seen.

use crate::errors::Error;
use crate::closest::{
    distinct_ids, preferred, same_peers, sort_peers, sorted_by, start_bucket, visit_rank,
    PeerOrder,
};
use crate::structures::{peer_views, Endpoint, Peer, PeerView};
use crate::text::same_text;
use crate::utilities::{
    bucket_index, bucket_index_spec, bucket_of, distance_between, id_bytes,
    is_first_differing_bit, is_node_id,
    lemma_bucket_index_is_first_differing_bit, lemma_bucket_index_range, lemma_id_bytes_injective,
    sha1_to_bytes,
};
use vstd::prelude::*;

verus! {

/// How many peers a bucket holds at most.
pub const BUCKET_SIZE: usize = 20;

/// How many peers a lookup names at most.
pub const FIND_PEER_COUNT: usize = 20;

/// The routing table as mathematics: the local identifier and the peers of
/// each bucket, least recently seen first.
pub struct RoutingView {
    pub local_node_id: Seq<char>,
    pub buckets: Seq<Seq<PeerView>>,
}

/// Whether `peer` may stand in bucket `index` of the table of `local`: its
/// identifier is one, first differs from the local one at bit `index`, and it
/// was not last seen before it was first seen.
pub open spec fn peer_fits(local: Seq<char>, index: int, peer: PeerView) -> bool {
    &&& is_node_id(peer.node_id)
    &&& bucket_of(local, peer.node_id) == index
    &&& (peer.last_seen matches Some(t) ==> t >= peer.first_seen)
}

/// Whether a peer with the identifier `id` is in `bucket`.
pub open spec fn holds_id(bucket: Seq<PeerView>, id: Seq<char>) -> bool {
    exists|k: int| 0 <= k < bucket.len() && (#[trigger] bucket[k]).node_id == id
}

/// Where in `bucket` the peer with the identifier `id` is, if it is there.
pub open spec fn index_of_id(bucket: Seq<PeerView>, id: Seq<char>) -> int {
    choose|k: int| 0 <= k < bucket.len() && (#[trigger] bucket[k]).node_id == id
}

/// Whether `bucket` may be bucket `index` of the table of `local`: it holds
/// at most 20 peers, each fits, and no identifier occurs twice.
pub open spec fn bucket_ok(local: Seq<char>, index: int, bucket: Seq<PeerView>) -> bool {
    &&& bucket.len() <= 20
    &&& forall|k: int| 0 <= k < bucket.len() ==> peer_fits(local, index, #[trigger] bucket[k])
    &&& forall|k: int, l: int|
        0 <= k < l < bucket.len() ==> (#[trigger] bucket[k]).node_id != (
        #[trigger] bucket[l]).node_id
}

/// The peers of all buckets, bucket after bucket.
pub open spec fn flatten(buckets: Seq<Seq<PeerView>>) -> Seq<PeerView>
    decreases buckets.len(),
{
    if buckets.len() == 0 {
        Seq::empty()
    } else {
        flatten(buckets.drop_last()) + buckets.last()
    }
}

/// 160 buckets without a peer.
pub open spec fn no_peers() -> Seq<Seq<PeerView>> {
    Seq::new(160, |b: int| Seq::empty())
}

impl RoutingView {
    /// Whether this is a routing table: the local identifier is one, there
    /// are 160 buckets, and each is in order for its index.
    pub open spec fn wf(self) -> bool {
        &&& is_node_id(self.local_node_id)
        &&& self.buckets.len() == 160
        &&& forall|b: int|
            0 <= b < 160 ==> bucket_ok(self.local_node_id, b, #[trigger] self.buckets[b])
    }

    /// Whether `peer` is in the table.
    pub open spec fn has_peer(self, peer: PeerView) -> bool {
        exists|b: int, k: int|
            0 <= b < self.buckets.len() && 0 <= k < self.buckets[b].len()
                && #[trigger] self.buckets[b][k] == peer
    }

    /// Whether a peer with the identifier `id` is in the table.
    pub open spec fn knows(self, id: Seq<char>) -> bool {
        exists|b: int| 0 <= b < self.buckets.len() && holds_id(#[trigger] self.buckets[b], id)
    }

    /// All peers, bucket after bucket.
    pub open spec fn peers(self) -> Seq<PeerView> {
        flatten(self.buckets)
    }
}

/// A peer of a routing table sits in the bucket whose index is the position
/// of the first bit in which its identifier differs from the local one; so
/// the local node is no peer of its own table.
pub proof fn lemma_peer_is_in_its_bucket(table: RoutingView, b: int, k: int)
    requires
        table.wf(),
        0 <= b < 160,
        0 <= k < table.buckets[b].len(),
    ensures
        bucket_of(table.local_node_id, table.buckets[b][k].node_id) == b,
        is_first_differing_bit(
            id_bytes(table.local_node_id),
            id_bytes(table.buckets[b][k].node_id),
            b,
        ),
        table.buckets[b][k].node_id != table.local_node_id,
{
    let bucket = table.buckets[b];
    assert(bucket_ok(table.local_node_id, b, bucket));
    assert(peer_fits(table.local_node_id, b, bucket[k]));
    let local = id_bytes(table.local_node_id);
    let other = id_bytes(bucket[k].node_id);
    lemma_bucket_index_range(local, other);
    lemma_bucket_index_is_first_differing_bit(local, other);
}

/// No bucket of a routing table holds more than 20 peers.
pub proof fn lemma_bucket_capacity(table: RoutingView, b: int)
    requires
        table.wf(),
        0 <= b < 160,
    ensures
        table.buckets[b].len() <= BUCKET_SIZE,
{
    assert(bucket_ok(table.local_node_id, b, table.buckets[b]));
}

/// No identifier occurs twice in a routing table.
pub proof fn lemma_peer_ids_are_unique(table: RoutingView, b1: int, k1: int, b2: int, k2: int)
    requires
        table.wf(),
        0 <= b1 < 160,
        0 <= k1 < table.buckets[b1].len(),
        0 <= b2 < 160,
        0 <= k2 < table.buckets[b2].len(),
        table.buckets[b1][k1].node_id == table.buckets[b2][k2].node_id,
    ensures
        b1 == b2,
        k1 == k2,
{
    lemma_peer_is_in_its_bucket(table, b1, k1);
    lemma_peer_is_in_its_bucket(table, b2, k2);
    let bucket = table.buckets[b1];
    assert(bucket_ok(table.local_node_id, b1, bucket));
    if k1 < k2 {
        assert(bucket[k1].node_id != bucket[k2].node_id);
    } else if k2 < k1 {
        assert(bucket[k2].node_id != bucket[k1].node_id);
    }
}

/// A table without a peer is a routing table.
pub proof fn lemma_no_peers_wf(local: Seq<char>)
    requires
        is_node_id(local),
    ensures
        (RoutingView { local_node_id: local, buckets: no_peers() }).wf(),
{
}

/// The record of a peer heard of for the first time at `now`.
pub open spec fn first_contact(address: Endpoint, id: Seq<char>, active: bool, now: u64) -> PeerView {
    PeerView {
        active,
        address,
        first_seen: now,
        last_seen: if active {
            Some(now)
        } else {
            None
        },
        node_id: id,
    }
}

/// The record of a known peer after a contact at `now`: a new endpoint is
/// taken over where its IP address differs, liveness is set where the caller
/// asserts it and then the time of the contact is noted, never earlier than
/// the first one.
pub open spec fn next_contact(peer: PeerView, address: Endpoint, active: bool, now: u64) -> PeerView {
    PeerView {
        active: peer.active || active,
        address: if address.ip != peer.address.ip {
            address
        } else {
            peer.address
        },
        first_seen: peer.first_seen,
        last_seen: if active {
            Some(if now >= peer.first_seen {
                now
            } else {
                peer.first_seen
            })
        } else {
            peer.last_seen
        },
        node_id: peer.node_id,
    }
}

/// What an insertion does to a routing table: the table after it and the
/// record of the peer, or why nothing was done.
pub open spec fn insert_outcome(
    table: RoutingView,
    address: Endpoint,
    id: Seq<char>,
    active: bool,
    now: u64,
) -> Result<(RoutingView, PeerView), Error> {
    if !is_node_id(id) {
        Err(Error::InvalidId)
    } else if id == table.local_node_id {
        Err(Error::SameId)
    } else {
        let b = bucket_of(table.local_node_id, id) as int;
        let bucket = table.buckets[b];
        if holds_id(bucket, id) {
            let k = index_of_id(bucket, id);
            let peer = next_contact(bucket[k], address, active, now);
            Ok(
                (
                    RoutingView {
                        buckets: table.buckets.update(b, bucket.remove(k).push(peer)),
                        ..table
                    },
                    peer,
                ),
            )
        } else if bucket.len() >= 20 {
            Err(Error::BucketFull)
        } else {
            let peer = first_contact(address, id, active, now);
            Ok((RoutingView { buckets: table.buckets.update(b, bucket.push(peer)), ..table }, peer))
        }
    }
}

/// The result of an insertion together with the table it leaves.
pub open spec fn insert_result(r: Result<Peer, Error>, after: RoutingView) -> Result<
    (RoutingView, PeerView),
    Error,
> {
    match r {
        Ok(peer) => Ok((after, peer@)),
        Err(e) => Err(e),
    }
}

proof fn lemma_bucket_push(local: Seq<char>, index: int, bucket: Seq<PeerView>, peer: PeerView)
    requires
        bucket_ok(local, index, bucket),
        bucket.len() < 20,
        peer_fits(local, index, peer),
        !holds_id(bucket, peer.node_id),
    ensures
        bucket_ok(local, index, bucket.push(peer)),
{
    let after = bucket.push(peer);
    assert forall|k: int, l: int| 0 <= k < l < after.len() implies (#[trigger] after[k]).node_id != (
    #[trigger] after[l]).node_id by {
        if l == bucket.len() {
            assert(bucket[k].node_id != peer.node_id);
        } else {
            assert(bucket[k].node_id != bucket[l].node_id);
        }
    }
}

proof fn lemma_bucket_refresh(
    local: Seq<char>,
    index: int,
    bucket: Seq<PeerView>,
    at: int,
    peer: PeerView,
)
    requires
        bucket_ok(local, index, bucket),
        0 <= at < bucket.len(),
        peer_fits(local, index, peer),
        peer.node_id == bucket[at].node_id,
    ensures
        bucket_ok(local, index, bucket.remove(at).push(peer)),
        index_of_id(bucket, peer.node_id) == at,
        holds_id(bucket, peer.node_id),
{
    let rest = bucket.remove(at);
    let after = rest.push(peer);
    assert forall|k: int| 0 <= k < rest.len() implies peer_fits(local, index, #[trigger] rest[k])
        && rest[k].node_id != peer.node_id by {
        if k < at {
            assert(rest[k] == bucket[k]);
            assert(bucket[k].node_id != bucket[at].node_id);
        } else {
            assert(rest[k] == bucket[k + 1]);
            assert(bucket[at].node_id != bucket[k + 1].node_id);
        }
    }
    assert forall|k: int, l: int| 0 <= k < l < after.len() implies (#[trigger] after[k]).node_id != (
    #[trigger] after[l]).node_id by {
        if l == rest.len() {
            assert(rest[k].node_id != peer.node_id);
        } else {
            let kk = if k < at {
                k
            } else {
                k + 1
            };
            let ll = if l < at {
                l
            } else {
                l + 1
            };
            assert(rest[k] == bucket[kk] && rest[l] == bucket[ll]);
            assert(bucket[kk].node_id != bucket[ll].node_id);
        }
    }
    let chosen = index_of_id(bucket, peer.node_id);
    assert(bucket[at].node_id == peer.node_id);
    if chosen < at {
        assert(bucket[chosen].node_id != bucket[at].node_id);
    } else if chosen > at {
        assert(bucket[at].node_id != bucket[chosen].node_id);
    }
}

/// The views of the peers of each bucket.
pub open spec fn bucket_views(buckets: Seq<Vec<Peer>>) -> Seq<Seq<PeerView>> {
    Seq::new(buckets.len(), |b: int| peer_views(buckets[b]@))
}

/// The time of the system clock in seconds since the Unix epoch, or none
/// where the clock stands before it. `SystemTime::elapsed` of the standard
/// library on `UNIX_EPOCH`; nothing is promised of the result.
#[verifier::external_body]
pub(crate) fn current_time() -> Option<u64> {
    match std::time::UNIX_EPOCH.elapsed() {
        Ok(elapsed) => Some(elapsed.as_secs()),
        Err(_) => None,
    }
}

/// 160 buckets without a peer.
fn empty_buckets() -> (buckets: Vec<Vec<Peer>>)
    ensures
        bucket_views(buckets@) == no_peers(),
{
    let mut buckets: Vec<Vec<Peer>> = Vec::new();
    let mut b: usize = 0;
    while b < 160
        invariant
            b <= 160,
            buckets@.len() == b,
            forall|i: int| 0 <= i < b ==> (#[trigger] buckets@[i])@.len() == 0,
        decreases 160 - b,
    {
        buckets.push(Vec::new());
        b = b + 1;
    }
    assert(bucket_views(buckets@) =~~= no_peers());
    buckets
}

/// Where in `bucket` the peer with the identifier `id` is, if it is there.
fn position_in(bucket: &Vec<Peer>, id: &str) -> (r: Option<usize>)
    ensures
        match r {
            Some(k) => k < bucket@.len() && bucket@[k as int]@.node_id == id@,
            None => !holds_id(peer_views(bucket@), id@),
        },
{
    let mut k: usize = 0;
    while k < bucket.len()
        invariant
            k <= bucket@.len(),
            forall|j: int| 0 <= j < k ==> (#[trigger] bucket@[j])@.node_id != id@,
        decreases bucket@.len() - k,
    {
        if same_text(bucket[k].node_id.as_str(), id) {
            return Some(k);
        }
        k = k + 1;
    }
    assert forall|j: int| 0 <= j < peer_views(bucket@).len() implies (#[trigger] peer_views(
        bucket@,
    )[j]).node_id != id@ by {
        assert(bucket@[j]@.node_id != id@);
    }
    None
}

/// Whether `bucket` may be bucket `index` of the table of the local identifier.
fn check_bucket(
    local_bytes: &[u8; 20],
    Ghost(local): Ghost<Seq<char>>,
    index: usize,
    bucket: &Vec<Peer>,
) -> (r: bool)
    requires
        is_node_id(local),
        local_bytes@ == id_bytes(local),
        index < 160,
    ensures
        r == bucket_ok(local, index as int, peer_views(bucket@)),
{
    let ghost views = peer_views(bucket@);
    if bucket.len() > BUCKET_SIZE {
        return false;
    }
    let mut k: usize = 0;
    while k < bucket.len()
        invariant
            k <= bucket@.len(),
            bucket@.len() <= 20,
            views == peer_views(bucket@),
            is_node_id(local),
            local_bytes@ == id_bytes(local),
            index < 160,
            forall|j: int| 0 <= j < k ==> peer_fits(local, index as int, #[trigger] views[j]),
            forall|i: int, j: int|
                0 <= i < j < k ==> (#[trigger] views[i]).node_id != (#[trigger] views[j]).node_id,
        decreases bucket@.len() - k,
    {
        let peer = &bucket[k];
        assert(views[k as int] == peer@);
        let bytes = match sha1_to_bytes(peer.node_id.as_str()) {
            Ok(bytes) => bytes,
            Err(_) => {
                assert(!peer_fits(local, index as int, views[k as int]));
                return false;
            },
        };
        proof {
            lemma_bucket_index_range(local_bytes@, bytes@);
        }
        match bucket_index(local_bytes, &bytes) {
            Ok(found) => {
                if found != index {
                    assert(!peer_fits(local, index as int, views[k as int]));
                    return false;
                }
            },
            Err(_) => {
                assert(!peer_fits(local, index as int, views[k as int]));
                return false;
            },
        }
        match peer.last_seen {
            Some(t) => {
                if t < peer.first_seen {
                    assert(!peer_fits(local, index as int, views[k as int]));
                    return false;
                }
            },
            None => {},
        }
        let mut i: usize = 0;
        while i < k
            invariant
                i <= k < bucket@.len(),
                views == peer_views(bucket@),
                forall|j: int| 0 <= j < i ==> (#[trigger] views[j]).node_id != views[k as int].node_id,
            decreases k - i,
        {
            if same_text(bucket[i].node_id.as_str(), bucket[k].node_id.as_str()) {
                assert(views[i as int].node_id == views[k as int].node_id);
                return false;
            }
            i = i + 1;
        }
        k = k + 1;
    }
    true
}

/// The routing table of a node.
pub struct PeerManager {
    buckets: Vec<Vec<Peer>>,
    local_node_id: String,
    local_bytes: [u8; 20],
}

impl View for PeerManager {
    type V = RoutingView;

    closed spec fn view(&self) -> RoutingView {
        RoutingView { local_node_id: self.local_node_id@, buckets: bucket_views(self.buckets@) }
    }
}

impl PeerManager {
    #[verifier::type_invariant]
    spec fn well_formed(&self) -> bool {
        &&& self@.wf()
        &&& self.local_bytes@ == id_bytes(self.local_node_id@)
    }

    /// The routing table of the node `local_node_id` with the peers of
    /// `buckets`, which are the 160 buckets of an earlier table of this node,
    /// or none at all for a table without peers.
    ///
    /// Fails with `InvalidId` where the identifier is not one, and with
    /// `InvalidState` where the buckets are not those of a routing table of
    /// this node.
    pub fn new(buckets: Vec<Vec<Peer>>, local_node_id: &str) -> (r: Result<Self, Error>)
        ensures
            match r {
                Ok(table) => {
                    &&& table@.wf()
                    &&& table@.local_node_id == local_node_id@
                    &&& table@.buckets == if buckets@.len() == 0 {
                        no_peers()
                    } else {
                        bucket_views(buckets@)
                    }
                },
                Err(e) => if !is_node_id(local_node_id@) {
                    e == Error::InvalidId
                } else {
                    &&& e == Error::InvalidState
                    &&& buckets@.len() != 0
                    &&& !(RoutingView {
                        local_node_id: local_node_id@,
                        buckets: bucket_views(buckets@),
                    }).wf()
                },
            },
    {
        let local_bytes = match sha1_to_bytes(local_node_id) {
            Ok(bytes) => bytes,
            Err(_) => {
                return Err(Error::InvalidId);
            },
        };
        let ghost local = local_node_id@;
        if buckets.len() == 0 {
            proof {
                lemma_no_peers_wf(local);
            }
            return Ok(
                PeerManager {
                    buckets: empty_buckets(),
                    local_node_id: local_node_id.to_owned(),
                    local_bytes,
                },
            );
        }
        if buckets.len() != 160 {
            return Err(Error::InvalidState);
        }
        let ghost views = bucket_views(buckets@);
        let mut b: usize = 0;
        while b < 160
            invariant
                b <= 160,
                buckets@.len() == 160,
                views == bucket_views(buckets@),
                local == local_node_id@,
                is_node_id(local),
                local_bytes@ == id_bytes(local),
                forall|i: int| 0 <= i < b ==> bucket_ok(local, i, #[trigger] views[i]),
            decreases 160 - b,
        {
            if !check_bucket(&local_bytes, Ghost(local), b, &buckets[b]) {
                assert(!bucket_ok(local, b as int, views[b as int]));
                return Err(Error::InvalidState);
            }
            b = b + 1;
        }
        Ok(PeerManager { buckets, local_node_id: local_node_id.to_owned(), local_bytes })
    }

    /// The identifier of the node whose table this is.
    pub fn local_node_id(&self) -> (id: &String)
        ensures
            id@ == self@.local_node_id,
            self@.wf(),
    {
        proof {
            use_type_invariant(self);
        }
        &self.local_node_id
    }

    /// Notes a contact with the peer `peer_node_id` at the endpoint
    /// `socket_addr`, at the time of the system clock, or at time zero where
    /// the clock stands before the Unix epoch.
    ///
    /// What is done is what [`PeerManager::add_peer_at`] does at some time.
    pub fn add_peer(&mut self, socket_addr: Endpoint, peer_node_id: &str, active: bool) -> (r:
        Result<Peer, Error>)
        ensures
            final(self)@.wf(),
            exists|now: u64|
                insert_result(r, final(self)@) == insert_outcome(
                    old(self)@,
                    socket_addr,
                    peer_node_id@,
                    active,
                    now,
                ),
            r is Err ==> final(self)@ == old(self)@,
    {
        let now = match current_time() {
            Some(seconds) => seconds,
            None => 0,
        };
        self.add_peer_at(socket_addr, peer_node_id, active, now)
    }

    /// Notes a contact at the time `now` with the peer `peer_node_id` at the
    /// endpoint `socket_addr`.
    ///
    /// A known peer is refreshed and moved to the tail of its bucket; an
    /// unknown one is appended to its bucket if that holds fewer than 20
    /// peers. Fails with `InvalidId` where the identifier is not one, with
    /// `SameId` where it is the local one, and with `BucketFull` where the
    /// peer is unknown and its bucket is full; the table is then unchanged.
    pub fn add_peer_at(
        &mut self,
        socket_addr: Endpoint,
        peer_node_id: &str,
        active: bool,
        now: u64,
    ) -> (r: Result<Peer, Error>)
        ensures
            final(self)@.wf(),
            insert_result(r, final(self)@) == insert_outcome(
                old(self)@,
                socket_addr,
                peer_node_id@,
                active,
                now,
            ),
            r is Err ==> final(self)@ == old(self)@,
    {
        proof {
            use_type_invariant(&*self);
        }
        let ghost before = self@;
        let ghost local = self.local_node_id@;
        let bytes = match sha1_to_bytes(peer_node_id) {
            Ok(bytes) => bytes,
            Err(_) => {
                return Err(Error::InvalidId);
            },
        };
        proof {
            lemma_bucket_index_range(self.local_bytes@, bytes@);
            if peer_node_id@ != local && self.local_bytes@ == bytes@ {
                lemma_id_bytes_injective(local, peer_node_id@);
            }
        }
        let b = match bucket_index(&self.local_bytes, &bytes) {
            Ok(b) => b,
            Err(_) => {
                return Err(Error::SameId);
            },
        };
        let ghost bucket = before.buckets[b as int];
        assert(bucket == peer_views(self.buckets@[b as int]@));
        assert(bucket_ok(local, b as int, bucket));
        match position_in(&self.buckets[b], peer_node_id) {
            Some(k) => {
                let known = &self.buckets[b][k];
                assert(bucket[k as int] == known@);
                assert(peer_fits(local, b as int, bucket[k as int]));
                let address = if socket_addr.ip == known.address.ip {
                    known.address
                } else {
                    socket_addr
                };
                let last_seen = if active {
                    Some(
                        if now >= known.first_seen {
                            now
                        } else {
                            known.first_seen
                        },
                    )
                } else {
                    known.last_seen
                };
                let peer = Peer {
                    active: known.active || active,
                    address,
                    first_seen: known.first_seen,
                    last_seen,
                    node_id: known.node_id.clone(),
                };
                let result = peer.clone();
                proof {
                    assert(peer@ == next_contact(bucket[k as int], socket_addr, active, now));
                    lemma_bucket_refresh(local, b as int, bucket, k as int, peer@);
                    lemma_no_peers_wf(local);
                }
                let mut buckets = empty_buckets();
                std::mem::swap(&mut self.buckets, &mut buckets);
                let removed = buckets[b].remove(k);
                buckets[b].push(peer);
                proof {
                    let after = bucket.remove(k as int).push(result@);
                    assert(peer_views(buckets@[b as int]@) =~= after);
                    assert(bucket_views(buckets@) =~~= before.buckets.update(b as int, after));
                }
                self.buckets = buckets;
                Ok(result)
            },
            None => {
                if self.buckets[b].len() >= BUCKET_SIZE {
                    return Err(Error::BucketFull);
                }
                let peer = Peer {
                    active,
                    address: socket_addr,
                    first_seen: now,
                    last_seen: if active {
                        Some(now)
                    } else {
                        None
                    },
                    node_id: peer_node_id.to_owned(),
                };
                let result = peer.clone();
                proof {
                    assert(peer@ == first_contact(socket_addr, peer_node_id@, active, now));
                    lemma_bucket_push(local, b as int, bucket, peer@);
                    lemma_no_peers_wf(local);
                }
                let mut buckets = empty_buckets();
                std::mem::swap(&mut self.buckets, &mut buckets);
                buckets[b].push(peer);
                proof {
                    let after = bucket.push(result@);
                    assert(peer_views(buckets@[b as int]@) =~= after);
                    assert(bucket_views(buckets@) =~~= before.buckets.update(b as int, after));
                }
                self.buckets = buckets;
                Ok(result)
            },
        }
    }

    /// The peer with the identifier `node_id`, if the table holds it.
    pub fn get_peer(&self, node_id: &str) -> (r: Option<Peer>)
        ensures
            self@.wf(),
            match r {
                Some(peer) => self@.has_peer(peer@) && peer@.node_id == node_id@,
                None => !self@.knows(node_id@),
            },
    {
        proof {
            use_type_invariant(self);
        }
        let ghost table = self@;
        let bytes = match sha1_to_bytes(node_id) {
            Ok(bytes) => bytes,
            Err(_) => {
                proof {
                    if table.knows(node_id@) {
                        let b = choose|b: int|
                            0 <= b < table.buckets.len() && holds_id(
                                #[trigger] table.buckets[b],
                                node_id@,
                            );
                        let k = index_of_id(table.buckets[b], node_id@);
                        lemma_peer_is_in_its_bucket(table, b, k);
                        assert(peer_fits(table.local_node_id, b, table.buckets[b][k]));
                    }
                }
                return None;
            },
        };
        proof {
            lemma_bucket_index_range(self.local_bytes@, bytes@);
        }
        let found = match bucket_index(&self.local_bytes, &bytes) {
            Ok(b) => match position_in(&self.buckets[b], node_id) {
                Some(k) => {
                    let peer = self.buckets[b][k].clone();
                    assert(table.buckets[b as int][k as int] == peer@);
                    return Some(peer);
                },
                None => b,
            },
            Err(_) => 160,
        };
        proof {
            if table.knows(node_id@) {
                let b = choose|b: int|
                    0 <= b < table.buckets.len() && holds_id(#[trigger] table.buckets[b], node_id@);
                let k = index_of_id(table.buckets[b], node_id@);
                lemma_peer_is_in_its_bucket(table, b, k);
                assert(b == found);
            }
        }
        None
    }

    /// All peers, bucket after bucket, each bucket from least to most recently seen.
    pub fn to_vec(&self) -> (peers: Vec<Peer>)
        ensures
            self@.wf(),
            peer_views(peers@) == self@.peers(),
    {
        proof {
            use_type_invariant(self);
        }
        let ghost views = bucket_views(self.buckets@);
        let mut peers: Vec<Peer> = Vec::new();
        let mut b: usize = 0;
        assert(views.subrange(0, 0) =~= Seq::empty());
        assert(peer_views(peers@) =~= Seq::empty());
        while b < 160
            invariant
                b <= 160,
                self.buckets@.len() == 160,
                views == bucket_views(self.buckets@),
                peer_views(peers@) == flatten(views.subrange(0, b as int)),
            decreases 160 - b,
        {
            let bucket = &self.buckets[b];
            let ghost start = peer_views(peers@);
            let mut k: usize = 0;
            while k < bucket.len()
                invariant
                    k <= bucket@.len(),
                    peer_views(peers@) == start + peer_views(bucket@).subrange(0, k as int),
                decreases bucket@.len() - k,
            {
                let ghost old_peers = peers@;
                peers.push(bucket[k].clone());
                assert(peer_views(peers@) =~= peer_views(old_peers).push(bucket@[k as int]@));
                assert(peer_views(bucket@).subrange(0, k + 1) =~= peer_views(bucket@).subrange(
                    0,
                    k as int,
                ).push(bucket@[k as int]@));
                k = k + 1;
            }
            proof {
                assert(peer_views(bucket@).subrange(0, bucket@.len() as int) =~= peer_views(
                    bucket@,
                ));
                let next = views.subrange(0, b + 1);
                assert(next.drop_last() =~= views.subrange(0, b as int));
                assert(next.last() == peer_views(bucket@));
            }
            b = b + 1;
        }
        assert(views.subrange(0, 160) =~= views);
        peers
    }

    /// The number of peers.
    pub fn len(&self) -> (n: usize)
        ensures
            self@.wf(),
            n == self@.peers().len(),
    {
        proof {
            use_type_invariant(self);
        }
        let ghost views = bucket_views(self.buckets@);
        let mut n: usize = 0;
        let mut b: usize = 0;
        assert(views.subrange(0, 0) =~= Seq::empty());
        while b < 160
            invariant
                b <= 160,
                self.buckets@.len() == 160,
                views == bucket_views(self.buckets@),
                forall|i: int| 0 <= i < 160 ==> (#[trigger] views[i]).len() <= 20,
                n == flatten(views.subrange(0, b as int)).len(),
                n <= 20 * b,
            decreases 160 - b,
        {
            proof {
                let next = views.subrange(0, b + 1);
                assert(next.drop_last() =~= views.subrange(0, b as int));
                assert(next.last() == views[b as int]);
            }
            n = n + self.buckets[b].len();
            b = b + 1;
        }
        assert(views.subrange(0, 160) =~= views);
        n
    }

    /// The peers of each bucket, for keeping them across restarts.
    pub fn buckets(&self) -> (buckets: Vec<Vec<Peer>>)
        ensures
            self@.wf(),
            bucket_views(buckets@) == self@.buckets,
    {
        proof {
            use_type_invariant(self);
        }
        let mut buckets: Vec<Vec<Peer>> = Vec::new();
        let mut b: usize = 0;
        while b < 160
            invariant
                b <= 160,
                self.buckets@.len() == 160,
                buckets@.len() == b,
                forall|i: int|
                    0 <= i < b ==> peer_views((#[trigger] buckets@[i])@) == peer_views(
                        self.buckets@[i]@,
                    ),
            decreases 160 - b,
        {
            let source = &self.buckets[b];
            let mut bucket: Vec<Peer> = Vec::new();
            let mut k: usize = 0;
            while k < source.len()
                invariant
                    k <= source@.len(),
                    bucket@.len() == k,
                    forall|j: int| 0 <= j < k ==> (#[trigger] bucket@[j])@ == source@[j]@,
                decreases source@.len() - k,
            {
                bucket.push(source[k].clone());
                k = k + 1;
            }
            assert(peer_views(bucket@) =~= peer_views(source@));
            buckets.push(bucket);
            b = b + 1;
        }
        assert(bucket_views(buckets@) =~= bucket_views(self.buckets@));
        buckets
    }
}


/// Whether a lookup of `target` may name `peer`: it is in the table and is
/// not the target itself.
pub open spec fn eligible(table: RoutingView, target: Seq<char>, peer: PeerView) -> bool {
    table.has_peer(peer) && peer.node_id != target
}

/// Whether `peer` may be named by the pass of a lookup that takes the peers
/// that were seen, or by the pass that takes those that never were.
pub open spec fn candidate(table: RoutingView, target: Seq<char>, seen: bool, peer: PeerView) -> bool {
    eligible(table, target, peer) && (peer.last_seen is Some) == seen
}

/// Whether `r` is what one pass of a lookup of `target` gives: the first
/// `limit` candidates in the order of [`preferred`], or all of them where
/// there are fewer.
pub open spec fn is_pass(
    table: RoutingView,
    target: Seq<char>,
    seen: bool,
    limit: int,
    r: Seq<PeerView>,
) -> bool {
    &&& r.len() <= limit
    &&& distinct_ids(r)
    &&& forall|i: int| 0 <= i < r.len() ==> candidate(table, target, seen, #[trigger] r[i])
    &&& forall|i: int, j: int|
        0 <= i < j < r.len() ==> preferred(
            table.local_node_id,
            target,
            #[trigger] r[i],
            #[trigger] r[j],
        )
    &&& (r.len() == limit || forall|p: PeerView| #[trigger]
        candidate(table, target, seen, p) ==> r.contains(p))
    &&& forall|p: PeerView, i: int|
        #![trigger candidate(table, target, seen, p), r[i]]
        candidate(table, target, seen, p) && !r.contains(p) && 0 <= i < r.len() ==> preferred(
            table.local_node_id,
            target,
            r[i],
            p,
        )
}

/// Whether `r` is what a lookup of `target` for `count` peers gives: the
/// first `count` peers that may be named, in the order of [`preferred`], or
/// all of them where there are fewer; listed by rising distance to the target.
pub open spec fn is_closest(table: RoutingView, target: Seq<char>, count: int, r: Seq<PeerView>) -> bool {
    &&& r.len() <= count
    &&& forall|i: int| 0 <= i < r.len() ==> eligible(table, target, #[trigger] r[i])
    &&& forall|i: int, j: int|
        0 <= i < j < r.len() ==> distance_between(target, (#[trigger] r[i]).node_id)
            < distance_between(target, (#[trigger] r[j]).node_id)
    &&& (r.len() == count || forall|p: PeerView| #[trigger]
        eligible(table, target, p) ==> r.contains(p))
    &&& forall|p: PeerView, i: int|
        #![trigger eligible(table, target, p), r[i]]
        eligible(table, target, p) && !r.contains(p) && 0 <= i < r.len() ==> preferred(
            table.local_node_id,
            target,
            r[i],
            p,
        )
}

/// What a lookup gives is listed by distance to the target, never falling;
/// no peer is named twice, and the target is not named.
pub proof fn lemma_closest_is_ordered(
    table: RoutingView,
    target: Seq<char>,
    count: int,
    r: Seq<PeerView>,
)
    requires
        table.wf(),
        is_node_id(target),
        is_closest(table, target, count, r),
    ensures
        forall|i: int, j: int|
            0 <= i <= j < r.len() ==> distance_between(target, (#[trigger] r[i]).node_id)
                <= distance_between(target, (#[trigger] r[j]).node_id),
        forall|i: int, j: int|
            0 <= i < j < r.len() ==> (#[trigger] r[i]).node_id != (#[trigger] r[j]).node_id,
        forall|i: int| 0 <= i < r.len() ==> (#[trigger] r[i]).node_id != target,
        forall|i: int| 0 <= i < r.len() ==> table.knows((#[trigger] r[i]).node_id),
{
    assert forall|i: int, j: int| 0 <= i <= j < r.len() implies distance_between(
        target,
        (#[trigger] r[i]).node_id,
    ) <= distance_between(target, (#[trigger] r[j]).node_id) by {
        if i < j {
            assert(distance_between(target, r[i].node_id) < distance_between(
                target,
                r[j].node_id,
            ));
        }
    }
    assert forall|i: int, j: int| 0 <= i < j < r.len() implies (#[trigger] r[i]).node_id != (
    #[trigger] r[j]).node_id by {
        assert(distance_between(target, r[i].node_id) < distance_between(target, r[j].node_id));
    }
    assert forall|i: int| 0 <= i < r.len() implies table.knows((#[trigger] r[i]).node_id) by {
        assert(eligible(table, target, r[i]));
        lemma_has_peer(table, r[i]);
        let b = bucket_of(table.local_node_id, r[i].node_id) as int;
        let k = choose|k: int| 0 <= k < table.buckets[b].len() && table.buckets[b][k] == r[i];
        assert(table.buckets[b][k].node_id == r[i].node_id);
        assert(holds_id(table.buckets[b], r[i].node_id));
    }
}

proof fn lemma_nearest_first_no_duplicates(target: Seq<char>, r: Seq<PeerView>)
    requires
        forall|i: int, j: int|
            0 <= i < j < r.len() ==> distance_between(target, (#[trigger] r[i]).node_id)
                < distance_between(target, (#[trigger] r[j]).node_id),
    ensures
        r.no_duplicates(),
{
    assert forall|i: int, j: int| 0 <= i < r.len() && 0 <= j < r.len() && i != j implies r[i]
        != r[j] by {
        if i < j {
            assert(distance_between(target, r[i].node_id) < distance_between(
                target,
                r[j].node_id,
            ));
        } else {
            assert(distance_between(target, r[j].node_id) < distance_between(
                target,
                r[i].node_id,
            ));
        }
    }
}

proof fn lemma_closest_covers(
    table: RoutingView,
    target: Seq<char>,
    count: int,
    r1: Seq<PeerView>,
    r2: Seq<PeerView>,
)
    requires
        is_closest(table, target, count, r1),
        is_closest(table, target, count, r2),
    ensures
        forall|i: int| 0 <= i < r1.len() ==> r2.contains(#[trigger] r1[i]),
{
    let local = table.local_node_id;
    lemma_nearest_first_no_duplicates(target, r1);
    lemma_nearest_first_no_duplicates(target, r2);
    assert forall|i: int| 0 <= i < r1.len() implies r2.contains(#[trigger] r1[i]) by {
        let p = r1[i];
        if !r2.contains(p) {
            assert(eligible(table, target, p));
            assert(r2.len() == count);
            if forall|j: int| 0 <= j < r2.len() ==> r1.contains(#[trigger] r2[j]) {
                r1.unique_seq_to_set();
                r2.unique_seq_to_set();
                vstd::seq_lib::seq_to_set_is_finite(r1);
                vstd::seq_lib::seq_to_set_is_finite(r2);
                assert forall|x: PeerView| r2.to_set().contains(x) implies r1.to_set().contains(
                    x,
                ) by {
                    let j = choose|j: int| 0 <= j < r2.len() && r2[j] == x;
                    assert(r1.contains(r2[j]));
                }
                assert(r2.to_set().subset_of(r1.to_set()));
                vstd::set_lib::lemma_len_subset(r2.to_set(), r1.to_set());
                vstd::set_lib::lemma_subset_equality(r2.to_set(), r1.to_set());
                assert(r1.contains(p));
                assert(r1.to_set().contains(p));
                assert(r2.to_set().contains(p));
            } else {
                let j = choose|j: int| 0 <= j < r2.len() && !r1.contains(#[trigger] r2[j]);
                let q = r2[j];
                assert(eligible(table, target, q));
                assert(preferred(local, target, r1[i], q));
                assert(preferred(local, target, r2[j], p));
            }
        }
    }
}

proof fn lemma_nearest_first_unique(target: Seq<char>, a: Seq<PeerView>, b: Seq<PeerView>)
    requires
        a.len() == b.len(),
        forall|i: int, j: int|
            0 <= i < j < a.len() ==> distance_between(target, (#[trigger] a[i]).node_id)
                < distance_between(target, (#[trigger] a[j]).node_id),
        forall|i: int, j: int|
            0 <= i < j < b.len() ==> distance_between(target, (#[trigger] b[i]).node_id)
                < distance_between(target, (#[trigger] b[j]).node_id),
        forall|i: int| 0 <= i < a.len() ==> b.contains(#[trigger] a[i]),
        forall|i: int| 0 <= i < b.len() ==> a.contains(#[trigger] b[i]),
    ensures
        a == b,
    decreases a.len(),
{
    if a.len() == 0 {
        assert(a =~= b);
    } else {
        assert(b.contains(a[0]));
        assert(a.contains(b[0]));
        let k = choose|k: int| 0 <= k < b.len() && b[k] == a[0];
        let m = choose|m: int| 0 <= m < a.len() && a[m] == b[0];
        if k != 0 {
            assert(distance_between(target, b[0].node_id) < distance_between(
                target,
                b[k].node_id,
            ));
            if m != 0 {
                assert(distance_between(target, a[0].node_id) < distance_between(
                    target,
                    a[m].node_id,
                ));
            }
        }
        assert(a[0] == b[0]);
        let a1 = a.drop_first();
        let b1 = b.drop_first();
        assert forall|i: int| 0 <= i < a1.len() implies b1.contains(#[trigger] a1[i]) by {
            assert(a1[i] == a[i + 1]);
            assert(b.contains(a[i + 1]));
            let j = choose|j: int| 0 <= j < b.len() && b[j] == a[i + 1];
            if j == 0 {
                assert(distance_between(target, a[0].node_id) < distance_between(
                    target,
                    a[i + 1].node_id,
                ));
            }
            assert(b1[j - 1] == a1[i]);
        }
        assert forall|i: int| 0 <= i < b1.len() implies a1.contains(#[trigger] b1[i]) by {
            assert(b1[i] == b[i + 1]);
            assert(a.contains(b[i + 1]));
            let j = choose|j: int| 0 <= j < a.len() && a[j] == b[i + 1];
            if j == 0 {
                assert(distance_between(target, b[0].node_id) < distance_between(
                    target,
                    b[i + 1].node_id,
                ));
            }
            assert(a1[j - 1] == b1[i]);
        }
        assert forall|i: int, j: int| 0 <= i < j < a1.len() implies distance_between(
            target,
            (#[trigger] a1[i]).node_id,
        ) < distance_between(target, (#[trigger] a1[j]).node_id) by {
            assert(a1[i] == a[i + 1] && a1[j] == a[j + 1]);
        }
        assert forall|i: int, j: int| 0 <= i < j < b1.len() implies distance_between(
            target,
            (#[trigger] b1[i]).node_id,
        ) < distance_between(target, (#[trigger] b1[j]).node_id) by {
            assert(b1[i] == b[i + 1] && b1[j] == b[j + 1]);
        }
        lemma_nearest_first_unique(target, a1, b1);
        assert forall|i: int| 0 <= i < a.len() implies a[i] == b[i] by {
            if i > 0 {
                assert(a[i] == a1[i - 1]);
                assert(b[i] == b1[i - 1]);
            }
        }
        assert(a =~= b);
    }
}

/// A lookup has one result: two lists that are what a lookup of `target`
/// for `count` peers gives are the same list.
pub proof fn lemma_closest_is_unique(
    table: RoutingView,
    target: Seq<char>,
    count: int,
    r1: Seq<PeerView>,
    r2: Seq<PeerView>,
)
    requires
        is_closest(table, target, count, r1),
        is_closest(table, target, count, r2),
    ensures
        r1 == r2,
{
    lemma_closest_covers(table, target, count, r1, r2);
    lemma_closest_covers(table, target, count, r2, r1);
    lemma_nearest_first_no_duplicates(target, r1);
    lemma_nearest_first_no_duplicates(target, r2);
    r1.unique_seq_to_set();
    r2.unique_seq_to_set();
    assert(r1.to_set() =~= r2.to_set()) by {
        assert forall|x: PeerView| r1.to_set().contains(x) <==> r2.to_set().contains(x) by {
            if r1.contains(x) {
                let i = choose|i: int| 0 <= i < r1.len() && r1[i] == x;
                assert(r2.contains(r1[i]));
            }
            if r2.contains(x) {
                let i = choose|i: int| 0 <= i < r2.len() && r2[i] == x;
                assert(r1.contains(r2[i]));
            }
        }
    }
    lemma_nearest_first_unique(target, r1, r2);
}

/// A peer of a routing table is in the bucket that its identifier names.
proof fn lemma_has_peer(table: RoutingView, p: PeerView)
    requires
        table.wf(),
        table.has_peer(p),
    ensures
        is_node_id(p.node_id),
        0 <= bucket_of(table.local_node_id, p.node_id) < 160,
        table.buckets[bucket_of(table.local_node_id, p.node_id) as int].contains(p),
{
    let (b, k) = choose|b: int, k: int|
        0 <= b < table.buckets.len() && 0 <= k < table.buckets[b].len()
            && #[trigger] table.buckets[b][k] == p;
    lemma_peer_is_in_its_bucket(table, b, k);
    assert(peer_fits(table.local_node_id, b, table.buckets[b][k]));
    assert(table.buckets[b][k] == p);
}

/// Two peers of a routing table with one identifier are the same peer.
proof fn lemma_same_id_same_peer(table: RoutingView, p: PeerView, q: PeerView)
    requires
        table.wf(),
        table.has_peer(p),
        table.has_peer(q),
        p.node_id == q.node_id,
    ensures
        p == q,
{
    let (b1, k1) = choose|b: int, k: int|
        0 <= b < table.buckets.len() && 0 <= k < table.buckets[b].len()
            && #[trigger] table.buckets[b][k] == p;
    let (b2, k2) = choose|b: int, k: int|
        0 <= b < table.buckets.len() && 0 <= k < table.buckets[b].len()
            && #[trigger] table.buckets[b][k] == q;
    lemma_peer_ids_are_unique(table, b1, k1, b2, k2);
}

/// What one bucket gives to a pass of a lookup: its candidates, the most
/// recently seen first.
spec fn is_chunk(
    table: RoutingView,
    target: Seq<char>,
    seen: bool,
    bucket: int,
    c: Seq<PeerView>,
) -> bool {
    &&& sorted_by(PeerOrder::Recency, c)
    &&& distinct_ids(c)
    &&& forall|a: int|
        0 <= a < c.len() ==> table.buckets[bucket].contains(#[trigger] c[a]) && wanted(
            c[a],
            seen,
            target,
        )
    &&& forall|k: int|
        0 <= k < table.buckets[bucket].len() && wanted(
            #[trigger] table.buckets[bucket][k],
            seen,
            target,
        ) ==> c.contains(table.buckets[bucket][k])
}

/// Whether a pass that takes the peers that were seen, or those that never
/// were, takes `p` in a lookup of `target`.
spec fn wanted(p: PeerView, seen: bool, target: Seq<char>) -> bool {
    (p.last_seen is Some) == seen && p.node_id != target
}

/// The state of a pass of a lookup that has visited the buckets whose place
/// in the order of visits is below `step`.
spec fn pass_upto(
    table: RoutingView,
    target: Seq<char>,
    seen: bool,
    limit: int,
    step: int,
    r: Seq<PeerView>,
) -> bool {
    let local = table.local_node_id;
    let start = start_bucket(local, target);
    &&& r.len() <= limit
    &&& distinct_ids(r)
    &&& forall|i: int|
        0 <= i < r.len() ==> candidate(table, target, seen, #[trigger] r[i]) && visit_rank(
            start,
            bucket_of(local, r[i].node_id) as int,
        ) < step
    &&& forall|i: int, j: int|
        0 <= i < j < r.len() ==> preferred(local, target, #[trigger] r[i], #[trigger] r[j])
    &&& (r.len() == limit || forall|p: PeerView| #[trigger]
        candidate(table, target, seen, p) && visit_rank(
            start,
            bucket_of(local, p.node_id) as int,
        ) < step ==> r.contains(p))
    &&& forall|p: PeerView, i: int|
        #![trigger candidate(table, target, seen, p), r[i]]
        candidate(table, target, seen, p) && visit_rank(start, bucket_of(local, p.node_id) as int)
            < step && !r.contains(p) && 0 <= i < r.len() ==> preferred(local, target, r[i], p)
}

proof fn lemma_pass_skip(
    table: RoutingView,
    target: Seq<char>,
    seen: bool,
    limit: int,
    step: int,
    r: Seq<PeerView>,
)
    requires
        table.wf(),
        pass_upto(table, target, seen, limit, step, r),
        forall|b: int| 0 <= b < 160 ==> visit_rank(start_bucket(table.local_node_id, target), b)
            != step,
    ensures
        pass_upto(table, target, seen, limit, step + 1, r),
{
    let local = table.local_node_id;
    let start = start_bucket(local, target);
    assert forall|p: PeerView| #[trigger]
        candidate(table, target, seen, p) implies visit_rank(
        start,
        bucket_of(local, p.node_id) as int,
    ) != step by {
        lemma_has_peer(table, p);
    }
}

proof fn lemma_pass_step(
    table: RoutingView,
    target: Seq<char>,
    seen: bool,
    limit: int,
    step: int,
    bucket: int,
    r: Seq<PeerView>,
    c: Seq<PeerView>,
    taken: int,
)
    requires
        table.wf(),
        pass_upto(table, target, seen, limit, step, r),
        0 <= bucket < 160,
        visit_rank(start_bucket(table.local_node_id, target), bucket) == step,
        is_chunk(table, target, seen, bucket, c),
        0 <= taken <= c.len(),
        r.len() + taken <= limit,
        taken == c.len() || r.len() + taken == limit,
    ensures
        pass_upto(table, target, seen, limit, step + 1, r + c.subrange(0, taken)),
{
    let local = table.local_node_id;
    let start = start_bucket(local, target);
    let next = r + c.subrange(0, taken);
    // what the chunk holds are the candidates of this bucket
    assert forall|a: int| 0 <= a < c.len() implies candidate(table, target, seen, #[trigger] c[a])
        && bucket_of(local, c[a].node_id) == bucket by {
        assert(table.buckets[bucket].contains(c[a]));
        assert(wanted(c[a], seen, target));
        let k = choose|k: int| 0 <= k < table.buckets[bucket].len() && table.buckets[bucket][k]
            == c[a];
        assert(table.buckets[bucket][k] == c[a]);
        lemma_peer_is_in_its_bucket(table, bucket, k);
    }
    assert forall|p: PeerView| #[trigger]
        candidate(table, target, seen, p) && visit_rank(start, bucket_of(local, p.node_id) as int)
            == step implies c.contains(p) by {
        lemma_has_peer(table, p);
        assert(bucket_of(local, p.node_id) == bucket);
        assert(table.buckets[bucket].contains(p));
        let k = choose|k: int| 0 <= k < table.buckets[bucket].len() && table.buckets[bucket][k]
            == p;
        assert(wanted(table.buckets[bucket][k], seen, target));
    }
    assert forall|i: int| 0 <= i < next.len() implies candidate(
        table,
        target,
        seen,
        #[trigger] next[i],
    ) && visit_rank(start, bucket_of(local, next[i].node_id) as int) < step + 1 by {
        if i >= r.len() {
            assert(next[i] == c[i - r.len()]);
        } else {
            assert(next[i] == r[i]);
        }
    }
    assert forall|i: int, j: int| 0 <= i < j < next.len() implies preferred(
        local,
        target,
        #[trigger] next[i],
        #[trigger] next[j],
    ) && next[i].node_id != next[j].node_id by {
        if j < r.len() {
            assert(next[i] == r[i] && next[j] == r[j]);
        } else if i < r.len() {
            assert(next[i] == r[i] && next[j] == c[j - r.len()]);
            assert(bucket_of(local, next[i].node_id) != bucket_of(local, next[j].node_id));
        } else {
            assert(next[i] == c[i - r.len()] && next[j] == c[j - r.len()]);
            assert(PeerOrder::Recency.before(c[i - r.len()], c[j - r.len()]));
        }
    }
    assert(distinct_ids(next));
    assert forall|p: PeerView| r.contains(p) implies next.contains(p) by {
        let i = choose|i: int| 0 <= i < r.len() && r[i] == p;
        assert(next[i] == p);
    }
    assert forall|a: int| 0 <= a < taken implies next.contains(#[trigger] c[a]) by {
        assert(next[r.len() + a] == c[a]);
    }
    if next.len() != limit {
        assert(taken == c.len());
        assert forall|p: PeerView| #[trigger]
            candidate(table, target, seen, p) && visit_rank(
                start,
                bucket_of(local, p.node_id) as int,
            ) < step + 1 implies next.contains(p) by {
            if visit_rank(start, bucket_of(local, p.node_id) as int) == step {
                assert(c.contains(p));
                let a = choose|a: int| 0 <= a < c.len() && c[a] == p;
                assert(next.contains(c[a]));
            } else {
                assert(r.contains(p));
            }
        }
    }
    assert forall|p: PeerView, i: int|
        #![trigger candidate(table, target, seen, p), next[i]]
        candidate(table, target, seen, p) && visit_rank(start, bucket_of(local, p.node_id) as int)
            < step + 1 && !next.contains(p) && 0 <= i < next.len() implies preferred(
        local,
        target,
        next[i],
        p,
    ) by {
        let rank_p = visit_rank(start, bucket_of(local, p.node_id) as int);
        if rank_p < step {
            // an earlier bucket: the pass was full before this step
            assert(!r.contains(p));
            assert(r.len() == limit);
            assert(taken == 0);
            assert(next[i] == r[i]);
        } else {
            assert(c.contains(p));
            let a = choose|a: int| 0 <= a < c.len() && c[a] == p;
            if a < taken {
                assert(next.contains(c[a]));
            }
            if i < r.len() {
                assert(next[i] == r[i]);
            } else {
                assert(next[i] == c[i - r.len()]);
                assert(PeerOrder::Recency.before(c[i - r.len()], c[a]));
            }
        }
    }
}

proof fn lemma_pass_done(
    table: RoutingView,
    target: Seq<char>,
    seen: bool,
    limit: int,
    step: int,
    r: Seq<PeerView>,
)
    requires
        table.wf(),
        is_node_id(target),
        pass_upto(table, target, seen, limit, step, r),
        step == 320 || r.len() == limit,
    ensures
        is_pass(table, target, seen, limit, r),
{
    let local = table.local_node_id;
    let start = start_bucket(local, target);
    lemma_bucket_index_range(id_bytes(local), id_bytes(target));
    assert forall|p: PeerView| #[trigger] candidate(table, target, seen, p) implies 0 <= visit_rank(
        start,
        bucket_of(local, p.node_id) as int,
    ) < 320 by {
        lemma_has_peer(table, p);
    }
    assert forall|p: PeerView, i: int|
        #![trigger candidate(table, target, seen, p), r[i]]
        candidate(table, target, seen, p) && !r.contains(p) && 0 <= i < r.len() implies preferred(
        local,
        target,
        r[i],
        p,
    ) by {
        assert(candidate(table, target, seen, r[i]));
    }
}

/// Two passes, the first for the peers that were seen and the second for
/// the others, give together what a lookup selects.
proof fn lemma_two_passes(
    table: RoutingView,
    target: Seq<char>,
    count: int,
    first: Seq<PeerView>,
    second: Seq<PeerView>,
)
    requires
        table.wf(),
        is_node_id(target),
        is_pass(table, target, true, count, first),
        first.len() == count ==> second.len() == 0,
        first.len() < count ==> is_pass(table, target, false, count - first.len(), second),
    ensures
        distinct_ids(first + second),
        is_selection(table, target, count, first + second),
{
    let local = table.local_node_id;
    let all = first + second;
    assert forall|i: int| 0 <= i < all.len() implies eligible(table, target, #[trigger] all[i])
        && (all[i].last_seen is Some) == (i < first.len()) by {
        if i < first.len() {
            assert(all[i] == first[i]);
            assert(candidate(table, target, true, first[i]));
        } else {
            assert(all[i] == second[i - first.len()]);
            assert(candidate(table, target, false, second[i - first.len()]));
        }
    }
    assert forall|i: int, j: int| 0 <= i < j < all.len() implies (#[trigger] all[i]).node_id != (
    #[trigger] all[j]).node_id by {
        if j < first.len() {
            assert(all[i] == first[i] && all[j] == first[j]);
        } else if i >= first.len() {
            assert(all[i] == second[i - first.len()] && all[j] == second[j - first.len()]);
        } else {
            if all[i].node_id == all[j].node_id {
                lemma_same_id_same_peer(table, all[i], all[j]);
            }
        }
    }
    assert forall|i: int| 0 <= i < all.len() implies is_node_id((#[trigger] all[i]).node_id) by {
        lemma_has_peer(table, all[i]);
    }
    assert forall|p: PeerView| first.contains(p) implies all.contains(p) by {
        let i = choose|i: int| 0 <= i < first.len() && first[i] == p;
        assert(all[i] == p);
    }
    assert forall|p: PeerView| second.contains(p) implies all.contains(p) by {
        let i = choose|i: int| 0 <= i < second.len() && second[i] == p;
        assert(all[first.len() + i] == p);
    }
    if all.len() != count {
        assert forall|p: PeerView| #[trigger] eligible(table, target, p) implies all.contains(p) by {
            if p.last_seen is Some {
                assert(candidate(table, target, true, p));
                assert(first.contains(p));
            } else {
                assert(candidate(table, target, false, p));
                assert(second.contains(p));
            }
        }
    }
    assert forall|p: PeerView, i: int|
        #![trigger eligible(table, target, p), all[i]]
        eligible(table, target, p) && !all.contains(p) && 0 <= i < all.len() implies preferred(
        local,
        target,
        all[i],
        p,
    ) by {
        if p.last_seen is Some {
            assert(candidate(table, target, true, p));
            assert(!first.contains(p));
            if i < first.len() {
                assert(all[i] == first[i]);
            } else {
                // the first pass was not full, so it holds every peer that was seen
                assert(first.len() < count);
            }
        } else {
            assert(candidate(table, target, false, p));
            if i < first.len() {
                assert(all[i] == first[i]);
                assert(candidate(table, target, true, first[i]));
            } else {
                assert(all[i] == second[i - first.len()]);
                assert(!second.contains(p));
            }
        }
    }
}

/// Whether `r` holds the peers that a lookup of `target` for `count` peers
/// selects, in whatever order.
spec fn is_selection(table: RoutingView, target: Seq<char>, count: int, r: Seq<PeerView>) -> bool {
    &&& r.len() <= count
    &&& forall|i: int| 0 <= i < r.len() ==> eligible(table, target, #[trigger] r[i])
    &&& (r.len() == count || forall|p: PeerView| #[trigger]
        eligible(table, target, p) ==> r.contains(p))
    &&& forall|p: PeerView, i: int|
        #![trigger eligible(table, target, p), r[i]]
        eligible(table, target, p) && !r.contains(p) && 0 <= i < r.len() ==> preferred(
            table.local_node_id,
            target,
            r[i],
            p,
        )
}

proof fn lemma_selection_sorted(
    table: RoutingView,
    target: Seq<char>,
    target_bytes: [u8; 20],
    count: int,
    selected: Seq<PeerView>,
    sorted: Seq<PeerView>,
)
    requires
        is_selection(table, target, count, selected),
        same_peers(sorted, selected),
        sorted_by(PeerOrder::Distance(target_bytes), sorted),
        target_bytes@ == id_bytes(target),
    ensures
        is_closest(table, target, count, sorted),
{
    assert forall|i: int| 0 <= i < sorted.len() implies eligible(table, target, #[trigger] sorted[i]) by {
        assert(selected.contains(sorted[i]));
        let k = choose|k: int| 0 <= k < selected.len() && selected[k] == sorted[i];
        assert(eligible(table, target, selected[k]));
    }
    assert forall|i: int, j: int| 0 <= i < j < sorted.len() implies distance_between(
        target,
        (#[trigger] sorted[i]).node_id,
    ) < distance_between(target, (#[trigger] sorted[j]).node_id) by {
        assert(PeerOrder::Distance(target_bytes).before(sorted[i], sorted[j]));
    }
    if sorted.len() != count {
        assert forall|p: PeerView| #[trigger] eligible(table, target, p) implies sorted.contains(
            p,
        ) by {
            assert(selected.contains(p));
            let k = choose|k: int| 0 <= k < selected.len() && selected[k] == p;
            assert(sorted.contains(selected[k]));
        }
    }
    assert forall|p: PeerView, i: int|
        #![trigger eligible(table, target, p), sorted[i]]
        eligible(table, target, p) && !sorted.contains(p) && 0 <= i < sorted.len() implies preferred(
        table.local_node_id,
        target,
        sorted[i],
        p,
    ) by {
        assert(selected.contains(sorted[i]));
        let k = choose|k: int| 0 <= k < selected.len() && selected[k] == sorted[i];
        if selected.contains(p) {
            let l = choose|l: int| 0 <= l < selected.len() && selected[l] == p;
            assert(sorted.contains(selected[l]));
        }
        assert(preferred(table.local_node_id, target, selected[k], p));
    }
}

proof fn lemma_sorted_chunk(
    table: RoutingView,
    target: Seq<char>,
    seen: bool,
    bucket: int,
    picks: Seq<PeerView>,
    c: Seq<PeerView>,
)
    requires
        0 <= bucket < table.buckets.len(),
        sorted_by(PeerOrder::Recency, c),
        distinct_ids(c),
        same_peers(c, picks),
        forall|j: int|
            0 <= j < picks.len() ==> table.buckets[bucket].contains(#[trigger] picks[j]) && wanted(
                picks[j],
                seen,
                target,
            ),
        forall|k: int|
            0 <= k < table.buckets[bucket].len() && wanted(
                #[trigger] table.buckets[bucket][k],
                seen,
                target,
            ) ==> picks.contains(table.buckets[bucket][k]),
    ensures
        is_chunk(table, target, seen, bucket, c),
{
    assert forall|a: int| 0 <= a < c.len() implies table.buckets[bucket].contains(#[trigger] c[a])
        && wanted(c[a], seen, target) by {
        assert(picks.contains(c[a]));
        let j = choose|j: int| 0 <= j < picks.len() && picks[j] == c[a];
        assert(table.buckets[bucket].contains(picks[j]));
    }
    assert forall|k: int|
        0 <= k < table.buckets[bucket].len() && wanted(
            #[trigger] table.buckets[bucket][k],
            seen,
            target,
        ) implies c.contains(table.buckets[bucket][k]) by {
        assert(picks.contains(table.buckets[bucket][k]));
        let j = choose|j: int| 0 <= j < picks.len() && picks[j] == table.buckets[bucket][k];
        assert(c.contains(picks[j]));
    }
}

/// Appends the first peers of `chunk` to `peers`, until it holds `limit`.
fn take_up_to(peers: &mut Vec<Peer>, chunk: &Vec<Peer>, limit: usize) -> (taken: usize)
    requires
        old(peers)@.len() <= limit,
    ensures
        taken <= chunk@.len(),
        old(peers)@.len() + taken <= limit,
        taken == chunk@.len() || old(peers)@.len() + taken == limit,
        peer_views(final(peers)@) == peer_views(old(peers)@) + peer_views(chunk@).subrange(
            0,
            taken as int,
        ),
{
    let ghost start = peer_views(peers@);
    let mut a: usize = 0;
    assert(peer_views(chunk@).subrange(0, 0) =~= Seq::empty());
    assert(start + Seq::empty() =~= start);
    while a < chunk.len() && peers.len() < limit
        invariant
            a <= chunk@.len(),
            peers@.len() == start.len() + a,
            peers@.len() <= limit,
            peer_views(peers@) == start + peer_views(chunk@).subrange(0, a as int),
        decreases chunk@.len() - a,
    {
        let ghost before = peers@;
        peers.push(chunk[a].clone());
        assert(peer_views(peers@) =~= peer_views(before).push(chunk@[a as int]@));
        assert(peer_views(chunk@).subrange(0, a + 1) =~= peer_views(chunk@).subrange(
            0,
            a as int,
        ).push(chunk@[a as int]@));
        assert(peer_views(peers@) =~= start + peer_views(chunk@).subrange(0, a + 1));
        a = a + 1;
    }
    a
}

impl PeerManager {
    /// The candidates that bucket `bucket` gives to a pass of a lookup of
    /// `target_node_id`: its peers that were seen, or those that never were,
    /// without the target, the most recently seen first.
    fn find_peers_at_offset(&self, target_node_id: &str, bucket: usize, seen: bool) -> (peers: Vec<
        Peer,
    >)
        requires
            bucket < 160,
        ensures
            is_chunk(self@, target_node_id@, seen, bucket as int, peer_views(peers@)),
    {
        proof {
            use_type_invariant(self);
        }
        let ghost table = self@;
        let ghost local = table.local_node_id;
        let source = &self.buckets[bucket];
        let ghost views = peer_views(source@);
        assert(views == table.buckets[bucket as int]);
        assert(bucket_ok(local, bucket as int, views));
        let mut picked: Vec<Peer> = Vec::new();
        let ghost mut origin: Seq<int> = Seq::empty();
        let mut k: usize = 0;
        while k < source.len()
            invariant
                k <= source@.len(),
                views == peer_views(source@),
                bucket_ok(local, bucket as int, views),
                distinct_ids(peer_views(picked@)),
                origin.len() == picked@.len(),
                forall|j: int|
                    0 <= j < picked@.len() ==> 0 <= #[trigger] origin[j] < k && views[origin[j]]
                        == peer_views(picked@)[j] && (views[origin[j]].last_seen is Some) == seen
                        && views[origin[j]].node_id != target_node_id@,
                forall|i: int|
                    0 <= i < k && ((#[trigger] views[i]).last_seen is Some) == seen
                        && views[i].node_id != target_node_id@ ==> peer_views(picked@).contains(
                        views[i],
                    ),
            decreases source@.len() - k,
        {
            let peer = &source[k];
            assert(views[k as int] == peer@);
            assert(peer_fits(local, bucket as int, views[k as int]));
            if peer.last_seen.is_some() == seen && !same_text(
                peer.node_id.as_str(),
                target_node_id,
            ) {
                let ghost before = peer_views(picked@);
                let ghost origin_before = origin;
                picked.push(peer.clone());
                proof {
                    origin = origin.push(k as int);
                    let after = peer_views(picked@);
                    assert(after =~= before.push(peer@));
                    assert forall|j: int| 0 <= j < before.len() implies (#[trigger] before[j]).node_id
                        != peer@.node_id by {
                        let i = origin_before[j];
                        assert(views[i].node_id != views[k as int].node_id);
                    }
                    assert forall|j: int| 0 <= j < after.len() implies 0 <= #[trigger] origin[j] < k
                        + 1 && views[origin[j]] == after[j] && (views[origin[j]].last_seen is Some)
                        == seen && views[origin[j]].node_id != target_node_id@ by {
                        if j < before.len() {
                            assert(origin[j] == origin_before[j]);
                            assert(after[j] == before[j]);
                        }
                    }
                    assert forall|i: int|
                        0 <= i < k + 1 && ((#[trigger] views[i]).last_seen is Some) == seen
                            && views[i].node_id != target_node_id@ implies after.contains(
                        views[i],
                    ) by {
                        if i < k {
                            let j = choose|j: int| 0 <= j < before.len() && before[j] == views[i];
                            assert(after[j] == views[i]);
                        } else {
                            assert(after[before.len() as int] == views[i]);
                        }
                    }
                }
            }
            k = k + 1;
        }
        proof {
            let picks = peer_views(picked@);
            assert forall|j: int| 0 <= j < picks.len() implies views.contains(#[trigger] picks[j])
                && wanted(picks[j], seen, target_node_id@) by {
                let i = origin[j];
                assert(views[i] == picks[j]);
            }
            assert forall|i: int|
                0 <= i < views.len() && wanted(
                    #[trigger] views[i],
                    seen,
                    target_node_id@,
                ) implies picks.contains(views[i]) by {}
        }
        let sorted = sort_peers(&picked, &PeerOrder::Recency);
        proof {
            lemma_sorted_chunk(
                table,
                target_node_id@,
                seen,
                bucket as int,
                peer_views(picked@),
                peer_views(sorted@),
            );
        }
        sorted
    }

    /// One pass of a lookup of `target_node_id`: the first `limit` peers, of
    /// those that were seen or of those that never were, in the order in which
    /// the buckets are visited and each bucket gives its peers.
    pub fn find_nearby_peers(&self, target_node_id: &str, seen: bool, limit: usize) -> (r: Result<
        Vec<Peer>,
        Error,
    >)
        ensures
            self@.wf(),
            match r {
                Ok(peers) => is_node_id(target_node_id@) && is_pass(
                    self@,
                    target_node_id@,
                    seen,
                    limit as int,
                    peer_views(peers@),
                ),
                Err(e) => e == Error::InvalidId && !is_node_id(target_node_id@),
            },
    {
        proof {
            use_type_invariant(self);
        }
        let ghost table = self@;
        let ghost local = table.local_node_id;
        let ghost target = target_node_id@;
        let target_bytes = match sha1_to_bytes(target_node_id) {
            Ok(bytes) => bytes,
            Err(_) => {
                return Err(Error::InvalidId);
            },
        };
        proof {
            lemma_bucket_index_range(self.local_bytes@, target_bytes@);
        }
        let start: usize = match bucket_index(&self.local_bytes, &target_bytes) {
            Ok(b) => b,
            Err(_) => 159,
        };
        assert(start == start_bucket(local, target));
        let mut peers: Vec<Peer> = Vec::new();
        let mut step: usize = 0;
        assert(peer_views(peers@) =~= Seq::empty());
        while step < 320 && peers.len() < limit
            invariant
                step <= 320,
                start < 160,
                table == self@,
                table.wf(),
                local == table.local_node_id,
                target == target_node_id@,
                is_node_id(target),
                start == start_bucket(local, target),
                pass_upto(table, target, seen, limit as int, step as int, peer_views(peers@)),
            decreases 320 - step,
        {
            let distance = (step + 1) / 2;
            let bucket: Option<usize> = if step % 2 == 1 {
                if distance <= start {
                    Some(start - distance)
                } else {
                    None
                }
            } else {
                if start + distance < 160 {
                    Some(start + distance)
                } else {
                    None
                }
            };
            match bucket {
                Some(b) => {
                    assert(visit_rank(start as int, b as int) == step);
                    let chunk = self.find_peers_at_offset(target_node_id, b, seen);
                    let ghost before = peer_views(peers@);
                    let taken = take_up_to(&mut peers, &chunk, limit);
                    proof {
                        lemma_pass_step(
                            table,
                            target,
                            seen,
                            limit as int,
                            step as int,
                            b as int,
                            before,
                            peer_views(chunk@),
                            taken as int,
                        );
                    }
                },
                None => {
                    proof {
                        assert forall|b: int| 0 <= b < 160 implies visit_rank(start as int, b)
                            != step by {}
                        lemma_pass_skip(
                            table,
                            target,
                            seen,
                            limit as int,
                            step as int,
                            peer_views(peers@),
                        );
                    }
                },
            }
            step = step + 1;
        }
        proof {
            lemma_pass_done(table, target, seen, limit as int, step as int, peer_views(peers@));
        }
        Ok(peers)
    }

    /// The up to `count` peers that a lookup of `target_node_id` names,
    /// nearest to the target first.
    ///
    /// The peers are taken in two passes, first those that were seen and
    /// then, while fewer than `count` are found, those that never were.
    /// Each pass visits the bucket of the target, then the buckets one below
    /// and one above, two below and two above, and so on; a bucket gives its
    /// peers from the most recently seen on. The target itself is left out.
    /// Fails with `InvalidId` where the target is not an identifier.
    pub fn find_closest(&self, target_node_id: &str, count: usize) -> (r: Result<Vec<Peer>, Error>)
        ensures
            self@.wf(),
            match r {
                Ok(peers) => is_node_id(target_node_id@) && is_closest(
                    self@,
                    target_node_id@,
                    count as int,
                    peer_views(peers@),
                ),
                Err(e) => e == Error::InvalidId && !is_node_id(target_node_id@),
            },
    {
        proof {
            use_type_invariant(self);
        }
        let target_bytes = match sha1_to_bytes(target_node_id) {
            Ok(bytes) => bytes,
            Err(_) => {
                return Err(Error::InvalidId);
            },
        };
        let mut selected = match self.find_nearby_peers(target_node_id, true, count) {
            Ok(peers) => peers,
            Err(e) => {
                return Err(e);
            },
        };
        let ghost first = peer_views(selected@);
        let ghost mut second = Seq::<PeerView>::empty();
        if selected.len() < count {
            let unseen = match self.find_nearby_peers(
                target_node_id,
                false,
                count - selected.len(),
            ) {
                Ok(peers) => peers,
                Err(e) => {
                    return Err(e);
                },
            };
            proof {
                second = peer_views(unseen@);
            }
            let taken = take_up_to(&mut selected, &unseen, count);
            assert(second.subrange(0, taken as int) =~= second);
        } else {
            assert(first + second =~= first);
        }
        proof {
            lemma_two_passes(self@, target_node_id@, count as int, first, second);
        }
        let order = PeerOrder::Distance(target_bytes);
        let sorted = sort_peers(&selected, &order);
        proof {
            lemma_selection_sorted(
                self@,
                target_node_id@,
                target_bytes,
                count as int,
                peer_views(selected@),
                peer_views(sorted@),
            );
        }
        Ok(sorted)
    }

    /// The up to 20 peers that a lookup of `target_node_id` names, nearest
    /// to the target first: [`PeerManager::find_closest`] for 20 peers.
    pub fn nearby_peers(&self, target_node_id: &str) -> (r: Result<Vec<Peer>, Error>)
        ensures
            self@.wf(),
            match r {
                Ok(peers) => is_node_id(target_node_id@) && is_closest(
                    self@,
                    target_node_id@,
                    FIND_PEER_COUNT as int,
                    peer_views(peers@),
                ),
                Err(e) => e == Error::InvalidId && !is_node_id(target_node_id@),
            },
    {
        self.find_closest(target_node_id, FIND_PEER_COUNT)
    }
}

} // verus!
