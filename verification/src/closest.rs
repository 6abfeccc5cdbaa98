//! The orders in which a lookup ranks peers, and sorting by them.

use crate::structures::{peer_views, Peer, PeerView};
use crate::utilities::{
    bucket_of, distance_value, id_below, id_bytes, id_bytes_of, id_value, is_closer, is_node_id,
    lemma_distance_separates, lemma_id_bytes_injective, lemma_value_injective, xor_distance,
};
use vstd::prelude::*;

verus! {

/// The place of a time of last contact among all such times: the more
/// recent, the lower; never seen comes last.
pub open spec fn recency_rank(last_seen: Option<u64>) -> int {
    match last_seen {
        Some(t) => u64::MAX - t,
        None => u64::MAX + 1,
    }
}

/// Whether `p` goes before `q` among the peers of one bucket: the more
/// recently seen first, and of two seen at the same time the one with the
/// smaller identifier.
pub open spec fn fresher(p: PeerView, q: PeerView) -> bool {
    ||| recency_rank(p.last_seen) < recency_rank(q.last_seen)
    ||| (recency_rank(p.last_seen) == recency_rank(q.last_seen) && id_value(p.node_id) < id_value(
        q.node_id,
    ))
}

/// The place of bucket `bucket` in the order in which a lookup that starts
/// at bucket `start` visits the buckets: `start`, then one below, one above,
/// two below, two above, and so on.
pub open spec fn visit_rank(start: int, bucket: int) -> int {
    if bucket == start {
        0
    } else if bucket < start {
        2 * (start - bucket) - 1
    } else {
        2 * (bucket - start)
    }
}

/// The bucket at which a lookup of `target` in the table of `local` starts:
/// the bucket of the target, and the last bucket where the target is the
/// local identifier.
pub open spec fn start_bucket(local: Seq<char>, target: Seq<char>) -> int {
    if bucket_of(local, target) >= 160 {
        159
    } else {
        bucket_of(local, target) as int
    }
}

/// Whether a lookup of `target` in the table of `local` takes `p` before `q`:
/// a peer that was seen before one that never was, then by the order in which
/// their buckets are visited, then as [`fresher`] says.
pub open spec fn preferred(local: Seq<char>, target: Seq<char>, p: PeerView, q: PeerView) -> bool {
    let start = start_bucket(local, target);
    let rank_p = visit_rank(start, bucket_of(local, p.node_id) as int);
    let rank_q = visit_rank(start, bucket_of(local, q.node_id) as int);
    if (p.last_seen is Some) != (q.last_seen is Some) {
        p.last_seen is Some
    } else {
        rank_p < rank_q || (rank_p == rank_q && fresher(p, q))
    }
}

/// An order on peers.
pub enum PeerOrder {
    /// The more recently seen first, then the smaller identifier: [`fresher`].
    Recency,
    /// The smaller XOR distance to these identifier bytes first.
    Distance([u8; 20]),
}

impl PeerOrder {
    /// Whether `p` goes before `q` in this order.
    pub open spec fn before(self, p: PeerView, q: PeerView) -> bool {
        match self {
            PeerOrder::Recency => fresher(p, q),
            PeerOrder::Distance(target) => distance_value(
                xor_distance(target@, id_bytes(p.node_id)),
            ) < distance_value(xor_distance(target@, id_bytes(q.node_id))),
        }
    }

    /// Whether `p` goes before `q` in this order.
    pub(crate) fn is_before(&self, p: &Peer, q: &Peer) -> (r: bool)
        requires
            is_node_id(p@.node_id),
            is_node_id(q@.node_id),
        ensures
            r == self.before(p@, q@),
    {
        let p_bytes = id_bytes_of(p.node_id.as_str());
        let q_bytes = id_bytes_of(q.node_id.as_str());
        match self {
            PeerOrder::Recency => {
                let p_rank: u128 = match p.last_seen {
                    Some(t) => (u64::MAX - t) as u128,
                    None => u64::MAX as u128 + 1,
                };
                let q_rank: u128 = match q.last_seen {
                    Some(t) => (u64::MAX - t) as u128,
                    None => u64::MAX as u128 + 1,
                };
                p_rank < q_rank || (p_rank == q_rank && id_below(&p_bytes, &q_bytes))
            },
            PeerOrder::Distance(target) => is_closer(target, &p_bytes, &q_bytes),
        }
    }

    /// Of two peers with different identifiers one goes before the other,
    /// never both; and the order is transitive.
    pub proof fn lemma_strict_total(self, p: PeerView, q: PeerView, r: PeerView)
        requires
            is_node_id(p.node_id),
            is_node_id(q.node_id),
        ensures
            p.node_id != q.node_id ==> self.before(p, q) || self.before(q, p),
            !(self.before(p, q) && self.before(q, p)),
            self.before(p, q) && self.before(q, r) ==> self.before(p, r),
    {
        if p.node_id != q.node_id {
            if id_bytes(p.node_id) == id_bytes(q.node_id) {
                lemma_id_bytes_injective(p.node_id, q.node_id);
            }
            match self {
                PeerOrder::Recency => {
                    if id_value(p.node_id) == id_value(q.node_id) {
                        lemma_value_injective(id_bytes(p.node_id), id_bytes(q.node_id));
                    }
                },
                PeerOrder::Distance(target) => {
                    lemma_distance_separates(target@, id_bytes(p.node_id), id_bytes(q.node_id));
                },
            }
        }
    }
}

/// Whether each peer of `s` goes before all that follow it.
pub open spec fn sorted_by(order: PeerOrder, s: Seq<PeerView>) -> bool {
    forall|i: int, j: int| 0 <= i < j < s.len() ==> order.before(#[trigger] s[i], #[trigger] s[j])
}

/// Whether `a` and `b` hold the same peers, each as often as the other
/// where neither holds one twice.
pub open spec fn same_peers(a: Seq<PeerView>, b: Seq<PeerView>) -> bool {
    &&& a.len() == b.len()
    &&& forall|i: int| 0 <= i < a.len() ==> b.contains(#[trigger] a[i])
    &&& forall|i: int| 0 <= i < b.len() ==> a.contains(#[trigger] b[i])
}

/// Whether every peer of `s` has an identifier, and no two the same.
pub open spec fn distinct_ids(s: Seq<PeerView>) -> bool {
    &&& forall|i: int| 0 <= i < s.len() ==> is_node_id((#[trigger] s[i]).node_id)
    &&& forall|i: int, j: int|
        0 <= i < j < s.len() ==> (#[trigger] s[i]).node_id != (#[trigger] s[j]).node_id
}

proof fn lemma_insert(
    order: PeerOrder,
    s: Seq<PeerView>,
    at: int,
    x: PeerView,
)
    requires
        sorted_by(order, s),
        distinct_ids(s),
        is_node_id(x.node_id),
        forall|j: int| 0 <= j < s.len() ==> (#[trigger] s[j]).node_id != x.node_id,
        0 <= at <= s.len(),
        forall|j: int| 0 <= j < at ==> !order.before(x, #[trigger] s[j]),
        at < s.len() ==> order.before(x, s[at]),
    ensures
        sorted_by(order, s.insert(at, x)),
        distinct_ids(s.insert(at, x)),
        s.insert(at, x).contains(x),
        forall|j: int| 0 <= j < s.len() ==> s.insert(at, x).contains(#[trigger] s[j]),
        forall|j: int|
            0 <= j < s.insert(at, x).len() ==> (#[trigger] s.insert(at, x)[j]) == x || s.contains(
                s.insert(at, x)[j],
            ),
{
    let t = s.insert(at, x);
    assert(t.len() == s.len() + 1);
    assert(t[at] == x);
    assert forall|j: int| 0 <= j < t.len() && j != at implies #[trigger] t[j] == s[if j < at {
        j
    } else {
        j - 1
    }] by {}
    assert forall|i: int, j: int| 0 <= i < j < t.len() implies order.before(
        #[trigger] t[i],
        #[trigger] t[j],
    ) by {
        if j == at {
            order.lemma_strict_total(s[i], x, x);
            assert(!order.before(x, s[i]));
        } else if i == at {
            if j - 1 > at {
                order.lemma_strict_total(x, s[at], s[j - 1]);
                assert(order.before(s[at], s[j - 1]));
            }
        } else {
            let ii = if i < at {
                i
            } else {
                i - 1
            };
            let jj = if j < at {
                j
            } else {
                j - 1
            };
            assert(order.before(s[ii], s[jj]));
        }
    }
    assert forall|i: int, j: int| 0 <= i < j < t.len() implies (#[trigger] t[i]).node_id != (
    #[trigger] t[j]).node_id by {
        if i != at && j != at {
            let ii = if i < at {
                i
            } else {
                i - 1
            };
            let jj = if j < at {
                j
            } else {
                j - 1
            };
            assert(s[ii].node_id != s[jj].node_id);
        }
    }
    assert forall|j: int| 0 <= j < s.len() implies t.contains(#[trigger] s[j]) by {
        let jj = if j < at {
            j
        } else {
            j + 1
        };
        assert(t[jj] == s[j]);
    }
    assert forall|j: int| 0 <= j < t.len() implies (#[trigger] t[j]) == x || s.contains(t[j]) by {
        if j != at {
            let jj = if j < at {
                j
            } else {
                j - 1
            };
            assert(s[jj] == t[j]);
        }
    }
}

/// The peers of `peers` in the order `order`.
pub(crate) fn sort_peers(peers: &Vec<Peer>, order: &PeerOrder) -> (sorted: Vec<Peer>)
    requires
        distinct_ids(peer_views(peers@)),
    ensures
        sorted_by(*order, peer_views(sorted@)),
        same_peers(peer_views(sorted@), peer_views(peers@)),
        distinct_ids(peer_views(sorted@)),
{
    let ghost input = peer_views(peers@);
    let mut sorted: Vec<Peer> = Vec::new();
    let mut i: usize = 0;
    while i < peers.len()
        invariant
            i <= peers@.len(),
            input == peer_views(peers@),
            distinct_ids(input),
            sorted@.len() == i,
            sorted_by(*order, peer_views(sorted@)),
            distinct_ids(peer_views(sorted@)),
            forall|k: int| 0 <= k < i ==> peer_views(sorted@).contains(#[trigger] input[k]),
            forall|j: int|
                0 <= j < i ==> exists|k: int|
                    0 <= k < i && input[k] == #[trigger] peer_views(sorted@)[j],
        decreases peers@.len() - i,
    {
        let item = peers[i].clone();
        let ghost x = input[i as int];
        let ghost s = peer_views(sorted@);
        assert(item@ == x);
        assert forall|j: int| 0 <= j < s.len() implies (#[trigger] s[j]).node_id != x.node_id by {
            let k = choose|k: int| 0 <= k < i && input[k] == s[j];
            assert(input[k].node_id != input[i as int].node_id);
        }
        assert forall|j: int| 0 <= j < sorted@.len() implies is_node_id(
            (#[trigger] sorted@[j])@.node_id,
        ) by {
            assert(s[j] == sorted@[j]@);
        }
        let mut at: usize = 0;
        while at < sorted.len() && !order.is_before(&item, &sorted[at])
            invariant
                at <= sorted@.len(),
                forall|j: int| 0 <= j < sorted@.len() ==> is_node_id((#[trigger] sorted@[j])@.node_id),
                s == peer_views(sorted@),
                item@ == x,
                is_node_id(x.node_id),
                distinct_ids(s),
                forall|j: int| 0 <= j < at ==> !order.before(x, #[trigger] s[j]),
            decreases sorted@.len() - at,
        {
            at = at + 1;
        }
        proof {
            lemma_insert(*order, s, at as int, x);
        }
        sorted.insert(at, item);
        proof {
            let t = s.insert(at as int, x);
            assert(peer_views(sorted@) =~= t);
            assert forall|k: int| 0 <= k < i + 1 implies t.contains(#[trigger] input[k]) by {
                if k < i {
                    assert(s.contains(input[k]));
                    let j = choose|j: int| 0 <= j < s.len() && s[j] == input[k];
                    assert(t.contains(s[j]));
                }
            }
            assert forall|j: int| 0 <= j < i + 1 implies exists|k: int|
                0 <= k < i + 1 && input[k] == #[trigger] t[j] by {
                if t[j] == x {
                    assert(input[i as int] == t[j]);
                } else {
                    assert(s.contains(t[j]));
                    let jj = choose|jj: int| 0 <= jj < s.len() && s[jj] == t[j];
                    let k = choose|k: int| 0 <= k < i && input[k] == s[jj];
                    assert(input[k] == t[j]);
                }
            }
        }
        i = i + 1;
    }
    proof {
        let s = peer_views(sorted@);
        assert forall|j: int| 0 <= j < s.len() implies input.contains(#[trigger] s[j]) by {
            let k = choose|k: int| 0 <= k < i && input[k] == s[j];
            assert(input[k] == s[j]);
        }
    }
    sorted
}

} // verus!
