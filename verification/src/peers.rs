//! The peer table: known peers, their addresses, liveness, and the
//! status hash that heartbeats compare.
//!
//! A peer enters the table on its first successful ping, survives up to
//! `MAX_FAILED_PINGS` consecutive failures (the last of which marks it
//! down), and is removed by the failure after that.

use vstd::prelude::*;

use crate::codec::enc_u64;
use crate::data::{bytes_lt, fb32_cmp, fb32_eq, lemma_bytes_lt_transitive, lemma_bytes_lt_trichotomy, Cmp, HashVal, NodeAddr, Uuid};
use crate::digest::{sha256, sha256_of};
use crate::MAX_FAILED_PINGS;

verus! {

/// One known peer: address, liveness, when it last answered (a
/// millisecond timestamp), and how many consecutive ping failures it has
/// left before eviction.
#[derive(Clone, Debug, PartialEq, Eq)]
pub struct PeerEntry {
    pub id: Uuid,
    pub addr: NodeAddr,
    pub is_up: bool,
    pub last_seen: Option<u64>,
    pub remaining_ping_attempts: u64,
}

/// Mathematical image of a peer entry.
#[verifier::ext_equal]
pub ghost struct PeerV {
    pub id: Seq<u8>,
    pub addr: crate::data::AddrV,
    pub is_up: bool,
    pub last_seen: Option<u64>,
    pub remaining_ping_attempts: u64,
}

impl View for PeerEntry {
    type V = PeerV;

    open spec fn view(&self) -> PeerV {
        PeerV {
            id: self.id@,
            addr: self.addr@,
            is_up: self.is_up,
            last_seen: self.last_seen,
            remaining_ping_attempts: self.remaining_ping_attempts,
        }
    }
}

/// The views of a peer vector.
pub open spec fn peers_v(s: Seq<PeerEntry>) -> Seq<PeerV> {
    s.map_values(|e: PeerEntry| e@)
}

/// The peer table, sorted by peer identifier, with the Sha-256 of its
/// canonical encoding (the status hash that heartbeats carry).
#[derive(Clone, Debug)]
pub struct Status {
    pub nodes: Vec<PeerEntry>,
    pub hash: HashVal,
}

/// Mathematical image of the peer table.
#[verifier::ext_equal]
pub ghost struct StatusV {
    pub nodes: Seq<PeerV>,
    pub hash: Seq<u8>,
}

impl View for Status {
    type V = StatusV;

    open spec fn view(&self) -> StatusV {
        StatusV { nodes: peers_v(self.nodes@), hash: self.hash@ }
    }
}

/// Strictly sorted by peer identifier.
pub open spec fn peers_sorted(s: Seq<PeerV>) -> bool {
    forall|i: int, j: int|
        0 <= i < j < s.len() ==> bytes_lt(#[trigger] s[i].id, #[trigger] s[j].id)
}

/// The canonical encoding of a peer's identity line: its identifier and
/// address. Liveness and counters are local knowledge and stay out of
/// the status hash.
pub open spec fn enc_peer(e: PeerV) -> Seq<u8> {
    e.id + crate::data::enc_addr(e.addr)
}

/// The canonical encoding of the peer table.
pub open spec fn enc_peers(s: Seq<PeerV>) -> Seq<u8>
    decreases s.len(),
{
    if s.len() == 0 {
        Seq::empty()
    } else {
        enc_peer(s[0]) + enc_peers(s.drop_first())
    }
}

/// The status hash of a peer table.
pub open spec fn status_hash_v(s: Seq<PeerV>) -> Seq<u8> {
    sha256_of(enc_u64(s.len() as u64) + enc_peers(s))
}

/// Well-formedness: sorted table, hash consistent.
pub open spec fn status_wf(s: StatusV) -> bool {
    &&& peers_sorted(s.nodes)
    &&& s.hash == status_hash_v(s.nodes)
}

/// The table with `e` put at its peer's place.
pub open spec fn upsert_peer(s: Seq<PeerV>, e: PeerV) -> Seq<PeerV>
    decreases s.len(),
{
    if s.len() == 0 {
        seq![e]
    } else if bytes_lt(s[0].id, e.id) {
        seq![s[0]] + upsert_peer(s.drop_first(), e)
    } else if s[0].id == e.id {
        seq![e] + s.drop_first()
    } else {
        seq![e] + s
    }
}

/// The peer's entry, if the table has one.
pub open spec fn find_peer(s: Seq<PeerV>, id: Seq<u8>) -> Option<PeerV>
    decreases s.len(),
{
    if s.len() == 0 {
        None
    } else if s[0].id == id {
        Some(s[0])
    } else {
        find_peer(s.drop_first(), id)
    }
}

/// The table after one failed ping of `id`: an absent peer stays
/// absent; a peer out of attempts is removed; otherwise its attempts
/// decrease by one and it is marked down exactly when they reach zero.
pub open spec fn peer_fail(s: Seq<PeerV>, id: Seq<u8>) -> Seq<PeerV>
    decreases s.len(),
{
    if s.len() == 0 {
        s
    } else if s[0].id == id {
        if s[0].remaining_ping_attempts == 0 {
            s.drop_first()
        } else {
            seq![
                PeerV {
                    is_up: (s[0].remaining_ping_attempts > 1),
                    remaining_ping_attempts: (s[0].remaining_ping_attempts - 1) as u64,
                    ..s[0]
                },
            ] + s.drop_first()
        }
    } else {
        seq![s[0]] + peer_fail(s.drop_first(), id)
    }
}

/// The table after a successful ping of `id` at time `now`: the peer is
/// live again with a full allowance of attempts.
pub open spec fn peer_succeed(s: Seq<PeerV>, id: Seq<u8>, now: u64) -> Seq<PeerV>
    decreases s.len(),
{
    if s.len() == 0 {
        s
    } else if s[0].id == id {
        seq![
            PeerV {
                is_up: true,
                last_seen: Some(now),
                remaining_ping_attempts: MAX_FAILED_PINGS,
                ..s[0]
            },
        ] + s.drop_first()
    } else {
        seq![s[0]] + peer_succeed(s.drop_first(), id, now)
    }
}

/// The table after `k` consecutive failed pings of `id`.
pub open spec fn peer_fail_times(s: Seq<PeerV>, id: Seq<u8>, k: nat) -> Seq<PeerV>
    decreases k,
{
    if k == 0 {
        s
    } else {
        peer_fail(peer_fail_times(s, id, (k - 1) as nat), id)
    }
}

// ---------------------------------------------------------------------
// The decay law: a fresh peer is marked down by exactly the
// `MAX_FAILED_PINGS`-th consecutive failed ping and no sooner, and the
// failure after that removes it from the table.
// ---------------------------------------------------------------------

/// No entry, no find.
proof fn lemma_find_none(s: Seq<PeerV>, id: Seq<u8>)
    requires
        forall|i: int| 0 <= i < s.len() ==> (#[trigger] s[i]).id != id,
    ensures
        find_peer(s, id) is None,
    decreases s.len(),
{
    if s.len() > 0 {
        assert forall|i: int| 0 <= i < s.drop_first().len() implies (#[trigger] s.drop_first()[i]).id
            != id by {
            assert(s.drop_first()[i] == s[i + 1]);
        }
        lemma_find_none(s.drop_first(), id);
    }
}

/// Dropping the first peer keeps the table sorted.
proof fn lemma_peers_sorted_drop_first(s: Seq<PeerV>)
    requires
        peers_sorted(s),
        s.len() > 0,
    ensures
        peers_sorted(s.drop_first()),
{
    assert forall|x: int, y: int| 0 <= x < y < s.drop_first().len() implies bytes_lt(
        (#[trigger] s.drop_first()[x]).id,
        (#[trigger] s.drop_first()[y]).id,
    ) by {
        assert(s.drop_first()[x] == s[x + 1] && s.drop_first()[y] == s[y + 1]);
    }
}

/// A failed ping leaves only identifiers the table already had.
proof fn lemma_peer_fail_ids(s: Seq<PeerV>, id: Seq<u8>)
    ensures
        forall|k: int|
            0 <= k < peer_fail(s, id).len() ==> (exists|i: int|
                0 <= i < s.len() && (#[trigger] peer_fail(s, id)[k]).id == (#[trigger] s[i]).id),
    decreases s.len(),
{
    let f = peer_fail(s, id);
    if s.len() == 0 {
    } else if s[0].id == id {
        assert forall|k: int| 0 <= k < f.len() implies (exists|i: int|
            0 <= i < s.len() && (#[trigger] f[k]).id == (#[trigger] s[i]).id) by {
            if s[0].remaining_ping_attempts == 0 {
                assert(f[k] == s[k + 1]);
                assert(f[k].id == s[k + 1].id);
            } else {
                if k == 0 {
                    assert(f[0].id == s[0].id);
                } else {
                    assert(f[k] == s[k]);
                    assert(f[k].id == s[k].id);
                }
            }
        }
    } else {
        lemma_peer_fail_ids(s.drop_first(), id);
        let ft = peer_fail(s.drop_first(), id);
        assert forall|k: int| 0 <= k < f.len() implies (exists|i: int|
            0 <= i < s.len() && (#[trigger] f[k]).id == (#[trigger] s[i]).id) by {
            if k == 0 {
                assert(f[0].id == s[0].id);
            } else {
                assert(f[k] == ft[k - 1]);
                let i = choose|i: int|
                    0 <= i < s.drop_first().len() && ft[k - 1].id == s.drop_first()[i].id;
                assert(s.drop_first()[i] == s[i + 1]);
                assert(f[k].id == s[i + 1].id);
            }
        }
    }
}

/// A failed ping keeps the table sorted.
proof fn lemma_peer_fail_sorted(s: Seq<PeerV>, id: Seq<u8>)
    requires
        peers_sorted(s),
    ensures
        peers_sorted(peer_fail(s, id)),
    decreases s.len(),
{
    let f = peer_fail(s, id);
    if s.len() == 0 {
    } else if s[0].id == id {
        if s[0].remaining_ping_attempts == 0 {
            lemma_peers_sorted_drop_first(s);
        } else {
            assert forall|x: int, y: int| 0 <= x < y < f.len() implies bytes_lt(
                (#[trigger] f[x]).id,
                (#[trigger] f[y]).id,
            ) by {
                assert(f[x].id == s[x].id && f[y].id == s[y].id);
            }
        }
    } else {
        lemma_peers_sorted_drop_first(s);
        lemma_peer_fail_sorted(s.drop_first(), id);
        lemma_peer_fail_ids(s.drop_first(), id);
        let ft = peer_fail(s.drop_first(), id);
        assert forall|x: int, y: int| 0 <= x < y < f.len() implies bytes_lt(
            (#[trigger] f[x]).id,
            (#[trigger] f[y]).id,
        ) by {
            if x == 0 {
                assert(f[y] == ft[y - 1]);
                let i = choose|i: int|
                    0 <= i < s.drop_first().len() && ft[y - 1].id == s.drop_first()[i].id;
                assert(s.drop_first()[i] == s[i + 1]);
                assert(bytes_lt(s[0].id, s[i + 1].id));
            } else {
                assert(f[x] == ft[x - 1] && f[y] == ft[y - 1]);
            }
        }
    }
}

/// One failed ping of a present peer decrements exactly that peer.
proof fn lemma_peer_fail_found(s: Seq<PeerV>, id: Seq<u8>)
    requires
        peers_sorted(s),
    ensures
        find_peer(s, id) is None ==> find_peer(peer_fail(s, id), id) is None,
        find_peer(s, id) matches Some(e) ==> (e.remaining_ping_attempts == 0 ==> find_peer(
            peer_fail(s, id),
            id,
        ) is None),
        find_peer(s, id) matches Some(e) ==> (e.remaining_ping_attempts > 0 ==> find_peer(
            peer_fail(s, id),
            id,
        ) == Some(
            PeerV {
                is_up: (e.remaining_ping_attempts > 1),
                remaining_ping_attempts: (e.remaining_ping_attempts - 1) as u64,
                ..e
            },
        )),
    decreases s.len(),
{
    if s.len() == 0 {
    } else if s[0].id == id {
        if s[0].remaining_ping_attempts == 0 {
            assert forall|i: int| 0 <= i < s.drop_first().len() implies (#[trigger] s.drop_first()[i]).id
                != id by {
                assert(s.drop_first()[i] == s[i + 1]);
                assert(bytes_lt(s[0].id, s[i + 1].id));
                lemma_bytes_lt_trichotomy(s[0].id, s[i + 1].id);
            }
            lemma_find_none(s.drop_first(), id);
        } else {
            let f = peer_fail(s, id);
            assert(f[0].id == id);
        }
    } else {
        lemma_peers_sorted_drop_first(s);
        lemma_peer_fail_found(s.drop_first(), id);
        let f = peer_fail(s, id);
        assert(f[0] == s[0]);
        assert(f.drop_first() =~= peer_fail(s.drop_first(), id));
    }
}

/// A found peer carries the identifier it was found under.
proof fn lemma_find_requires_id(s: Seq<PeerV>, id: Seq<u8>)
    ensures
        find_peer(s, id) matches Some(e) ==> e.id == id,
    decreases s.len(),
{
    if s.len() > 0 {
        lemma_find_requires_id(s.drop_first(), id);
    }
}

/// Removal after three failures and no sooner: hold the definitions to
/// a peer that starts fresh. After `k` consecutive failed pings the
/// peer is still present and live while `k` is below
/// `MAX_FAILED_PINGS`, present but down at exactly `MAX_FAILED_PINGS`,
/// and gone one failure later.
pub proof fn lemma_peer_decay(s: Seq<PeerV>, id: Seq<u8>, k: nat)
    requires
        peers_sorted(s),
        find_peer(s, id) matches Some(e) && e.is_up && e.remaining_ping_attempts
            == MAX_FAILED_PINGS,
    ensures
        k < MAX_FAILED_PINGS ==> (find_peer(peer_fail_times(s, id, k), id) matches Some(e)
            && e.is_up && e.remaining_ping_attempts == MAX_FAILED_PINGS - k),
        k == MAX_FAILED_PINGS ==> (find_peer(peer_fail_times(s, id, k), id) matches Some(e)
            && !e.is_up && e.remaining_ping_attempts == 0),
        k > MAX_FAILED_PINGS ==> find_peer(peer_fail_times(s, id, k), id) is None,
    decreases k,
{
    lemma_find_requires_id(s, id);
    if k == 0 {
    } else {
        lemma_peer_decay(s, id, (k - 1) as nat);
        lemma_peer_fail_times_sorted(s, id, (k - 1) as nat);
        lemma_peer_fail_found(peer_fail_times(s, id, (k - 1) as nat), id);
        lemma_find_requires_id(peer_fail_times(s, id, (k - 1) as nat), id);
    }
}

/// Any number of failed pings keeps the table sorted.
pub proof fn lemma_peer_fail_times_sorted(s: Seq<PeerV>, id: Seq<u8>, k: nat)
    requires
        peers_sorted(s),
    ensures
        peers_sorted(peer_fail_times(s, id, k)),
    decreases k,
{
    if k > 0 {
        lemma_peer_fail_times_sorted(s, id, (k - 1) as nat);
        lemma_peer_fail_sorted(peer_fail_times(s, id, (k - 1) as nat), id);
    }
}

// ---------------------------------------------------------------------
// Splice forms: what the recursive table combinators do at the found
// index.
// ---------------------------------------------------------------------

/// Where no entry for `id` exists, a failed ping changes nothing.
proof fn lemma_peer_fail_absent(s: Seq<PeerV>, id: Seq<u8>)
    requires
        forall|i: int| 0 <= i < s.len() ==> (#[trigger] s[i]).id != id,
    ensures
        peer_fail(s, id) =~= s,
    decreases s.len(),
{
    if s.len() > 0 {
        assert forall|i: int| 0 <= i < s.drop_first().len() implies (#[trigger] s.drop_first()[i]).id
            != id by {
            assert(s.drop_first()[i] == s[i + 1]);
        }
        lemma_peer_fail_absent(s.drop_first(), id);
        assert(peer_fail(s, id) =~= seq![s[0]] + s.drop_first());
        assert(seq![s[0]] + s.drop_first() =~= s);
    }
}

/// Where no entry for `id` exists, a successful ping changes nothing.
proof fn lemma_peer_succeed_absent(s: Seq<PeerV>, id: Seq<u8>, now: u64)
    requires
        forall|i: int| 0 <= i < s.len() ==> (#[trigger] s[i]).id != id,
    ensures
        peer_succeed(s, id, now) =~= s,
    decreases s.len(),
{
    if s.len() > 0 {
        assert forall|i: int| 0 <= i < s.drop_first().len() implies (#[trigger] s.drop_first()[i]).id
            != id by {
            assert(s.drop_first()[i] == s[i + 1]);
        }
        lemma_peer_succeed_absent(s.drop_first(), id, now);
        assert(peer_succeed(s, id, now) =~= seq![s[0]] + s.drop_first());
        assert(seq![s[0]] + s.drop_first() =~= s);
    }
}

/// The failed-ping combinator at the found index.
proof fn lemma_peer_fail_at(s: Seq<PeerV>, id: Seq<u8>, p: int)
    requires
        peers_sorted(s),
        0 <= p < s.len(),
        s[p].id == id,
    ensures
        s[p].remaining_ping_attempts == 0 ==> peer_fail(s, id) =~= s.remove(p),
        s[p].remaining_ping_attempts > 0 ==> peer_fail(s, id) =~= s.update(
            p,
            PeerV {
                is_up: (s[p].remaining_ping_attempts > 1),
                remaining_ping_attempts: (s[p].remaining_ping_attempts - 1) as u64,
                ..s[p]
            },
        ),
    decreases p,
{
    if p == 0 {
    } else {
        assert(bytes_lt(s[0].id, s[p].id));
        lemma_bytes_lt_trichotomy(s[0].id, id);
        lemma_peers_sorted_drop_first(s);
        assert(s.drop_first()[p - 1] == s[p]);
        lemma_peer_fail_at(s.drop_first(), id, p - 1);
        if s[p].remaining_ping_attempts == 0 {
            assert(peer_fail(s, id) =~= seq![s[0]] + s.drop_first().remove(p - 1));
            assert(seq![s[0]] + s.drop_first().remove(p - 1) =~= s.remove(p));
        } else {
            assert(peer_fail(s, id) =~= seq![s[0]] + peer_fail(s.drop_first(), id));
            assert(seq![s[0]] + s.drop_first().update(
                p - 1,
                PeerV {
                    is_up: (s[p].remaining_ping_attempts > 1),
                    remaining_ping_attempts: (s[p].remaining_ping_attempts - 1) as u64,
                    ..s[p]
                },
            ) =~= s.update(
                p,
                PeerV {
                    is_up: (s[p].remaining_ping_attempts > 1),
                    remaining_ping_attempts: (s[p].remaining_ping_attempts - 1) as u64,
                    ..s[p]
                },
            ));
        }
    }
}

/// The successful-ping combinator at the found index.
proof fn lemma_peer_succeed_at(s: Seq<PeerV>, id: Seq<u8>, now: u64, p: int)
    requires
        peers_sorted(s),
        0 <= p < s.len(),
        s[p].id == id,
    ensures
        peer_succeed(s, id, now) =~= s.update(
            p,
            PeerV {
                is_up: true,
                last_seen: Some(now),
                remaining_ping_attempts: MAX_FAILED_PINGS,
                ..s[p]
            },
        ),
    decreases p,
{
    if p == 0 {
    } else {
        assert(bytes_lt(s[0].id, s[p].id));
        lemma_bytes_lt_trichotomy(s[0].id, id);
        lemma_peers_sorted_drop_first(s);
        assert(s.drop_first()[p - 1] == s[p]);
        lemma_peer_succeed_at(s.drop_first(), id, now, p - 1);
        assert(peer_succeed(s, id, now) =~= seq![s[0]] + peer_succeed(s.drop_first(), id, now));
        assert(seq![s[0]] + s.drop_first().update(
            p - 1,
            PeerV {
                is_up: true,
                last_seen: Some(now),
                remaining_ping_attempts: MAX_FAILED_PINGS,
                ..s[p]
            },
        ) =~= s.update(
            p,
            PeerV {
                is_up: true,
                last_seen: Some(now),
                remaining_ping_attempts: MAX_FAILED_PINGS,
                ..s[p]
            },
        ));
    }
}

/// The upsert combinator replaces at a found index.
proof fn lemma_upsert_peer_replaces(s: Seq<PeerV>, e: PeerV, p: int)
    requires
        peers_sorted(s),
        0 <= p < s.len(),
        s[p].id == e.id,
    ensures
        upsert_peer(s, e) =~= s.subrange(0, p) + seq![e] + s.subrange(p + 1, s.len() as int),
    decreases p,
{
    if p == 0 {
        lemma_bytes_lt_trichotomy(s[0].id, e.id);
        assert(upsert_peer(s, e) == seq![e] + s.drop_first());
        assert(s.drop_first() =~= s.subrange(1, s.len() as int));
    } else {
        assert(bytes_lt(s[0].id, e.id)) by {
            assert(bytes_lt(s[0].id, s[p].id));
        }
        lemma_peers_sorted_drop_first(s);
        assert(s.drop_first()[p - 1] == s[p]);
        lemma_upsert_peer_replaces(s.drop_first(), e, p - 1);
        let d = s.drop_first();
        assert(d.subrange(0, p - 1) =~= s.subrange(1, p));
        assert(d.subrange(p, d.len() as int) =~= s.subrange(p + 1, s.len() as int));
        assert(upsert_peer(s, e) == seq![s[0]] + upsert_peer(d, e));
        assert(seq![s[0]] + (d.subrange(0, p - 1) + seq![e] + d.subrange(p, d.len() as int)) =~= s
            .subrange(0, p) + seq![e] + s.subrange(p + 1, s.len() as int));
    }
}

/// The upsert combinator inserts at the insertion point of an absent
/// peer.
proof fn lemma_upsert_peer_inserts(s: Seq<PeerV>, e: PeerV, p: int)
    requires
        peers_sorted(s),
        0 <= p <= s.len(),
        forall|i: int| 0 <= i < p ==> bytes_lt(#[trigger] s[i].id, e.id),
        forall|i: int| p <= i < s.len() ==> bytes_lt(e.id, #[trigger] s[i].id),
    ensures
        upsert_peer(s, e) =~= s.subrange(0, p) + seq![e] + s.subrange(p, s.len() as int),
    decreases p,
{
    if p == 0 {
        if s.len() == 0 {
            assert(upsert_peer(s, e) == seq![e]);
        } else {
            lemma_bytes_lt_trichotomy(s[0].id, e.id);
            assert(upsert_peer(s, e) == seq![e] + s);
        }
        assert(s.subrange(0, s.len() as int) =~= s);
    } else {
        assert(bytes_lt(s[0].id, e.id));
        lemma_peers_sorted_drop_first(s);
        let d = s.drop_first();
        assert forall|i: int| 0 <= i < p - 1 implies bytes_lt(#[trigger] d[i].id, e.id) by {
            assert(d[i] == s[i + 1]);
        }
        assert forall|i: int| p - 1 <= i < d.len() implies bytes_lt(e.id, #[trigger] d[i].id) by {
            assert(d[i] == s[i + 1]);
        }
        lemma_upsert_peer_inserts(d, e, p - 1);
        assert(d.subrange(0, p - 1) =~= s.subrange(1, p));
        assert(d.subrange(p - 1, d.len() as int) =~= s.subrange(p, s.len() as int));
        assert(upsert_peer(s, e) == seq![s[0]] + upsert_peer(d, e));
        assert(seq![s[0]] + (d.subrange(0, p - 1) + seq![e] + d.subrange(p - 1, d.len() as int))
            =~= s.subrange(0, p) + seq![e] + s.subrange(p, s.len() as int));
    }
}

/// Upserting keeps the table sorted.
pub proof fn lemma_upsert_peer_sorted(s: Seq<PeerV>, e: PeerV)
    requires
        peers_sorted(s),
    ensures
        peers_sorted(upsert_peer(s, e)),
    decreases s.len(),
{
    let m = upsert_peer(s, e);
    if s.len() == 0 {
    } else {
        lemma_peers_sorted_drop_first(s);
        lemma_bytes_lt_trichotomy(s[0].id, e.id);
        if bytes_lt(s[0].id, e.id) {
            lemma_upsert_peer_sorted(s.drop_first(), e);
            lemma_upsert_peer_ids(s.drop_first(), e);
            let t = upsert_peer(s.drop_first(), e);
            assert(m == seq![s[0]] + t);
            assert forall|x: int, y: int| 0 <= x < y < m.len() implies bytes_lt(
                (#[trigger] m[x]).id,
                (#[trigger] m[y]).id,
            ) by {
                if x == 0 {
                    assert(m[y] == t[y - 1]);
                    if t[y - 1].id == e.id {
                    } else {
                        let w = choose|w: int|
                            0 <= w < s.drop_first().len() && t[y - 1].id == s.drop_first()[w].id;
                        assert(s.drop_first()[w] == s[w + 1]);
                        assert(bytes_lt(s[0].id, s[w + 1].id));
                    }
                } else {
                    assert(m[x] == t[x - 1] && m[y] == t[y - 1]);
                }
            }
        } else if s[0].id == e.id {
            assert(m == seq![e] + s.drop_first());
            assert forall|x: int, y: int| 0 <= x < y < m.len() implies bytes_lt(
                (#[trigger] m[x]).id,
                (#[trigger] m[y]).id,
            ) by {
                if x == 0 {
                    assert(m[y] == s[y]);
                    assert(bytes_lt(s[0].id, s[y].id));
                } else {
                    assert(m[x] == s[x] && m[y] == s[y]);
                }
            }
        } else {
            assert(m == seq![e] + s);
            assert forall|x: int, y: int| 0 <= x < y < m.len() implies bytes_lt(
                (#[trigger] m[x]).id,
                (#[trigger] m[y]).id,
            ) by {
                if x == 0 {
                    if y > 1 {
                        lemma_bytes_lt_transitive(e.id, s[0].id, s[y - 1].id);
                    }
                    assert(m[y] == s[y - 1]);
                } else {
                    assert(m[x] == s[x - 1] && m[y] == s[y - 1]);
                }
            }
        }
    }
}

/// An upserted table holds the new identifier and identifiers the table
/// already had.
proof fn lemma_upsert_peer_ids(s: Seq<PeerV>, e: PeerV)
    ensures
        forall|k: int|
            0 <= k < upsert_peer(s, e).len() ==> ((#[trigger] upsert_peer(s, e)[k]).id == e.id || (
            exists|i: int| 0 <= i < s.len() && upsert_peer(s, e)[k].id == (#[trigger] s[i]).id)),
    decreases s.len(),
{
    let m = upsert_peer(s, e);
    if s.len() == 0 {
    } else if bytes_lt(s[0].id, e.id) {
        lemma_upsert_peer_ids(s.drop_first(), e);
        let t = upsert_peer(s.drop_first(), e);
        assert forall|k: int| 0 <= k < m.len() implies ((#[trigger] m[k]).id == e.id || (exists|i: int|
            0 <= i < s.len() && m[k].id == (#[trigger] s[i]).id)) by {
            if k == 0 {
                assert(m[0].id == s[0].id);
            } else {
                assert(m[k] == t[k - 1]);
                if t[k - 1].id != e.id {
                    let w = choose|w: int|
                        0 <= w < s.drop_first().len() && t[k - 1].id == s.drop_first()[w].id;
                    assert(s.drop_first()[w] == s[w + 1]);
                    assert(m[k].id == s[w + 1].id);
                }
            }
        }
    } else if s[0].id == e.id {
        assert forall|k: int| 0 <= k < m.len() implies ((#[trigger] m[k]).id == e.id || (exists|i: int|
            0 <= i < s.len() && m[k].id == (#[trigger] s[i]).id)) by {
            if k > 0 {
                assert(m[k] == s[k]);
                assert(m[k].id == s[k].id);
            }
        }
    } else {
        assert forall|k: int| 0 <= k < m.len() implies ((#[trigger] m[k]).id == e.id || (exists|i: int|
            0 <= i < s.len() && m[k].id == (#[trigger] s[i]).id)) by {
            if k > 0 {
                assert(m[k] == s[k - 1]);
                assert(m[k].id == s[k - 1].id);
            }
        }
    }
}

// ---------------------------------------------------------------------
// Executable peer table.
// ---------------------------------------------------------------------

/// One more peer line appends its encoding.
proof fn lemma_enc_peers_push(s: Seq<PeerV>, e: PeerV)
    ensures
        enc_peers(s.push(e)) =~= enc_peers(s) + enc_peer(e),
    decreases s.len(),
{
    let p = s.push(e);
    assert(enc_peers(p) == enc_peer(p[0]) + enc_peers(p.drop_first()));
    if s.len() == 0 {
        assert(p[0] == e);
        assert(p.drop_first() =~= Seq::<PeerV>::empty());
        assert(enc_peers(p.drop_first()) == Seq::<u8>::empty());
    } else {
        assert(p[0] == s[0]);
        assert(p.drop_first() =~= s.drop_first().push(e));
        lemma_enc_peers_push(s.drop_first(), e);
        assert(enc_peers(s) == enc_peer(s[0]) + enc_peers(s.drop_first()));
    }
}

/// Finds a peer's entry in the sorted table, or where it belongs.
fn locate_peer(nodes: &Vec<PeerEntry>, id: &Uuid) -> (r: (usize, bool))
    requires
        peers_sorted(peers_v(nodes@)),
    ensures
        r.1 ==> r.0 < nodes@.len() && peers_v(nodes@)[r.0 as int].id == id@,
        !r.1 ==> r.0 <= nodes@.len() && (forall|i: int|
            0 <= i < r.0 ==> bytes_lt(#[trigger] peers_v(nodes@)[i].id, id@)) && (forall|i: int|
            r.0 <= i < nodes@.len() ==> bytes_lt(id@, #[trigger] peers_v(nodes@)[i].id)),
    decreases nodes@.len(),
{
    let ghost s = peers_v(nodes@);
    let n = nodes.len();
    let mut i: usize = 0;
    while i < n
        invariant
            i <= n,
            n == nodes@.len(),
            s == peers_v(nodes@),
            peers_sorted(s),
            forall|k: int| 0 <= k < i ==> bytes_lt(#[trigger] s[k].id, id@),
        decreases n - i,
    {
        match fb32_cmp(&nodes[i].id, id) {
            Cmp::Lt => {
                i = i + 1;
            },
            Cmp::Eq => {
                return (i, true);
            },
            Cmp::Gt => {
                proof {
                    assert forall|k: int| i < k < s.len() implies bytes_lt(
                        id@,
                        #[trigger] s[k].id,
                    ) by {
                        lemma_bytes_lt_transitive(id@, s[i as int].id, s[k].id);
                    }
                }
                return (i, false);
            },
        }
    }
    (i, false)
}

/// A found entry is what `find_peer` names.
proof fn lemma_find_peer_at(s: Seq<PeerV>, id: Seq<u8>, p: int)
    requires
        peers_sorted(s),
        0 <= p < s.len(),
        s[p].id == id,
    ensures
        find_peer(s, id) == Some(s[p]),
    decreases p,
{
    if p == 0 {
    } else {
        assert(bytes_lt(s[0].id, s[p].id));
        lemma_bytes_lt_trichotomy(s[0].id, id);
        lemma_peers_sorted_drop_first(s);
        assert(s.drop_first()[p - 1] == s[p]);
        lemma_find_peer_at(s.drop_first(), id, p - 1);
    }
}

/// An absent peer is what `find_peer` misses.
proof fn lemma_find_peer_none(s: Seq<PeerV>, id: Seq<u8>)
    requires
        forall|i: int| 0 <= i < s.len() ==> (#[trigger] s[i]).id != id,
    ensures
        find_peer(s, id) is None,
    decreases s.len(),
{
    if s.len() > 0 {
        assert forall|i: int| 0 <= i < s.drop_first().len() implies (#[trigger] s.drop_first()[i]).id
            != id by {
            assert(s.drop_first()[i] == s[i + 1]);
        }
        lemma_find_peer_none(s.drop_first(), id);
    }
}

impl Status {
    /// Whether the table is sorted with a hash that matches it.
    pub open spec fn wf(&self) -> bool {
        status_wf(self@)
    }

    /// An empty peer table with its hash.
    pub fn new() -> (r: Status)
        ensures
            r.wf(),
            r@.nodes =~= Seq::<PeerV>::empty(),
    {
        let nodes: Vec<PeerEntry> = Vec::new();
        let hash = hash_peers(&nodes);
        let r = Status { nodes, hash };
        proof {
            assert(r@.nodes =~= Seq::<PeerV>::empty());
        }
        r
    }

    /// Records a ping from a peer: the peer is (re-)entered live with a
    /// fresh failure allowance; returns whether the peer is new or its
    /// address changed, which callers use to re-advertise it. The
    /// status hash is recomputed separately.
    pub fn handle_ping(&mut self, id: &Uuid, addr: NodeAddr, now_ms: u64) -> (is_new: bool)
        requires
            peers_sorted(old(self)@.nodes),
        ensures
            peers_sorted(final(self)@.nodes),
            final(self)@.nodes == upsert_peer(
                old(self)@.nodes,
                PeerV {
                    id: id@,
                    addr: addr@,
                    is_up: true,
                    last_seen: Some(now_ms),
                    remaining_ping_attempts: MAX_FAILED_PINGS,
                },
            ),
            final(self)@.hash == old(self)@.hash,
            is_new == (match find_peer(old(self)@.nodes, id@) {
                None => true,
                Some(e) => e.addr != addr@,
            }),
    {
        let ghost s0 = peers_v(self.nodes@);
        let e = PeerEntry {
            id: *id,
            addr,
            is_up: true,
            last_seen: Some(now_ms),
            remaining_ping_attempts: MAX_FAILED_PINGS,
        };
        let ghost ev = e@;
        let (pos, found) = locate_peer(&self.nodes, id);
        let is_new: bool;
        if found {
            is_new = !crate::data::addr_eq(&self.nodes[pos].addr, &addr);
            proof {
                lemma_find_peer_at(s0, id@, pos as int);
            }
            self.nodes.remove(pos);
            self.nodes.insert(pos, e);
            proof {
                lemma_upsert_peer_replaces(s0, ev, pos as int);
                assert(peers_v(self.nodes@) =~= s0.subrange(0, pos as int) + seq![ev]
                    + s0.subrange(pos + 1, s0.len() as int));
            }
        } else {
            is_new = true;
            proof {
                assert forall|i: int| 0 <= i < s0.len() implies (#[trigger] s0[i]).id != id@ by {
                    lemma_bytes_lt_trichotomy(s0[i].id, id@);
                }
                lemma_find_peer_none(s0, id@);
            }
            self.nodes.insert(pos, e);
            proof {
                lemma_upsert_peer_inserts(s0, ev, pos as int);
                assert(peers_v(self.nodes@) =~= s0.subrange(0, pos as int) + seq![ev]
                    + s0.subrange(pos as int, s0.len() as int));
            }
        }
        proof {
            lemma_upsert_peer_sorted(s0, ev);
        }
        is_new
    }

    /// Recomputes the status hash from the table.
    pub fn recalculate_hash(&mut self)
        requires
            peers_sorted(old(self)@.nodes),
        ensures
            final(self).wf(),
            final(self)@.nodes == old(self)@.nodes,
    {
        self.hash = hash_peers(&self.nodes);
    }

    /// Records a failed ping: the peer loses one attempt, goes down at
    /// zero, and is removed by the failure after that.
    pub fn record_ping_failure(&mut self, id: &Uuid)
        requires
            peers_sorted(old(self)@.nodes),
        ensures
            peers_sorted(final(self)@.nodes),
            final(self)@.nodes == peer_fail(old(self)@.nodes, id@),
            final(self)@.hash == old(self)@.hash,
    {
        let ghost s0 = peers_v(self.nodes@);
        let (pos, found) = locate_peer(&self.nodes, id);
        if found {
            proof {
                lemma_peer_fail_at(s0, id@, pos as int);
            }
            if self.nodes[pos].remaining_ping_attempts == 0 {
                self.nodes.remove(pos);
                proof {
                    assert(peers_v(self.nodes@) =~= s0.remove(pos as int));
                }
            } else {
                let old_e = self.nodes.remove(pos);
                let dec = old_e.remaining_ping_attempts - 1;
                let e = PeerEntry {
                    id: old_e.id,
                    addr: old_e.addr,
                    is_up: dec > 0,
                    last_seen: old_e.last_seen,
                    remaining_ping_attempts: dec,
                };
                self.nodes.insert(pos, e);
                proof {
                    assert(peers_v(self.nodes@) =~= s0.update(
                        pos as int,
                        PeerV {
                            is_up: (s0[pos as int].remaining_ping_attempts > 1),
                            remaining_ping_attempts: (s0[pos as int].remaining_ping_attempts
                                - 1) as u64,
                            ..s0[pos as int]
                        },
                    ));
                }
            }
            proof {
                lemma_peer_fail_sorted(s0, id@);
            }
        } else {
            proof {
                assert forall|i: int| 0 <= i < s0.len() implies (#[trigger] s0[i]).id != id@ by {
                    lemma_bytes_lt_trichotomy(s0[i].id, id@);
                }
                lemma_peer_fail_absent(s0, id@);
            }
        }
    }

    /// Records a successful ping: the peer is live again with a full
    /// allowance.
    pub fn record_ping_success(&mut self, id: &Uuid, now_ms: u64)
        requires
            peers_sorted(old(self)@.nodes),
        ensures
            peers_sorted(final(self)@.nodes),
            final(self)@.nodes == peer_succeed(old(self)@.nodes, id@, now_ms),
            final(self)@.hash == old(self)@.hash,
    {
        let ghost s0 = peers_v(self.nodes@);
        let (pos, found) = locate_peer(&self.nodes, id);
        if found {
            proof {
                lemma_peer_succeed_at(s0, id@, now_ms, pos as int);
            }
            let old_e = self.nodes.remove(pos);
            let e = PeerEntry {
                id: old_e.id,
                addr: old_e.addr,
                is_up: true,
                last_seen: Some(now_ms),
                remaining_ping_attempts: MAX_FAILED_PINGS,
            };
            self.nodes.insert(pos, e);
            proof {
                assert(peers_v(self.nodes@) =~= s0.update(
                    pos as int,
                    PeerV {
                        is_up: true,
                        last_seen: Some(now_ms),
                        remaining_ping_attempts: MAX_FAILED_PINGS,
                        ..s0[pos as int]
                    },
                ));
                assert forall|x: int, y: int|
                    0 <= x < y < peers_v(self.nodes@).len() implies bytes_lt(
                    (#[trigger] peers_v(self.nodes@)[x]).id,
                    (#[trigger] peers_v(self.nodes@)[y]).id,
                ) by {
                    assert(peers_v(self.nodes@)[x].id == s0[x].id);
                    assert(peers_v(self.nodes@)[y].id == s0[y].id);
                }
            }
        } else {
            proof {
                assert forall|i: int| 0 <= i < s0.len() implies (#[trigger] s0[i]).id != id@ by {
                    lemma_bytes_lt_trichotomy(s0[i].id, id@);
                }
                lemma_peer_succeed_absent(s0, id@, now_ms);
            }
        }
    }

    /// Looks a peer up.
    pub fn find(&self, id: &Uuid) -> (r: Option<&PeerEntry>)
        requires
            peers_sorted(self@.nodes),
        ensures
            r matches Some(e) ==> find_peer(self@.nodes, id@) == Some(e@),
            r is None ==> find_peer(self@.nodes, id@) is None,
    {
        let (pos, found) = locate_peer(&self.nodes, id);
        if found {
            proof {
                lemma_find_peer_at(peers_v(self.nodes@), id@, pos as int);
            }
            Some(&self.nodes[pos])
        } else {
            proof {
                let ghost s0 = peers_v(self.nodes@);
                assert forall|i: int| 0 <= i < s0.len() implies (#[trigger] s0[i]).id != id@ by {
                    lemma_bytes_lt_trichotomy(s0[i].id, id@);
                }
                lemma_find_peer_none(s0, id@);
            }
            None
        }
    }
}

/// Computes the status hash over the table's canonical encoding.
fn hash_peers(nodes: &Vec<PeerEntry>) -> (r: HashVal)
    ensures
        r@ == status_hash_v(peers_v(nodes@)),
{
    let ghost s = peers_v(nodes@);
    let mut out: Vec<u8> = Vec::new();
    crate::codec::enc_u64_into(&mut out, nodes.len() as u64);
    let ghost base = out@;
    let mut i: usize = 0;
    proof {
        assert(enc_peers(s.subrange(0, 0)) =~= Seq::<u8>::empty());
        assert(out@ =~= base + enc_peers(s.subrange(0, 0)));
    }
    while i < nodes.len()
        invariant
            i <= s.len(),
            s == peers_v(nodes@),
            base == enc_u64(s.len() as u64),
            out@ == base + enc_peers(s.subrange(0, i as int)),
        decreases s.len() - i,
    {
        let e = &nodes[i];
        let ghost before = out@;
        let mut k: usize = 0;
        while k < 32
            invariant
                k <= 32,
                out@ =~= before + e.id@.subrange(0, k as int),
                e == &nodes[i as int],
                i < nodes@.len(),
            decreases 32 - k,
        {
            out.push(e.id.b[k]);
            proof {
                assert(before + e.id@.subrange(0, k + 1) =~= (before + e.id@.subrange(
                    0,
                    k as int,
                )).push(e.id@[k as int]));
            }
            k = k + 1;
        }
        proof {
            assert(e.id@.subrange(0, 32) =~= e.id@);
        }
        match &e.addr.ip {
            crate::data::IpBytes::V4(b) => {
                out.push(4u8);
                let mut k2: usize = 0;
                let ghost b4 = out@;
                while k2 < 4
                    invariant
                        k2 <= 4,
                        out@ =~= b4 + b@.subrange(0, k2 as int),
                    decreases 4 - k2,
                {
                    out.push(b[k2]);
                    proof {
                        assert(b4 + b@.subrange(0, k2 + 1) =~= (b4 + b@.subrange(0, k2 as int)).push(
                            b@[k2 as int],
                        ));
                    }
                    k2 = k2 + 1;
                }
                proof {
                    assert(b@.subrange(0, 4) =~= b@);
                }
            },
            crate::data::IpBytes::V6(b) => {
                out.push(6u8);
                let mut k2: usize = 0;
                let ghost b6 = out@;
                while k2 < 16
                    invariant
                        k2 <= 16,
                        out@ =~= b6 + b@.subrange(0, k2 as int),
                    decreases 16 - k2,
                {
                    out.push(b[k2]);
                    proof {
                        assert(b6 + b@.subrange(0, k2 + 1) =~= (b6 + b@.subrange(0, k2 as int)).push(
                            b@[k2 as int],
                        ));
                    }
                    k2 = k2 + 1;
                }
                proof {
                    assert(b@.subrange(0, 16) =~= b@);
                }
            },
        }
        out.push((e.addr.port / 256) as u8);
        out.push((e.addr.port % 256) as u8);
        proof {
            assert(out@ =~= before + enc_peer(s[i as int]));
            assert(s.subrange(0, i + 1) =~= s.subrange(0, i as int).push(s[i as int]));
            lemma_enc_peers_push(s.subrange(0, i as int), s[i as int]);
            assert(out@ =~= base + enc_peers(s.subrange(0, i + 1)));
        }
        i = i + 1;
    }
    proof {
        assert(s.subrange(0, s.len() as int) =~= s);
    }
    sha256(out.as_slice())
}

// ---------------------------------------------------------------------
// The persisted peer list.
// ---------------------------------------------------------------------

/// A peer as advertised or persisted: identifier and address.
#[derive(Clone, Copy, Debug, PartialEq, Eq)]
pub struct AdvertisedNode {
    pub id: Uuid,
    pub addr: NodeAddr,
}

/// Mathematical image of an advertised peer.
#[verifier::ext_equal]
pub ghost struct AdvV {
    pub id: Seq<u8>,
    pub addr: crate::data::AddrV,
}

impl View for AdvertisedNode {
    type V = AdvV;

    open spec fn view(&self) -> AdvV {
        AdvV { id: self.id@, addr: self.addr@ }
    }
}

/// The views of an advertised-peer vector.
pub open spec fn advs_v(s: Seq<AdvertisedNode>) -> Seq<AdvV> {
    s.map_values(|e: AdvertisedNode| e@)
}

/// Whether the list names a peer.
pub open spec fn has_adv_id(s: Seq<AdvV>, id: Seq<u8>) -> bool {
    exists|i: int| 0 <= i < s.len() && (#[trigger] s[i]).id == id
}

/// The keep-test for lines of the previously saved list: only peers the
/// fresh list does not name survive.
pub open spec fn absent_pred(cur: Seq<AdvV>) -> spec_fn(AdvertisedNode) -> bool {
    |p: AdvertisedNode| !has_adv_id(cur, p@.id)
}

/// Decides whether the list names a peer.
fn contains_adv(v: &Vec<AdvertisedNode>, id: &Uuid) -> (r: bool)
    ensures
        r == has_adv_id(advs_v(v@), id@),
{
    let mut k: usize = 0;
    while k < v.len()
        invariant
            k <= v@.len(),
            forall|i: int| 0 <= i < k ==> (#[trigger] v@[i])@.id != id@,
        decreases v@.len() - k,
    {
        if fb32_eq(&v[k].id, id) {
            proof {
                assert(advs_v(v@)[k as int].id == id@);
            }
            return true;
        }
        k = k + 1;
    }
    proof {
        assert forall|i: int| 0 <= i < advs_v(v@).len() implies (#[trigger] advs_v(v@)[i]).id
            != id@ by {
            assert(advs_v(v@)[i] == v@[i]@);
        }
    }
    false
}

/// Merges the fresh peer list with the previously saved one: every
/// fresh line is kept, and saved lines survive unless the fresh list
/// names their peer, so identifiers never silently disappear from disk.
pub fn merge_peer_lists(current: &Vec<AdvertisedNode>, previous: &Vec<AdvertisedNode>) -> (r: Vec<
    AdvertisedNode,
>)
    ensures
        r@ == current@ + previous@.filter(absent_pred(advs_v(current@))),
{
    let mut r: Vec<AdvertisedNode> = Vec::new();
    let mut i: usize = 0;
    while i < current.len()
        invariant
            i <= current@.len(),
            r@ =~= current@.subrange(0, i as int),
        decreases current@.len() - i,
    {
        r.push(current[i]);
        proof {
            assert(current@.subrange(0, i + 1) =~= current@.subrange(0, i as int).push(
                current@[i as int],
            ));
        }
        i = i + 1;
    }
    proof {
        assert(current@.subrange(0, current@.len() as int) =~= current@);
        reveal(Seq::filter);
        assert(previous@.subrange(0, 0).filter(absent_pred(advs_v(current@))) =~= Seq::<
            AdvertisedNode,
        >::empty());
    }
    let mut j: usize = 0;
    while j < previous.len()
        invariant
            j <= previous@.len(),
            r@ == current@ + previous@.subrange(0, j as int).filter(
                absent_pred(advs_v(current@)),
            ),
        decreases previous@.len() - j,
    {
        let keep = !contains_adv(current, &previous[j].id);
        if keep {
            r.push(previous[j]);
        }
        proof {
            reveal(Seq::filter);
            let pp = absent_pred(advs_v(current@));
            let pre = previous@.subrange(0, j as int);
            let s1 = previous@.subrange(0, j + 1);
            assert(s1.drop_last() =~= pre);
            assert(s1.last() == previous@[j as int]);
            assert(pp(previous@[j as int]) == keep);
            if keep {
                assert(r@ =~= current@ + pre.filter(pp).push(previous@[j as int]));
                assert(s1.filter(pp) =~= pre.filter(pp).push(previous@[j as int]));
            } else {
                assert(s1.filter(pp) =~= pre.filter(pp));
            }
        }
        j = j + 1;
    }
    proof {
        assert(previous@.subrange(0, previous@.len() as int) =~= previous@);
    }
    r
}

/// Upserting one peer leaves every other peer's entry alone.
pub proof fn lemma_find_upsert_other(s: Seq<PeerV>, e: PeerV, x: Seq<u8>)
    requires
        x != e.id,
    ensures
        find_peer(upsert_peer(s, e), x) == find_peer(s, x),
    decreases s.len(),
{
    if s.len() == 0 {
        let m = upsert_peer(s, e);
        assert(m == seq![e]);
        assert(m.drop_first() =~= Seq::<PeerV>::empty());
        assert(m[0] == e);
        assert(find_peer(m, x) == find_peer(m.drop_first(), x));
        assert(find_peer(m.drop_first(), x) is None);
    } else if bytes_lt(s[0].id, e.id) {
        lemma_find_upsert_other(s.drop_first(), e, x);
        let m = upsert_peer(s, e);
        assert(m == seq![s[0]] + upsert_peer(s.drop_first(), e));
        assert(m[0] == s[0]);
        assert(m.drop_first() =~= upsert_peer(s.drop_first(), e));
        if s[0].id == x {
            assert(find_peer(m, x) == Some(s[0]));
            assert(find_peer(s, x) == Some(s[0]));
        } else {
            assert(find_peer(m, x) == find_peer(m.drop_first(), x));
            assert(find_peer(s, x) == find_peer(s.drop_first(), x));
        }
    } else if s[0].id == e.id {
        let m = upsert_peer(s, e);
        assert(m == seq![e] + s.drop_first());
        assert(m[0] == e);
        assert(m.drop_first() =~= s.drop_first());
        assert(find_peer(m, x) == find_peer(m.drop_first(), x));
        assert(find_peer(s, x) == find_peer(s.drop_first(), x));
    } else {
        let m = upsert_peer(s, e);
        assert(m == seq![e] + s);
        assert(m[0] == e);
        assert(m.drop_first() =~= s);
        assert(find_peer(m, x) == find_peer(m.drop_first(), x));
    }
}

} // verus!
