//! The routing ring: virtual tokens derived from the layout, sorted by
//! position, and the zone-diverse walk that picks replicas for a key.
//!
//! Each storage node contributes a number of tokens scaled by its
//! capacity; a token's position is the Sha-256 of the node identifier, a
//! separator, and the token index. The ring is the sorted list of all
//! tokens, and is a pure function of the layout.

use vstd::prelude::*;
use vstd::relations::{sorted_by, total_ordering};

use crate::codec::enc_u64;
use crate::data::{
    bytes_lt, fb32_cmp, lemma_bytes_lt_transitive, lemma_bytes_lt_trichotomy, Cmp, HashVal, Uuid,
};
use crate::digest::{sha256, sha256_of};
use crate::layout::{entries_sorted, entries_v, layout_wf, ClusterLayout, EntryV, LayoutV, RoleEntry};
use vstd::multiset::Multiset;

verus! {

/// Virtual tokens per unit of capacity.
pub const BASE_TOKENS: u64 = 16;

/// A capacity at or above this many units saturates a node's token count.
pub const TOKEN_CAP_UNITS: u64 = 4096;

/// The most tokens one node contributes.
pub const MAX_NODE_TOKENS: u64 = 65536;

/// One virtual token: a position on the ring, the node that owns it, and
/// the 64-bit hash of the node's zone.
#[derive(Clone, Debug, PartialEq, Eq)]
pub struct RingEntry {
    pub location: HashVal,
    pub node: Uuid,
    pub datacenter: u64,
}

/// Mathematical image of a ring entry.
#[verifier::ext_equal]
pub ghost struct REntryV {
    pub location: Seq<u8>,
    pub node: Seq<u8>,
    pub datacenter: u64,
}

impl View for RingEntry {
    type V = REntryV;

    open spec fn view(&self) -> REntryV {
        REntryV { location: self.location@, node: self.node@, datacenter: self.datacenter }
    }
}

/// The views of a token vector.
pub open spec fn rentries_v(s: Seq<RingEntry>) -> Seq<REntryV> {
    s.map_values(|e: RingEntry| e@)
}

/// The ring: the layout it was built from, the sorted token list, and
/// the number of distinct zone hashes on the ring.
pub struct Ring {
    pub layout: ClusterLayout,
    pub ring: Vec<RingEntry>,
    pub n_datacenters: usize,
}

/// Mathematical image of a ring.
#[verifier::ext_equal]
pub ghost struct RingV {
    pub layout: LayoutV,
    pub ring: Seq<REntryV>,
    pub n_datacenters: usize,
}

impl View for Ring {
    type V = RingV;

    open spec fn view(&self) -> RingV {
        RingV {
            layout: self.layout@,
            ring: rentries_v(self.ring@),
            n_datacenters: self.n_datacenters,
        }
    }
}

// ---------------------------------------------------------------------
// The token order: by position, then node, then zone hash. A total
// order, so a sorted token multiset has exactly one arrangement.
// ---------------------------------------------------------------------

/// Strict order on tokens.
pub open spec fn ring_lt(x: REntryV, y: REntryV) -> bool {
    ||| bytes_lt(x.location, y.location)
    ||| (x.location == y.location && bytes_lt(x.node, y.node))
    ||| (x.location == y.location && x.node == y.node && x.datacenter < y.datacenter)
}

/// The token order, admitting equality.
pub open spec fn ring_le() -> spec_fn(REntryV, REntryV) -> bool {
    |x: REntryV, y: REntryV| ring_lt(x, y) || x == y
}

/// The token order is a total ordering.
pub proof fn lemma_ring_le_total()
    ensures
        total_ordering(ring_le()),
{
    let leq = ring_le();
    assert forall|x: REntryV, y: REntryV| #[trigger] leq(x, y) || #[trigger] leq(y, x) by {
        lemma_bytes_lt_trichotomy(x.location, y.location);
        lemma_bytes_lt_trichotomy(x.node, y.node);
        if x.location == y.location && x.node == y.node && x.datacenter == y.datacenter {
            assert(x =~= y);
        }
    }
    assert forall|x: REntryV, y: REntryV| #[trigger] leq(x, y) && #[trigger] leq(y, x) implies x
        == y by {
        lemma_bytes_lt_trichotomy(x.location, y.location);
        lemma_bytes_lt_trichotomy(x.node, y.node);
        if x.location == y.location && x.node == y.node && x.datacenter == y.datacenter {
            assert(x =~= y);
        }
    }
    assert forall|x: REntryV, y: REntryV, z: REntryV|
        #[trigger] leq(x, y) && #[trigger] leq(y, z) implies leq(x, z) by {
        lemma_ring_lt_transitive_cases(x, y, z);
    }
}

/// Transitivity of the strict token order, case by case.
proof fn lemma_ring_lt_transitive_cases(x: REntryV, y: REntryV, z: REntryV)
    ensures
        ring_lt(x, y) && ring_lt(y, z) ==> ring_lt(x, z),
        ring_lt(x, y) && y == z ==> ring_lt(x, z),
        x == y && ring_lt(y, z) ==> ring_lt(x, z),
{
    if ring_lt(x, y) && ring_lt(y, z) {
        if bytes_lt(x.location, y.location) && bytes_lt(y.location, z.location) {
            lemma_bytes_lt_transitive(x.location, y.location, z.location);
        } else if x.location == y.location && x.node == y.node {
        } else if y.location == z.location && y.node == z.node {
        } else if x.location == y.location && y.location == z.location {
            if bytes_lt(x.node, y.node) && bytes_lt(y.node, z.node) {
                lemma_bytes_lt_transitive(x.node, y.node, z.node);
            }
        }
    }
}

/// Decides the token order.
pub fn ring_cmp(a: &RingEntry, b: &RingEntry) -> (r: Cmp)
    ensures
        r == Cmp::Lt ==> ring_lt(a@, b@),
        r == Cmp::Gt ==> ring_lt(b@, a@),
        r == Cmp::Eq ==> a@ == b@,
{
    match fb32_cmp(&a.location, &b.location) {
        Cmp::Lt => Cmp::Lt,
        Cmp::Gt => Cmp::Gt,
        Cmp::Eq => match fb32_cmp(&a.node, &b.node) {
            Cmp::Lt => Cmp::Lt,
            Cmp::Gt => Cmp::Gt,
            Cmp::Eq => {
                if a.datacenter < b.datacenter {
                    Cmp::Lt
                } else if a.datacenter > b.datacenter {
                    Cmp::Gt
                } else {
                    proof {
                        assert(a@ =~= b@);
                    }
                    Cmp::Eq
                }
            },
        },
    }
}

// ---------------------------------------------------------------------
// Tokens of a layout.
// ---------------------------------------------------------------------

/// Whether a table line makes its node a storage node: a role with a
/// positive capacity.
pub open spec fn is_storage(e: EntryV) -> bool {
    match e.role {
        Some(r) => match r.capacity {
            Some(c) => c > 0,
            None => false,
        },
        None => false,
    }
}

/// `is_storage` as a predicate value.
pub open spec fn storage_pred() -> spec_fn(EntryV) -> bool {
    |e: EntryV| is_storage(e)
}

/// The capacity a table line declares, with zero for gateways and
/// removals.
pub open spec fn entry_capacity(e: EntryV) -> u64 {
    match e.role {
        Some(r) => match r.capacity {
            Some(c) => c,
            None => 0,
        },
        None => 0,
    }
}

/// The zone a table line names.
pub open spec fn entry_zone(e: EntryV) -> Seq<u8> {
    match e.role {
        Some(r) => r.zone,
        None => Seq::empty(),
    }
}

/// How many tokens a capacity earns: `BASE_TOKENS` per unit, saturated
/// at `BASE_TOKENS * TOKEN_CAP_UNITS`.
pub open spec fn tokens_for(c: u64) -> int {
    if c >= TOKEN_CAP_UNITS {
        MAX_NODE_TOKENS as int
    } else {
        BASE_TOKENS * c
    }
}

/// The separator between the node identifier and the token index in a
/// token's hash input.
pub open spec fn token_sep() -> Seq<u8> {
    seq![116u8, 111u8, 107u8, 101u8, 110u8]
}

/// The bytes hashed to place token `i` of a node.
pub open spec fn token_input(node: Seq<u8>, i: int) -> Seq<u8> {
    node + token_sep() + enc_u64(i as u64)
}

/// The position of token `i` of a node.
pub open spec fn token_location(node: Seq<u8>, i: int) -> Seq<u8> {
    sha256_of(token_input(node, i))
}

/// The 64-bit zone hash: the first eight bytes of the zone's Sha-256.
pub open spec fn zone_hash_v(zone: Seq<u8>) -> u64 {
    vstd::bytes::spec_u64_from_le_bytes(sha256_of(zone).subrange(0, 8))
}

/// All tokens one table line contributes.
pub open spec fn tokens_of_entry(e: EntryV) -> Seq<REntryV> {
    Seq::new(
        tokens_for(entry_capacity(e)) as nat,
        |i: int|
            REntryV {
                location: token_location(e.node, i),
                node: e.node,
                datacenter: zone_hash_v(entry_zone(e)),
            },
    )
}

/// All tokens of a committed table, in table order.
pub open spec fn spec_tokens(roles: Seq<EntryV>) -> Seq<REntryV>
    decreases roles.len(),
{
    if roles.len() == 0 {
        Seq::empty()
    } else {
        (if is_storage(roles[0]) {
            tokens_of_entry(roles[0])
        } else {
            Seq::empty()
        }) + spec_tokens(roles.drop_first())
    }
}

/// One more table line contributes its tokens at the end.
pub proof fn lemma_spec_tokens_push(s: Seq<EntryV>, e: EntryV)
    ensures
        spec_tokens(s.push(e)) =~= spec_tokens(s) + (if is_storage(e) {
            tokens_of_entry(e)
        } else {
            Seq::<REntryV>::empty()
        }),
    decreases s.len(),
{
    let p = s.push(e);
    assert(spec_tokens(p) == (if is_storage(p[0]) {
        tokens_of_entry(p[0])
    } else {
        Seq::<REntryV>::empty()
    }) + spec_tokens(p.drop_first()));
    if s.len() == 0 {
        assert(p[0] == e);
        assert(p.drop_first() =~= Seq::<EntryV>::empty());
        assert(spec_tokens(p.drop_first()) == Seq::<REntryV>::empty());
    } else {
        assert(p[0] == s[0]);
        assert(p.drop_first() =~= s.drop_first().push(e));
        lemma_spec_tokens_push(s.drop_first(), e);
        assert(spec_tokens(s) == (if is_storage(s[0]) {
            tokens_of_entry(s[0])
        } else {
            Seq::<REntryV>::empty()
        }) + spec_tokens(s.drop_first()));
    }
}

// ---------------------------------------------------------------------
// What it means to be the ring of a layout.
// ---------------------------------------------------------------------

/// The ring holds exactly the layout's tokens, in sorted order.
pub open spec fn is_build_of(ring: Seq<REntryV>, roles: Seq<EntryV>) -> bool {
    &&& sorted_by(ring, ring_le())
    &&& ring.to_multiset() == spec_tokens(roles).to_multiset()
}

/// A token names a storage node of the table and carries that node's
/// zone hash.
pub open spec fn ring_entry_from(roles: Seq<EntryV>, e: REntryV) -> bool {
    exists|j: int|
        0 <= j < roles.len() && is_storage(#[trigger] roles[j]) && roles[j].node == e.node
            && zone_hash_v(entry_zone(roles[j])) == e.datacenter
}

/// Some token on the ring belongs to node `n`.
pub open spec fn ring_has_node(ring: Seq<REntryV>, n: Seq<u8>) -> bool {
    exists|k: int| 0 <= k < ring.len() && (#[trigger] ring[k]).node == n
}

/// The set of zone hashes present on the ring.
pub open spec fn ring_zone_set(ring: Seq<REntryV>) -> Set<u64> {
    ring.map_values(|e: REntryV| e.datacenter).to_set()
}

/// Well-formedness of a ring: built from its own well-formed layout,
/// every token from a storage line, every storage node present, and the
/// zone count correct.
pub open spec fn ring_wf(rv: RingV) -> bool {
    &&& layout_wf(rv.layout)
    &&& is_build_of(rv.ring, rv.layout.roles)
    &&& forall|k: int|
        0 <= k < rv.ring.len() ==> ring_entry_from(rv.layout.roles, #[trigger] rv.ring[k])
    &&& forall|j: int|
        0 <= j < rv.layout.roles.len() && is_storage(#[trigger] rv.layout.roles[j])
            ==> ring_has_node(rv.ring, rv.layout.roles[j].node)
    &&& rv.n_datacenters == ring_zone_set(rv.ring).len()
}

impl Ring {
    /// Well-formedness of the executable ring.
    pub open spec fn wf(&self) -> bool {
        ring_wf(self@)
    }
}

// ---------------------------------------------------------------------
// Building the ring.
// ---------------------------------------------------------------------

/// Computes the 64-bit zone hash of a zone name.
pub fn zone_hash(zone: &Vec<u8>) -> (r: u64)
    ensures
        r == zone_hash_v(zone@),
{
    let h = sha256(zone.as_slice());
    let s = vstd::slice::slice_subrange(h.b.as_slice(), 0, 8);
    vstd::bytes::u64_from_le_bytes(s)
}

/// Computes the position of token `i` of a node.
fn token_location_exec(node: &Uuid, i: u64) -> (r: HashVal)
    ensures
        r@ == token_location(node@, i as int),
{
    let mut input: Vec<u8> = Vec::new();
    let mut k: usize = 0;
    while k < 32
        invariant
            k <= 32,
            input@ =~= node@.subrange(0, k as int),
        decreases 32 - k,
    {
        input.push(node.b[k]);
        proof {
            assert(node@.subrange(0, k + 1) =~= node@.subrange(0, k as int).push(node@[k as int]));
        }
        k = k + 1;
    }
    input.push(116u8);
    input.push(111u8);
    input.push(107u8);
    input.push(101u8);
    input.push(110u8);
    let ghost before = input@;
    crate::codec::enc_u64_into(&mut input, i);
    proof {
        assert(node@.subrange(0, 32) =~= node@);
        assert(before =~= node@ + token_sep());
        assert(input@ =~= token_input(node@, i as int));
    }
    sha256(input.as_slice())
}

/// Inserting at a position between smaller and not-smaller tokens keeps
/// the list sorted.
proof fn lemma_sorted_by_insert(s: Seq<REntryV>, e: REntryV, p: int)
    requires
        sorted_by(s, ring_le()),
        0 <= p <= s.len(),
        forall|i: int| 0 <= i < p ==> ring_lt(#[trigger] s[i], e),
        forall|i: int| p <= i < s.len() ==> ring_le()(e, #[trigger] s[i]),
    ensures
        sorted_by(s.insert(p, e), ring_le()),
{
    let t = s.insert(p, e);
    assert forall|x: int, y: int| 0 <= x < y < t.len() implies #[trigger] ring_le()(t[x], t[y]) by {
        if x < p {
            assert(t[x] == s[x]);
        }
        if y < p {
            assert(t[y] == s[y]);
        }
        if x > p {
            assert(t[x] == s[x - 1]);
        }
        if y > p {
            assert(t[y] == s[y - 1]);
        }
        if x == p {
            assert(t[x] == e);
        }
        if y == p {
            assert(t[y] == e);
        }
    }
}

/// Finds where a token belongs in a sorted list.
fn ring_insert_pos(out: &Vec<RingEntry>, e: &RingEntry) -> (p: usize)
    requires
        sorted_by(rentries_v(out@), ring_le()),
    ensures
        p <= out@.len(),
        forall|i: int| 0 <= i < p ==> ring_lt(#[trigger] rentries_v(out@)[i], e@),
        forall|i: int| p <= i < out@.len() ==> ring_le()(e@, #[trigger] rentries_v(out@)[i]),
{
    let ghost s = rentries_v(out@);
    let n = out.len();
    let mut k: usize = 0;
    while k < n
        invariant
            k <= n,
            n == out@.len(),
            s == rentries_v(out@),
            sorted_by(s, ring_le()),
            forall|i: int| 0 <= i < k ==> ring_lt(#[trigger] s[i], e@),
        decreases n - k,
    {
        match ring_cmp(&out[k], e) {
            Cmp::Lt => {
                k = k + 1;
            },
            _ => {
                proof {
                    lemma_bytes_lt_trichotomy(s[k as int].location, e@.location);
                    lemma_bytes_lt_trichotomy(s[k as int].node, e@.node);
                    assert(ring_le()(e@, s[k as int])) by {
                        lemma_ring_lt_transitive_cases(e@, s[k as int], s[k as int]);
                    }
                    assert forall|i: int| k < i < n implies ring_le()(e@, #[trigger] s[i]) by {
                        assert(ring_le()(s[k as int], s[i]));
                        lemma_ring_lt_transitive_cases(e@, s[k as int], s[i]);
                    }
                }
                return k;
            },
        }
    }
    k
}

/// Decides whether a zone hash was already collected.
fn contains_u64(v: &Vec<u64>, x: u64) -> (r: bool)
    ensures
        r == v@.contains(x),
{
    let mut k: usize = 0;
    while k < v.len()
        invariant
            k <= v@.len(),
            forall|i: int| 0 <= i < k ==> v@[i] != x,
        decreases v@.len() - k,
    {
        if v[k] == x {
            return true;
        }
        k = k + 1;
    }
    proof {
        assert forall|i: int| 0 <= i < v@.len() implies v@[i] != x by {}
    }
    false
}

/// Builds the sorted token list of a committed table.
fn build_tokens(roles: &Vec<RoleEntry>) -> (out: Vec<RingEntry>)
    ensures
        is_build_of(rentries_v(out@), entries_v(roles@)),
        forall|k: int|
            0 <= k < out@.len() ==> ring_entry_from(
                entries_v(roles@),
                #[trigger] rentries_v(out@)[k],
            ),
        forall|j: int|
            0 <= j < roles@.len() && is_storage(#[trigger] entries_v(roles@)[j]) ==> ring_has_node(
                rentries_v(out@),
                entries_v(roles@)[j].node,
            ),
{
    let ghost rv = entries_v(roles@);
    let mut out: Vec<RingEntry> = Vec::new();
    let mut j: usize = 0;
    proof {
        broadcast use vstd::seq_lib::group_to_multiset_ensures;

        assert(rentries_v(out@) =~= Seq::<REntryV>::empty());
        assert(spec_tokens(rv.subrange(0, 0)) == Seq::<REntryV>::empty());
        assert(rentries_v(out@).to_multiset() =~= spec_tokens(rv.subrange(0, 0)).to_multiset());
    }
    while j < roles.len()
        invariant
            j <= rv.len(),
            rv == entries_v(roles@),
            sorted_by(rentries_v(out@), ring_le()),
            rentries_v(out@).to_multiset() == spec_tokens(rv.subrange(0, j as int)).to_multiset(),
            forall|k: int|
                0 <= k < out@.len() ==> ring_entry_from(rv, #[trigger] rentries_v(out@)[k]),
            forall|jj: int|
                0 <= jj < j && is_storage(#[trigger] rv[jj]) ==> ring_has_node(
                    rentries_v(out@),
                    rv[jj].node,
                ),
        decreases rv.len() - j,
    {
        let ghost ev = rv[j as int];
        let entry = &roles[j];
        let mut cap: u64 = 0;
        let mut zone_h: u64 = 0;
        match &entry.role {
            Some(role) => {
                match role.capacity {
                    Some(c) => {
                        cap = c;
                        zone_h = zone_hash(&role.zone);
                    },
                    None => {},
                }
            },
            None => {},
        }
        proof {
            assert(cap == entry_capacity(ev));
            assert(is_storage(ev) ==> zone_h == zone_hash_v(entry_zone(ev)));
        }
        if cap > 0 {
            let nt: u64 = if cap >= TOKEN_CAP_UNITS {
                MAX_NODE_TOKENS
            } else {
                BASE_TOKENS * cap
            };
            proof {
                broadcast use vstd::seq_lib::group_to_multiset_ensures;
                broadcast use vstd::multiset::group_multiset_axioms;

                assert(nt == tokens_for(cap));
                assert(tokens_of_entry(ev).len() == nt);
                assert(tokens_of_entry(ev).subrange(0, 0) =~= Seq::<REntryV>::empty());
                assert(tokens_of_entry(ev).subrange(0, 0).to_multiset().len() == 0);
                assert(spec_tokens(rv.subrange(0, j as int)).to_multiset().add(
                    tokens_of_entry(ev).subrange(0, 0).to_multiset(),
                ) =~= spec_tokens(rv.subrange(0, j as int)).to_multiset());
            }
            let mut ti: u64 = 0;
            while ti < nt
                invariant
                    ti <= nt,
                    nt == tokens_for(entry_capacity(ev)),
                    nt <= 65536,
                    is_storage(ev),
                    ev == rv[j as int],
                    0 <= j < rv.len(),
                    rv == entries_v(roles@),
                    cap == entry_capacity(ev),
                    zone_h == zone_hash_v(entry_zone(ev)),
                    entry == &roles[j as int],
                    entry@ == ev,
                    sorted_by(rentries_v(out@), ring_le()),
                    rentries_v(out@).to_multiset() == spec_tokens(
                        rv.subrange(0, j as int),
                    ).to_multiset().add(tokens_of_entry(ev).subrange(0, ti as int).to_multiset()),
                    forall|k: int|
                        0 <= k < out@.len() ==> ring_entry_from(rv, #[trigger] rentries_v(out@)[k]),
                    forall|jj: int|
                        0 <= jj < j && is_storage(#[trigger] rv[jj]) ==> ring_has_node(
                            rentries_v(out@),
                            rv[jj].node,
                        ),
                    ti > 0 ==> ring_has_node(rentries_v(out@), ev.node),
                decreases nt - ti,
            {
                let loc = token_location_exec(&entry.node, ti);
                let re = RingEntry { location: loc, node: entry.node, datacenter: zone_h };
                proof {
                    assert(re@ =~= tokens_of_entry(ev)[ti as int]);
                }
                let p = ring_insert_pos(&out, &re);
                let ghost s0 = rentries_v(out@);
                out.insert(p, re);
                proof {
                    broadcast use vstd::seq_lib::group_to_multiset_ensures;

                    assert(rentries_v(out@) =~= s0.insert(p as int, re@));
                    lemma_sorted_by_insert(s0, re@, p as int);
                    assert(tokens_of_entry(ev).subrange(0, ti + 1) =~= tokens_of_entry(
                        ev,
                    ).subrange(0, ti as int).push(tokens_of_entry(ev)[ti as int]));
                    assert(rentries_v(out@).to_multiset() =~= s0.to_multiset().insert(re@));
                    assert forall|k: int| 0 <= k < out@.len() implies ring_entry_from(
                        rv,
                        #[trigger] rentries_v(out@)[k],
                    ) by {
                        if k < p {
                            assert(rentries_v(out@)[k] == s0[k]);
                        } else if k == p {
                            assert(rentries_v(out@)[k] == re@);
                            assert(is_storage(rv[j as int]) && rv[j as int].node == re@.node
                                && zone_hash_v(entry_zone(rv[j as int])) == re@.datacenter);
                        } else {
                            assert(rentries_v(out@)[k] == s0[k - 1]);
                        }
                    }
                    assert forall|jj: int|
                        0 <= jj < j && is_storage(#[trigger] rv[jj]) implies ring_has_node(
                        rentries_v(out@),
                        rv[jj].node,
                    ) by {
                        let w = choose|w: int| 0 <= w < s0.len() && (#[trigger] s0[w]).node == rv[jj].node;
                        if w < p {
                            assert(rentries_v(out@)[w] == s0[w]);
                        } else {
                            assert(rentries_v(out@)[w + 1] == s0[w]);
                        }
                    }
                    assert(rentries_v(out@)[p as int] == re@);
                    assert(ring_has_node(rentries_v(out@), ev.node));
                }
                ti = ti + 1;
            }
            proof {
                assert(tokens_of_entry(ev).subrange(0, nt as int) =~= tokens_of_entry(ev));
            }
        }
        proof {
            broadcast use vstd::seq_lib::group_to_multiset_ensures;

            assert(rv.subrange(0, j + 1) =~= rv.subrange(0, j as int).push(rv[j as int]));
            lemma_spec_tokens_push(rv.subrange(0, j as int), rv[j as int]);
            vstd::seq_lib::lemma_multiset_commutative(
                spec_tokens(rv.subrange(0, j as int)),
                if is_storage(ev) {
                    tokens_of_entry(ev)
                } else {
                    Seq::<REntryV>::empty()
                },
            );
            if !is_storage(ev) {
                assert(tokens_of_entry(ev).subrange(0, 0) =~= Seq::<REntryV>::empty());
                assert(Seq::<REntryV>::empty().to_multiset() =~= Multiset::<REntryV>::empty());
            }
            assert(rentries_v(out@).to_multiset() =~= spec_tokens(rv.subrange(0, j + 1)).to_multiset());
        }
        j = j + 1;
    }
    proof {
        assert(rv.subrange(0, rv.len() as int) =~= rv);
    }
    out
}

/// Counts the distinct zone hashes on a token list.
fn count_zones(out: &Vec<RingEntry>) -> (n: usize)
    ensures
        n == ring_zone_set(rentries_v(out@)).len(),
{
    let ghost full = rentries_v(out@).map_values(|e: REntryV| e.datacenter);
    let mut dcs: Vec<u64> = Vec::new();
    let mut k: usize = 0;
    proof {
        assert(dcs@.to_set() =~= full.subrange(0, 0).to_set());
    }
    while k < out.len()
        invariant
            k <= out@.len(),
            full == rentries_v(out@).map_values(|e: REntryV| e.datacenter),
            full.len() == out@.len(),
            dcs@.no_duplicates(),
            dcs@.to_set() == full.subrange(0, k as int).to_set(),
        decreases out@.len() - k,
    {
        let dc = out[k].datacenter;
        proof {
            assert(full[k as int] == dc);
            assert(full.subrange(0, k + 1) =~= full.subrange(0, k as int).push(dc));
        }
        if !contains_u64(&dcs, dc) {
            let ghost d0 = dcs@;
            dcs.push(dc);
            proof {
                d0.lemma_push_to_set_commute(dc);
                assert(dcs@ =~= d0.push(dc));
                assert(dcs@.to_set() =~= d0.to_set().insert(dc));
                full.subrange(0, k as int).lemma_push_to_set_commute(dc);
                assert(full.subrange(0, k + 1).to_set() =~= full.subrange(
                    0,
                    k as int,
                ).to_set().insert(dc));
                assert forall|x: int, y: int|
                    0 <= x < y < dcs@.len() implies dcs@[x] != dcs@[y] by {
                    if y < d0.len() {
                    } else {
                        assert(dcs@[y] == dc);
                        assert(!d0.contains(dc));
                    }
                }
            }
        } else {
            proof {
                full.subrange(0, k as int).lemma_push_to_set_commute(dc);
                assert(full.subrange(0, k + 1).to_set() =~= full.subrange(
                    0,
                    k as int,
                ).to_set().insert(dc));
                assert(dcs@.to_set().contains(dc));
                assert(dcs@.to_set() =~= dcs@.to_set().insert(dc));
            }
        }
        k = k + 1;
    }
    proof {
        assert(full.subrange(0, full.len() as int) =~= full);
        dcs@.unique_seq_to_set();
    }
    dcs.len()
}

impl Ring {
    /// Recomputes the token list and the zone count from the layout.
    pub fn rebuild_ring(&mut self)
        requires
            old(self).layout.wf(),
        ensures
            final(self)@.layout == old(self)@.layout,
            final(self).wf(),
    {
        let out = build_tokens(&self.layout.roles);
        let n = count_zones(&out);
        self.ring = out;
        self.n_datacenters = n;
    }

    /// Builds the ring of a layout.
    pub fn new(layout: ClusterLayout) -> (r: Ring)
        requires
            layout.wf(),
        ensures
            r.wf(),
            r@.layout == layout@,
    {
        let mut r = Ring { layout, ring: Vec::new(), n_datacenters: 0 };
        r.rebuild_ring();
        r
    }
}

// ---------------------------------------------------------------------
// The walk: from a key's position, clockwise, collecting nodes under
// the zone-diversity rule.
// ---------------------------------------------------------------------

/// The views of a node list.
pub open spec fn nodes_v(s: Seq<Uuid>) -> Seq<Seq<u8>> {
    s.map_values(|u: Uuid| u@)
}

/// Whether the walk takes the node at this token: a new node is taken
/// when its zone is new, or when every zone on the ring has been seen.
pub open spec fn step_ret(e: REntryV, nz: int, ret: Seq<Seq<u8>>, seen: Seq<u64>) -> Seq<Seq<u8>> {
    if !ret.contains(e.node) && (!seen.contains(e.datacenter) || seen.len() == nz) {
        ret.push(e.node)
    } else {
        ret
    }
}

/// The zones seen after a step: a taken node's new zone is recorded.
pub open spec fn step_seen(e: REntryV, nz: int, ret: Seq<Seq<u8>>, seen: Seq<u64>) -> Seq<u64> {
    if !ret.contains(e.node) && !seen.contains(e.datacenter) {
        seen.push(e.datacenter)
    } else {
        seen
    }
}

/// The walk, one token at a time: stops when `n` nodes are collected or
/// the fuel (two turns of the ring) is spent.
pub open spec fn walk_step(
    ring: Seq<REntryV>,
    nz: int,
    n: int,
    pos: int,
    fuel: nat,
    ret: Seq<Seq<u8>>,
    seen: Seq<u64>,
) -> Seq<Seq<u8>>
    decreases fuel,
{
    if ret.len() >= n || fuel == 0 || ring.len() == 0 {
        ret
    } else {
        let e = ring[pos];
        let np = if pos + 1 == ring.len() {
            0
        } else {
            pos + 1
        };
        walk_step(
            ring,
            nz,
            n,
            np,
            (fuel - 1) as nat,
            step_ret(e, nz, ret, seen),
            step_seen(e, nz, ret, seen),
        )
    }
}

/// The replica list the walk produces from a start position.
pub open spec fn spec_walk_from(rv: RingV, start: int, n: int) -> Seq<Seq<u8>> {
    walk_step(
        rv.ring,
        rv.n_datacenters as int,
        n,
        start,
        (2 * rv.ring.len()) as nat,
        Seq::empty(),
        Seq::empty(),
    )
}

/// The position reached after `delta` clockwise steps from `start`,
/// for at most two turns of a ring of length `len`.
pub open spec fn pos_at(start: int, delta: int, len: int) -> int {
    if start + delta < len {
        start + delta
    } else if start + delta < 2 * len {
        start + delta - len
    } else {
        start + delta - 2 * len
    }
}

/// The first token at or after a key's position; the ring wraps to its
/// first token when the key is beyond the last one.
pub open spec fn spec_start_from(ring: Seq<REntryV>, h: Seq<u8>, k: int) -> int
    decreases ring.len() - k,
{
    if k < 0 || k >= ring.len() {
        0
    } else if !bytes_lt(ring[k].location, h) {
        k
    } else {
        spec_start_from(ring, h, k + 1)
    }
}

/// Where the walk for key `h` starts.
pub open spec fn spec_start(ring: Seq<REntryV>, h: Seq<u8>) -> int {
    spec_start_from(ring, h, 0)
}

/// The storage lines of a committed table.
pub open spec fn storage_entries(roles: Seq<EntryV>) -> Seq<EntryV> {
    roles.filter(storage_pred())
}

/// The nodes that hold data, in table order.
pub open spec fn storage_node_ids(roles: Seq<EntryV>) -> Seq<Seq<u8>> {
    storage_entries(roles).map_values(|e: EntryV| e.node)
}

/// How many nodes hold data.
pub open spec fn storage_count(roles: Seq<EntryV>) -> int {
    storage_entries(roles).len() as int
}

/// Whether node `n` holds data under this table.
pub open spec fn is_storage_node(roles: Seq<EntryV>, n: Seq<u8>) -> bool {
    exists|j: int|
        0 <= j < roles.len() && is_storage(#[trigger] roles[j]) && roles[j].node == n
}

/// The zone hash of a storage node's zone.
pub open spec fn node_zone_hash(roles: Seq<EntryV>, n: Seq<u8>) -> u64 {
    let j = choose|j: int|
        0 <= j < roles.len() && is_storage(#[trigger] roles[j]) && roles[j].node == n;
    zone_hash_v(entry_zone(roles[j]))
}

/// The nodes of a list lie in pairwise distinct zones (by zone hash).
pub open spec fn zones_distinct(roles: Seq<EntryV>, nodes: Seq<Seq<u8>>) -> bool {
    forall|x: int, y: int|
        0 <= x < y < nodes.len() ==> node_zone_hash(roles, #[trigger] nodes[x]) != node_zone_hash(
            roles,
            #[trigger] nodes[y],
        )
}

/// The full walk contract: all storage nodes when `n` covers them,
/// otherwise the ring walk from the key's position.
pub open spec fn spec_walk(rv: RingV, h: Seq<u8>, n: int) -> Seq<Seq<u8>> {
    if n >= storage_count(rv.layout.roles) {
        storage_node_ids(rv.layout.roles)
    } else {
        spec_walk_from(rv, spec_start(rv.ring, h), n)
    }
}

/// In a sorted table, one node has at most one line.
proof fn lemma_roles_node_unique(roles: Seq<EntryV>, j1: int, j2: int)
    requires
        entries_sorted(roles),
        0 <= j1 < roles.len(),
        0 <= j2 < roles.len(),
        roles[j1].node == roles[j2].node,
    ensures
        j1 == j2,
{
    if j1 < j2 {
        assert(bytes_lt(roles[j1].node, roles[j2].node));
        lemma_bytes_lt_trichotomy(roles[j1].node, roles[j2].node);
    } else if j2 < j1 {
        assert(bytes_lt(roles[j2].node, roles[j1].node));
        lemma_bytes_lt_trichotomy(roles[j1].node, roles[j2].node);
    }
}

/// Every token's node stores data, and its zone hash is the node's.
proof fn lemma_ring_dc(rv: RingV, k: int)
    requires
        ring_wf(rv),
        0 <= k < rv.ring.len(),
    ensures
        is_storage_node(rv.layout.roles, rv.ring[k].node),
        node_zone_hash(rv.layout.roles, rv.ring[k].node) == rv.ring[k].datacenter,
{
    let roles = rv.layout.roles;
    assert(ring_entry_from(roles, rv.ring[k]));
    let j = choose|j: int|
        0 <= j < roles.len() && is_storage(#[trigger] roles[j]) && roles[j].node == rv.ring[k].node
            && zone_hash_v(entry_zone(roles[j])) == rv.ring[k].datacenter;
    assert(is_storage_node(roles, rv.ring[k].node));
    let j2 = choose|j2: int|
        0 <= j2 < roles.len() && is_storage(#[trigger] roles[j2]) && roles[j2].node == rv.ring[k].node;
    lemma_roles_node_unique(roles, j, j2);
}

/// Elements of a filtered table are lines of the table, and in a sorted
/// table their nodes are pairwise distinct.
proof fn lemma_storage_entries_distinct(roles: Seq<EntryV>)
    requires
        entries_sorted(roles),
    ensures
        forall|k: int|
            0 <= k < storage_entries(roles).len() ==> roles.contains(
                #[trigger] storage_entries(roles)[k],
            ),
        forall|k: int|
            0 <= k < storage_entries(roles).len() ==> is_storage(
                #[trigger] storage_entries(roles)[k],
            ),
        storage_node_ids(roles).no_duplicates(),
    decreases roles.len(),
{
    reveal(Seq::filter);
    let f = storage_entries(roles);
    if roles.len() == 0 {
    } else {
        let d = roles.drop_last();
        assert(entries_sorted(d)) by {
            assert forall|x: int, y: int| 0 <= x < y < d.len() implies bytes_lt(
                #[trigger] d[x].node,
                #[trigger] d[y].node,
            ) by {
                assert(d[x] == roles[x] && d[y] == roles[y]);
            }
        }
        lemma_storage_entries_distinct(d);
        let fd = storage_entries(d);
        assert forall|k: int| 0 <= k < f.len() implies roles.contains(#[trigger] f[k]) && is_storage(
            f[k],
        ) by {
            if k < fd.len() {
                assert(f[k] == fd[k]);
                let w = choose|w: int| 0 <= w < d.len() && d[w] == fd[k];
                assert(roles[w] == d[w]);
                assert(roles.contains(roles[w]));
            } else {
                assert(f[k] == roles.last());
                assert(roles.contains(roles[roles.len() - 1]));
            }
        }
        assert forall|x: int, y: int|
            0 <= x < y < storage_node_ids(roles).len() implies storage_node_ids(roles)[x]
            != storage_node_ids(roles)[y] by {
            if y < fd.len() {
                assert(storage_node_ids(d)[x] == storage_node_ids(roles)[x]);
                assert(storage_node_ids(d)[y] == storage_node_ids(roles)[y]);
            } else {
                assert(f[y] == roles.last());
                assert(f[x] == fd[x]);
                let w = choose|w: int| 0 <= w < d.len() && d[w] == fd[x];
                assert(bytes_lt(roles[w].node, roles[roles.len() - 1].node));
                lemma_bytes_lt_trichotomy(roles[w].node, roles[roles.len() - 1].node);
            }
        }
    }
}

/// Decides whether a node is already in a replica list.
fn contains_node(v: &Vec<Uuid>, n: &Uuid) -> (r: bool)
    ensures
        r == nodes_v(v@).contains(n@),
{
    let mut k: usize = 0;
    while k < v.len()
        invariant
            k <= v@.len(),
            forall|i: int| 0 <= i < k ==> (#[trigger] v@[i])@ != n@,
        decreases v@.len() - k,
    {
        if crate::data::fb32_eq(&v[k], n) {
            proof {
                assert(nodes_v(v@)[k as int] == n@);
            }
            return true;
        }
        k = k + 1;
    }
    proof {
        assert forall|i: int| 0 <= i < nodes_v(v@).len() implies nodes_v(v@)[i] != n@ by {
            assert(nodes_v(v@)[i] == v@[i]@);
        }
    }
    false
}

/// Lists the storage nodes of a committed table, in table order.
pub fn storage_nodes_exec(roles: &Vec<RoleEntry>) -> (r: Vec<Uuid>)
    ensures
        nodes_v(r@) == storage_node_ids(entries_v(roles@)),
{
    let ghost rv = entries_v(roles@);
    let mut r: Vec<Uuid> = Vec::new();
    let mut i: usize = 0;
    proof {
        reveal(Seq::filter);
        assert(rv.subrange(0, 0).filter(storage_pred()) =~= Seq::<EntryV>::empty());
        assert(nodes_v(r@) =~= rv.subrange(0, 0).filter(storage_pred()).map_values(
            |e: EntryV| e.node,
        ));
    }
    while i < roles.len()
        invariant
            i <= rv.len(),
            rv == entries_v(roles@),
            nodes_v(r@) == rv.subrange(0, i as int).filter(storage_pred()).map_values(
                |e: EntryV| e.node,
            ),
        decreases rv.len() - i,
    {
        let is_sto = match &roles[i].role {
            Some(role) => match role.capacity {
                Some(c) => c > 0,
                None => false,
            },
            None => false,
        };
        proof {
            assert(is_sto == is_storage(rv[i as int]));
        }
        if is_sto {
            r.push(roles[i].node);
        }
        proof {
            reveal(Seq::filter);
            let pre = rv.subrange(0, i as int);
            let s1 = rv.subrange(0, i + 1);
            assert(s1.drop_last() =~= pre);
            assert(s1.last() == rv[i as int]);
            assert(storage_pred()(rv[i as int]) == is_sto);
            if is_sto {
                assert(s1.filter(storage_pred()) =~= pre.filter(storage_pred()).push(
                    rv[i as int],
                ));
                assert(rv[i as int].node == roles@[i as int].node@);
                assert(s1.filter(storage_pred()).map_values(|e: EntryV| e.node) =~= pre.filter(
                    storage_pred(),
                ).map_values(|e: EntryV| e.node).push(rv[i as int].node));
                assert(nodes_v(r@) =~= s1.filter(storage_pred()).map_values(|e: EntryV| e.node));
            } else {
                assert(s1.filter(storage_pred()) =~= pre.filter(storage_pred()));
                assert(nodes_v(r@) =~= s1.filter(storage_pred()).map_values(|e: EntryV| e.node));
            }
        }
        i = i + 1;
    }
    proof {
        assert(rv.subrange(0, rv.len() as int) =~= rv);
    }
    r
}

/// Finds the first token at or after the key's position, wrapping to
/// the first token when the key lies beyond them all.
fn ring_lower_bound(ring: &Vec<RingEntry>, h: &HashVal) -> (p: usize)
    requires
        ring@.len() > 0,
    ensures
        p < ring@.len(),
        p as int == spec_start(rentries_v(ring@), h@),
{
    let ghost s = rentries_v(ring@);
    let mut k: usize = 0;
    while k < ring.len()
        invariant
            k <= s.len(),
            s == rentries_v(ring@),
            spec_start(s, h@) == spec_start_from(s, h@, k as int),
        decreases s.len() - k,
    {
        match fb32_cmp(&ring[k].location, h) {
            Cmp::Lt => {
                k = k + 1;
            },
            _ => {
                proof {
                    lemma_bytes_lt_trichotomy(s[k as int].location, h@);
                }
                return k;
            },
        }
    }
    0
}

/// Building is deterministic: one layout has exactly one sorted token
/// list, so two rings built from equal layouts are equal.
pub proof fn lemma_build_deterministic(r1: Seq<REntryV>, r2: Seq<REntryV>, roles: Seq<EntryV>)
    requires
        is_build_of(r1, roles),
        is_build_of(r2, roles),
    ensures
        r1 == r2,
{
    lemma_ring_le_total();
    vstd::seq_lib::lemma_sorted_unique(r1, r2, ring_le());
    assert(r1 =~= r2);
}

// ---------------------------------------------------------------------
// The executable walk.
// ---------------------------------------------------------------------

impl Ring {
    /// Walks the ring from a token position, collecting `n` replica
    /// nodes under the zone-diversity rule. Returns exactly `n`
    /// pairwise-distinct storage nodes; when `n` zones are available,
    /// the replicas lie in pairwise distinct zones.
    pub fn walk_ring_from_pos(&self, start: usize, n: usize) -> (r: Vec<Uuid>)
        requires
            self.wf(),
            start < self@.ring.len(),
            (n as int) < storage_count(self@.layout.roles),
        ensures
            nodes_v(r@) == spec_walk_from(self@, start as int, n as int),
            r@.len() == n,
            nodes_v(r@).no_duplicates(),
            forall|x: int|
                0 <= x < r@.len() ==> is_storage_node(
                    self@.layout.roles,
                    #[trigger] nodes_v(r@)[x],
                ),
            n <= self@.n_datacenters ==> zones_distinct(self@.layout.roles, nodes_v(r@)),
    {
        let ghost rv = self@;
        let ghost roles = self@.layout.roles;
        let ghost goal = spec_walk_from(self@, start as int, n as int);
        let ln = self.ring.len();
        let nz = self.n_datacenters;
        let mut ret: Vec<Uuid> = Vec::new();
        let mut seen: Vec<u64> = Vec::new();
        let mut pos = start;
        let mut d: usize = 0;
        proof {
            assert(nodes_v(ret@) =~= Seq::<Seq<u8>>::empty());
        }
        while d < ln && ret.len() < n
            invariant
                self.wf(),
                rv == self@,
                roles == rv.layout.roles,
                ln == rv.ring.len(),
                nz == rv.n_datacenters,
                (n as int) < storage_count(roles),
                d <= ln,
                pos < ln,
                pos as int == pos_at(start as int, d as int, ln as int),
                start < ln,
                ret@.len() <= n,
                nodes_v(ret@).no_duplicates(),
                seen@.no_duplicates(),
                seen@.len() <= ret@.len(),
                forall|i: int|
                    0 <= i < seen@.len() ==> ring_zone_set(rv.ring).contains(#[trigger] seen@[i]),
                forall|x: int|
                    0 <= x < ret@.len() ==> is_storage_node(roles, #[trigger] nodes_v(ret@)[x]),
                forall|x: int|
                    0 <= x < ret@.len() ==> seen@.contains(
                        node_zone_hash(roles, #[trigger] nodes_v(ret@)[x]),
                    ),
                goal == walk_step(
                    rv.ring,
                    nz as int,
                    n as int,
                    pos as int,
                    (2 * ln - d) as nat,
                    nodes_v(ret@),
                    seen@,
                ),
                forall|dd: int|
                    0 <= dd < d ==> seen@.contains(
                        rv.ring[pos_at(start as int, dd, ln as int)].datacenter,
                    ),
                n <= nz ==> (seen@.len() == ret@.len() && (forall|i: int|
                    0 <= i < ret@.len() ==> node_zone_hash(roles, #[trigger] nodes_v(ret@)[i])
                        == seen@[i])),
            decreases ln - d,
        {
            let ghost r0 = nodes_v(ret@);
            let ghost s0 = seen@;
            let ghost pos0 = pos as int;
            let ghost ev = rv.ring[pos as int];
            proof {
                lemma_ring_dc(rv, pos as int);
                assert(rv.ring.map_values(|e: REntryV| e.datacenter)[pos as int] == ev.datacenter);
                assert(ring_zone_set(rv.ring).contains(ev.datacenter));
            }
            let e_node = self.ring[pos].node;
            let e_dc = self.ring[pos].datacenter;
            proof {
                assert(e_node@ == ev.node && e_dc == ev.datacenter);
            }
            let in_ret = contains_node(&ret, &e_node);
            if !in_ret {
                let zone_seen = contains_u64(&seen, e_dc);
                if !zone_seen {
                    ret.push(e_node);
                    seen.push(e_dc);
                    proof {
                        assert(nodes_v(ret@) =~= r0.push(ev.node));
                        assert(seen@ =~= s0.push(ev.datacenter));
                    }
                } else if seen.len() == nz {
                    ret.push(e_node);
                    proof {
                        assert(nodes_v(ret@) =~= r0.push(ev.node));
                        if n <= nz {
                            assert(s0.len() == r0.len());
                            assert(r0.len() < n <= nz);
                            assert(false);
                        }
                    }
                }
            }
            proof {
                assert(nodes_v(ret@) =~= step_ret(ev, nz as int, r0, s0));
                assert(seen@ =~= step_seen(ev, nz as int, r0, s0));
                assert forall|z: u64| s0.contains(z) implies seen@.contains(z) by {
                    let i = choose|i: int| 0 <= i < s0.len() && s0[i] == z;
                    assert(seen@[i] == z);
                }
                assert forall|nd: Seq<u8>| r0.contains(nd) implies nodes_v(ret@).contains(nd) by {
                    let i = choose|i: int| 0 <= i < r0.len() && r0[i] == nd;
                    assert(nodes_v(ret@)[i] == nd);
                }
                if nodes_v(ret@).len() > r0.len() {
                    assert(nodes_v(ret@)[r0.len() as int] == ev.node);
                    assert(nodes_v(ret@).contains(ev.node));
                }
                if seen@.len() > s0.len() {
                    assert(seen@[s0.len() as int] == ev.datacenter);
                    assert(seen@.contains(ev.datacenter));
                }
                assert forall|x: int|
                    0 <= x < nodes_v(ret@).len() implies seen@.contains(
                    node_zone_hash(roles, #[trigger] nodes_v(ret@)[x]),
                ) by {
                    if x < r0.len() {
                        assert(nodes_v(ret@)[x] == r0[x]);
                        assert(s0.contains(node_zone_hash(roles, r0[x])));
                    } else {
                        assert(nodes_v(ret@)[x] == ev.node);
                        if !s0.contains(ev.datacenter) {
                            assert(seen@.contains(ev.datacenter));
                        } else {
                            assert(seen@.contains(ev.datacenter));
                        }
                    }
                }
            }
            pos = if pos + 1 == ln {
                0
            } else {
                pos + 1
            };
            d = d + 1;
            proof {
                assert(pos as int == pos_at(start as int, d as int, ln as int));
                assert(goal == walk_step(
                    rv.ring,
                    nz as int,
                    n as int,
                    pos as int,
                    (2 * ln - d) as nat,
                    nodes_v(ret@),
                    seen@,
                )) by {
                    assert(walk_step(
                        rv.ring,
                        nz as int,
                        n as int,
                        pos0,
                        (2 * ln - (d - 1)) as nat,
                        r0,
                        s0,
                    ) == walk_step(
                        rv.ring,
                        nz as int,
                        n as int,
                        pos as int,
                        (2 * ln - d) as nat,
                        step_ret(ev, nz as int, r0, s0),
                        step_seen(ev, nz as int, r0, s0),
                    ));
                }
                assert forall|dd: int|
                    0 <= dd < d implies seen@.contains(
                    rv.ring[pos_at(start as int, dd, ln as int)].datacenter,
                ) by {
                    if dd == d - 1 {
                        assert(pos_at(start as int, dd, ln as int) == pos0);
                        if r0.contains(ev.node) {
                            let x = choose|x: int| 0 <= x < r0.len() && r0[x] == ev.node;
                            assert(s0.contains(node_zone_hash(roles, r0[x])));
                        }
                    }
                }
            }
        }
        if ret.len() < n {
            proof {
                assert(d == ln);
                assert forall|k: int| 0 <= k < ln implies seen@.contains(
                    #[trigger] rv.ring[k].datacenter,
                ) by {
                    let dd: int = if k >= start {
                        k - start
                    } else {
                        k + ln - start
                    };
                    assert(pos_at(start as int, dd, ln as int) == k);
                    assert(seen@.contains(rv.ring[pos_at(start as int, dd, ln as int)].datacenter));
                }
                assert(seen@.to_set() =~= ring_zone_set(rv.ring)) by {
                    assert forall|z: u64| ring_zone_set(rv.ring).contains(z) implies seen@.to_set().contains(
                        z,
                    ) by {
                        let m = rv.ring.map_values(|e: REntryV| e.datacenter);
                        let k = choose|k: int| 0 <= k < m.len() && m[k] == z;
                        assert(rv.ring[k].datacenter == z);
                    }
                }
                seen@.unique_seq_to_set();
                assert(seen@.len() == nz);
            }
            let mut d2: usize = 0;
            while d2 < ln && ret.len() < n
                invariant
                    self.wf(),
                    rv == self@,
                    roles == rv.layout.roles,
                    ln == rv.ring.len(),
                    nz == rv.n_datacenters,
                    (n as int) < storage_count(roles),
                    d2 <= ln,
                    pos < ln,
                    pos as int == pos_at(start as int, ln + d2 as int, ln as int),
                    start < ln,
                    ret@.len() <= n,
                    nodes_v(ret@).no_duplicates(),
                    seen@.no_duplicates(),
                    seen@.len() == nz,
                    forall|k: int|
                        0 <= k < ln ==> seen@.contains(#[trigger] rv.ring[k].datacenter),
                    forall|x: int|
                        0 <= x < ret@.len() ==> is_storage_node(roles, #[trigger] nodes_v(ret@)[x]),
                    goal == walk_step(
                        rv.ring,
                        nz as int,
                        n as int,
                        pos as int,
                        (2 * ln - (ln + d2)) as nat,
                        nodes_v(ret@),
                        seen@,
                    ),
                    forall|dd: int|
                        ln <= dd < ln + d2 ==> nodes_v(ret@).contains(
                            rv.ring[pos_at(start as int, dd, ln as int)].node,
                        ),
                    n <= nz ==> seen@.len() == ret@.len(),
                decreases ln - d2,
            {
                let ghost r0 = nodes_v(ret@);
                let ghost s0 = seen@;
                let ghost pos0 = pos as int;
                let ghost ev = rv.ring[pos as int];
                proof {
                    lemma_ring_dc(rv, pos as int);
                }
                let e_node = self.ring[pos].node;
                let e_dc = self.ring[pos].datacenter;
                proof {
                    assert(e_node@ == ev.node && e_dc == ev.datacenter);
                    assert(s0.contains(ev.datacenter));
                }
                let in_ret = contains_node(&ret, &e_node);
                if !in_ret {
                    let zone_seen = contains_u64(&seen, e_dc);
                    if !zone_seen {
                        ret.push(e_node);
                        seen.push(e_dc);
                        proof {
                            assert(false);
                        }
                    } else if seen.len() == nz {
                        ret.push(e_node);
                        proof {
                            assert(nodes_v(ret@) =~= r0.push(ev.node));
                        }
                    } else {
                        proof {
                            assert(false);
                        }
                    }
                }
                proof {
                    assert(nodes_v(ret@) =~= step_ret(ev, nz as int, r0, s0));
                    assert(seen@ =~= step_seen(ev, nz as int, r0, s0));
                    assert forall|nd: Seq<u8>| r0.contains(nd) implies nodes_v(ret@).contains(
                        nd,
                    ) by {
                        let i = choose|i: int| 0 <= i < r0.len() && r0[i] == nd;
                        assert(nodes_v(ret@)[i] == nd);
                    }
                    if nodes_v(ret@).len() > r0.len() {
                        assert(nodes_v(ret@)[r0.len() as int] == ev.node);
                        assert(nodes_v(ret@).contains(ev.node));
                    }
                }
                pos = if pos + 1 == ln {
                    0
                } else {
                    pos + 1
                };
                d2 = d2 + 1;
                proof {
                    assert(pos as int == pos_at(start as int, ln + d2 as int, ln as int));
                    assert(goal == walk_step(
                        rv.ring,
                        nz as int,
                        n as int,
                        pos as int,
                        (2 * ln - (ln + d2)) as nat,
                        nodes_v(ret@),
                        seen@,
                    )) by {
                        assert(walk_step(
                            rv.ring,
                            nz as int,
                            n as int,
                            pos0,
                            (2 * ln - (ln + d2 - 1)) as nat,
                            r0,
                            s0,
                        ) == walk_step(
                            rv.ring,
                            nz as int,
                            n as int,
                            pos as int,
                            (2 * ln - (ln + d2)) as nat,
                            step_ret(ev, nz as int, r0, s0),
                            step_seen(ev, nz as int, r0, s0),
                        ));
                    }
                    assert forall|dd: int|
                        ln <= dd < ln + d2 implies nodes_v(ret@).contains(
                        rv.ring[pos_at(start as int, dd, ln as int)].node,
                    ) by {
                        if dd == ln + d2 - 1 {
                            assert(pos_at(start as int, dd, ln as int) == pos0);
                            if r0.contains(ev.node) {
                                assert(nodes_v(ret@).contains(ev.node));
                            } else {
                                assert(nodes_v(ret@).contains(ev.node));
                            }
                        } else {
                            assert(r0.contains(rv.ring[pos_at(start as int, dd, ln as int)].node));
                            assert(nodes_v(ret@).contains(
                                rv.ring[pos_at(start as int, dd, ln as int)].node,
                            ));
                        }
                    }
                }
            }
            proof {
                if ret@.len() < n {
                    assert(d2 == ln);
                    assert forall|k: int| 0 <= k < ln implies nodes_v(ret@).contains(
                        #[trigger] rv.ring[k].node,
                    ) by {
                        let dd: int = if k >= start {
                            ln + k - start
                        } else {
                            ln + k + ln - start
                        };
                        assert(ln <= dd < 2 * ln);
                        assert(pos_at(start as int, dd, ln as int) == k);
                    }
                    lemma_storage_entries_distinct(roles);
                    let sids = storage_node_ids(roles);
                    assert forall|j: int| 0 <= j < sids.len() implies nodes_v(
                        ret@,
                    ).to_set().contains(#[trigger] sids[j]) by {
                        let se = storage_entries(roles)[j];
                        assert(roles.contains(se) && is_storage(se));
                        let w = choose|w: int| 0 <= w < roles.len() && roles[w] == se;
                        assert(ring_has_node(rv.ring, roles[w].node));
                        let k = choose|k: int|
                            0 <= k < rv.ring.len() && (#[trigger] rv.ring[k]).node == roles[w].node;
                        assert(nodes_v(ret@).contains(rv.ring[k].node));
                        assert(sids[j] == se.node);
                    }
                    assert(sids.to_set().subset_of(nodes_v(ret@).to_set()));
                    broadcast use vstd::seq_lib::seq_to_set_is_finite;

                    vstd::set_lib::lemma_len_subset(sids.to_set(), nodes_v(ret@).to_set());
                    sids.unique_seq_to_set();
                    nodes_v(ret@).unique_seq_to_set();
                    assert(storage_count(roles) <= nodes_v(ret@).len());
                    assert(false);
                }
            }
        }
        proof {
            assert(ret@.len() == n);
            assert(goal == nodes_v(ret@));
            if n <= nz {
                assert forall|x: int, y: int|
                    0 <= x < y < nodes_v(ret@).len() implies node_zone_hash(
                    roles,
                    #[trigger] nodes_v(ret@)[x],
                ) != node_zone_hash(roles, #[trigger] nodes_v(ret@)[y]) by {
                    assert(node_zone_hash(roles, nodes_v(ret@)[x]) == seen@[x]);
                    assert(node_zone_hash(roles, nodes_v(ret@)[y]) == seen@[y]);
                }
            }
        }
        ret
    }
}

/// For a storage line of the table, the node's zone hash is that line's.
proof fn lemma_node_zone_hash_of_entry(roles: Seq<EntryV>, w: int)
    requires
        entries_sorted(roles),
        0 <= w < roles.len(),
        is_storage(roles[w]),
    ensures
        is_storage_node(roles, roles[w].node),
        node_zone_hash(roles, roles[w].node) == zone_hash_v(entry_zone(roles[w])),
{
    assert(is_storage_node(roles, roles[w].node));
    let j2 = choose|j2: int|
        0 <= j2 < roles.len() && is_storage(#[trigger] roles[j2]) && roles[j2].node
            == roles[w].node;
    lemma_roles_node_unique(roles, j2, w);
}

/// When a table has no more storage nodes than the ring has zones, its
/// storage nodes lie in pairwise distinct zones.
proof fn lemma_all_nodes_zones_distinct(rv: RingV)
    requires
        ring_wf(rv),
        storage_count(rv.layout.roles) <= rv.n_datacenters as int,
    ensures
        zones_distinct(rv.layout.roles, storage_node_ids(rv.layout.roles)),
{
    let roles = rv.layout.roles;
    let se = storage_entries(roles);
    let sids = storage_node_ids(roles);
    let zs = se.map_values(|e: EntryV| zone_hash_v(entry_zone(e)));
    lemma_storage_entries_distinct(roles);
    assert(zs.to_set() =~= ring_zone_set(rv.ring)) by {
        assert forall|z: u64| zs.to_set().contains(z) implies ring_zone_set(rv.ring).contains(
            z,
        ) by {
            let j = choose|j: int| 0 <= j < zs.len() && zs[j] == z;
            let w = choose|w: int| 0 <= w < roles.len() && roles[w] == se[j];
            assert(is_storage(roles[w]));
            assert(ring_has_node(rv.ring, roles[w].node));
            let k = choose|k: int|
                0 <= k < rv.ring.len() && (#[trigger] rv.ring[k]).node == roles[w].node;
            lemma_ring_dc(rv, k);
            lemma_node_zone_hash_of_entry(roles, w);
            assert(rv.ring[k].datacenter == z);
            assert(rv.ring.map_values(|e: REntryV| e.datacenter)[k] == z);
        }
        assert forall|z: u64| ring_zone_set(rv.ring).contains(z) implies zs.to_set().contains(
            z,
        ) by {
            let m = rv.ring.map_values(|e: REntryV| e.datacenter);
            let k = choose|k: int| 0 <= k < m.len() && m[k] == z;
            assert(rv.ring[k].datacenter == z);
            assert(ring_entry_from(roles, rv.ring[k]));
            let j = choose|j: int|
                0 <= j < roles.len() && is_storage(#[trigger] roles[j]) && roles[j].node
                    == rv.ring[k].node && zone_hash_v(entry_zone(roles[j])) == rv.ring[k].datacenter;
            roles.lemma_filter_contains(storage_pred(), j);
            let idx = choose|idx: int| 0 <= idx < se.len() && se[idx] == roles[j];
            assert(zs[idx] == z);
        }
    }
    broadcast use vstd::seq_lib::seq_to_set_is_finite;

    zs.lemma_cardinality_of_set();
    assert(zs.to_set().len() == zs.len());
    zs.lemma_no_dup_set_cardinality();
    assert forall|x: int, y: int|
        0 <= x < y < sids.len() implies node_zone_hash(roles, #[trigger] sids[x])
        != node_zone_hash(roles, #[trigger] sids[y]) by {
        let wx = choose|w: int| 0 <= w < roles.len() && roles[w] == se[x];
        let wy = choose|w: int| 0 <= w < roles.len() && roles[w] == se[y];
        lemma_node_zone_hash_of_entry(roles, wx);
        lemma_node_zone_hash_of_entry(roles, wy);
        assert(node_zone_hash(roles, sids[x]) == zs[x]);
        assert(node_zone_hash(roles, sids[y]) == zs[y]);
    }
}

impl Ring {
    /// Lists the `n` replica nodes for a key, walking the ring from the
    /// key's position under the zone-diversity rule. When `n` covers
    /// every storage node, the whole storage node set is returned. The
    /// result length is the smaller of `n` and the storage node count;
    /// the nodes are pairwise distinct storage nodes; and whenever `n`
    /// is within the ring's zone count, they lie in pairwise distinct
    /// zones.
    pub fn walk_ring(&self, from: &HashVal, n: usize) -> (r: Vec<Uuid>)
        requires
            self.wf(),
        ensures
            nodes_v(r@) == spec_walk(self@, from@, n as int),
            nodes_v(r@).no_duplicates(),
            r@.len() == (if n as int >= storage_count(self@.layout.roles) {
                storage_count(self@.layout.roles)
            } else {
                n as int
            }),
            forall|x: int|
                0 <= x < r@.len() ==> is_storage_node(
                    self@.layout.roles,
                    #[trigger] nodes_v(r@)[x],
                ),
            (n as int) <= self@.n_datacenters as int ==> zones_distinct(
                self@.layout.roles,
                nodes_v(r@),
            ),
    {
        let ghost rv = self@;
        let ghost roles = rv.layout.roles;
        let sto = storage_nodes_exec(&self.layout.roles);
        proof {
            assert(roles == entries_v(self.layout.roles@));
            assert(nodes_v(sto@) == storage_node_ids(roles));
            assert(nodes_v(sto@).len() == sto@.len());
            assert(storage_node_ids(roles).len() == storage_entries(roles).len());
            assert(sto@.len() == storage_count(roles));
        }
        if n >= sto.len() {
            proof {
                lemma_storage_entries_distinct(roles);
                let se = storage_entries(roles);
                assert forall|x: int|
                    0 <= x < sto@.len() implies is_storage_node(
                    roles,
                    #[trigger] nodes_v(sto@)[x],
                ) by {
                    assert(nodes_v(sto@)[x] == se[x].node);
                    let w = choose|w: int| 0 <= w < roles.len() && roles[w] == se[x];
                    assert(is_storage(roles[w]));
                    assert(is_storage_node(roles, roles[w].node));
                }
                if n as int <= rv.n_datacenters as int {
                    lemma_all_nodes_zones_distinct(rv);
                }
            }
            sto
        } else {
            proof {
                lemma_storage_entries_distinct(roles);
                let se = storage_entries(roles);
                assert(se.len() > 0);
                let w = choose|w: int| 0 <= w < roles.len() && roles[w] == se[0];
                assert(is_storage(roles[w]));
                assert(ring_has_node(rv.ring, roles[w].node));
                assert(rv.ring.len() > 0);
            }
            let start = ring_lower_bound(&self.ring, from);
            self.walk_ring_from_pos(start, n)
        }
    }
}


/// Distinct zone hashes name distinct zones: two replicas whose zone
/// hashes differ cannot share a zone, since equal zones hash equally.
/// With the walk's diversity clause this puts the replicas in pairwise
/// distinct zones, stated here over the zone names themselves.
pub proof fn lemma_zones_distinct_strings(
    roles: Seq<EntryV>,
    nodes: Seq<Seq<u8>>,
    x: int,
    y: int,
    jx: int,
    jy: int,
)
    requires
        entries_sorted(roles),
        zones_distinct(roles, nodes),
        0 <= x < y < nodes.len(),
        0 <= jx < roles.len(),
        is_storage(roles[jx]),
        roles[jx].node == nodes[x],
        0 <= jy < roles.len(),
        is_storage(roles[jy]),
        roles[jy].node == nodes[y],
    ensures
        entry_zone(roles[jx]) != entry_zone(roles[jy]),
{
    lemma_node_zone_hash_of_entry(roles, jx);
    lemma_node_zone_hash_of_entry(roles, jy);
    assert(node_zone_hash(roles, nodes[x]) != node_zone_hash(roles, nodes[y]));
}

} // verus!
