//! The cluster layout: operator-assigned storage roles, staged edits, and
//! last-writer-wins merging.
//!
//! A layout carries a committed role table (one entry per node, sorted by
//! node identifier), a staging area of pending edits, a version counter
//! bumped on every commit, and a Sha-256 hash of the staging area's
//! canonical encoding so peers can detect divergence cheaply.

use vstd::prelude::*;

use crate::codec::{
    enc_entry_list, enc_opt_role, enc_opt_role_into, entries_bounded, entry_bounded,
    opt_role_bounded, table_hash,
};
use crate::data::{bytes_cmp, bytes_lt, fb32_cmp, Cmp, FixedBytes32, HashVal, Uuid};
use crate::digest::sha256_of;
use crate::error::Error;

verus! {

/// The storage role an operator assigns to a node: a failure zone, a
/// capacity (`None` marks a gateway that stores no data), and free-form
/// tags. Zone and tags are byte strings; the zone serves only equality.
#[derive(Clone, Debug, PartialEq, Eq)]
pub struct NodeRole {
    pub zone: Vec<u8>,
    pub capacity: Option<u64>,
    pub tags: Vec<Vec<u8>>,
}

/// One line of the role table: the node, the update tag at which the
/// entry was written (for deterministic merging), and the role itself
/// (`None` records an explicit removal).
#[derive(Clone, Debug, PartialEq, Eq)]
pub struct RoleEntry {
    pub node: Uuid,
    pub tag: u64,
    pub role: Option<NodeRole>,
}

/// The versioned cluster layout with its staging area.
#[derive(Clone, Debug)]
pub struct ClusterLayout {
    /// Bumped on every commit; merges adopt the highest version.
    pub version: u64,
    /// Cluster-wide constant; layouts from peers with a different factor
    /// are rejected before any merge.
    pub replication_factor: usize,
    /// Per-edit counter used to tag staged entries.
    pub update_counter: u64,
    /// Committed roles, sorted strictly by node identifier.
    pub roles: Vec<RoleEntry>,
    /// Staged edits, sorted strictly by node identifier.
    pub staging: Vec<RoleEntry>,
    /// Sha-256 of the canonical encoding of `staging`.
    pub staging_hash: HashVal,
}

/// Mathematical image of a `NodeRole`.
#[verifier::ext_equal]
pub ghost struct RoleV {
    pub zone: Seq<u8>,
    pub capacity: Option<u64>,
    pub tags: Seq<Seq<u8>>,
}

/// Mathematical image of a `RoleEntry`.
#[verifier::ext_equal]
pub ghost struct EntryV {
    pub node: Seq<u8>,
    pub tag: u64,
    pub role: Option<RoleV>,
}

/// Mathematical image of a `ClusterLayout`.
#[verifier::ext_equal]
pub ghost struct LayoutV {
    pub version: u64,
    pub replication_factor: usize,
    pub update_counter: u64,
    pub roles: Seq<EntryV>,
    pub staging: Seq<EntryV>,
    pub staging_hash: Seq<u8>,
}

impl View for NodeRole {
    type V = RoleV;

    open spec fn view(&self) -> RoleV {
        RoleV {
            zone: self.zone@,
            capacity: self.capacity,
            tags: self.tags@.map_values(|t: Vec<u8>| t@),
        }
    }
}

/// The view of an optional role.
pub open spec fn opt_role_v(r: Option<NodeRole>) -> Option<RoleV> {
    match r {
        None => None,
        Some(x) => Some(x@),
    }
}

impl View for RoleEntry {
    type V = EntryV;

    open spec fn view(&self) -> EntryV {
        EntryV { node: self.node@, tag: self.tag, role: opt_role_v(self.role) }
    }
}

/// The views of a sequence of role entries.
pub open spec fn entries_v(s: Seq<RoleEntry>) -> Seq<EntryV> {
    s.map_values(|e: RoleEntry| e@)
}

impl View for ClusterLayout {
    type V = LayoutV;

    open spec fn view(&self) -> LayoutV {
        LayoutV {
            version: self.version,
            replication_factor: self.replication_factor,
            update_counter: self.update_counter,
            roles: entries_v(self.roles@),
            staging: entries_v(self.staging@),
            staging_hash: self.staging_hash@,
        }
    }
}

/// Strictly sorted by node identifier: nodes appear at most once, in
/// ascending lexicographic order.
pub open spec fn entries_sorted(s: Seq<EntryV>) -> bool {
    forall|i: int, j: int|
        0 <= i < j < s.len() ==> bytes_lt(#[trigger] s[i].node, #[trigger] s[j].node)
}

/// True when some entry of `s` is for node `n`.
pub open spec fn has_node(s: Seq<EntryV>, n: Seq<u8>) -> bool {
    exists|i: int| 0 <= i < s.len() && #[trigger] s[i].node == n
}

/// Well-formedness of a layout value: both tables sorted by node, and
/// the staging hash consistent with the staging area.
pub open spec fn layout_wf(l: LayoutV) -> bool {
    &&& entries_sorted(l.roles)
    &&& entries_sorted(l.staging)
    &&& l.staging_hash == sha256_of(enc_entry_list(l.staging))
}

// ---------------------------------------------------------------------
// The merge model: which entry survives, and how tables combine.
// ---------------------------------------------------------------------

/// Of two entries for the same node, the one that survives a merge: the
/// higher update tag wins; at equal tags the lexicographically greater
/// canonical role encoding wins; at equal encodings the own entry stays.
pub open spec fn keep_entry(x: EntryV, y: EntryV) -> EntryV {
    if y.tag > x.tag {
        y
    } else if y.tag < x.tag {
        x
    } else if bytes_lt(enc_opt_role(x.role), enc_opt_role(y.role)) {
        y
    } else {
        x
    }
}

/// Union of two sorted role tables; per-node conflicts resolved by
/// `keep_entry`.
pub open spec fn merge_entries(a: Seq<EntryV>, b: Seq<EntryV>) -> Seq<EntryV>
    decreases a.len() + b.len(),
{
    if a.len() == 0 {
        b
    } else if b.len() == 0 {
        a
    } else if bytes_lt(a[0].node, b[0].node) {
        seq![a[0]] + merge_entries(a.drop_first(), b)
    } else if bytes_lt(b[0].node, a[0].node) {
        seq![b[0]] + merge_entries(a, b.drop_first())
    } else {
        seq![keep_entry(a[0], b[0])] + merge_entries(a.drop_first(), b.drop_first())
    }
}

/// A staged entry as it lands in the committed table: same node and role,
/// tagged with the version that commits it.
pub open spec fn retag(e: EntryV, t: u64) -> EntryV {
    EntryV { node: e.node, tag: t, role: e.role }
}

/// The committed table after staging is applied: staged entries replace
/// or join committed ones and carry the new version as their tag.
pub open spec fn apply_staging(roles: Seq<EntryV>, staging: Seq<EntryV>, t: u64) -> Seq<EntryV>
    decreases roles.len() + staging.len(),
{
    if staging.len() == 0 {
        roles
    } else if roles.len() == 0 {
        seq![retag(staging[0], t)] + apply_staging(roles, staging.drop_first(), t)
    } else if bytes_lt(roles[0].node, staging[0].node) {
        seq![roles[0]] + apply_staging(roles.drop_first(), staging, t)
    } else if bytes_lt(staging[0].node, roles[0].node) {
        seq![retag(staging[0], t)] + apply_staging(roles, staging.drop_first(), t)
    } else {
        seq![retag(staging[0], t)] + apply_staging(roles.drop_first(), staging.drop_first(), t)
    }
}

/// A sorted table with entry `e` put at its node's place (replacing any
/// previous entry for that node).
pub open spec fn insert_entry(s: Seq<EntryV>, e: EntryV) -> Seq<EntryV>
    decreases s.len(),
{
    if s.len() == 0 {
        seq![e]
    } else if bytes_lt(s[0].node, e.node) {
        seq![s[0]] + insert_entry(s.drop_first(), e)
    } else if s[0].node == e.node {
        seq![e] + s.drop_first()
    } else {
        seq![e] + s
    }
}

/// The hash peers compare to detect differing committed tables at equal
/// versions.
pub open spec fn roles_hash_v(roles: Seq<EntryV>) -> Seq<u8> {
    sha256_of(enc_entry_list(roles))
}

/// The layout after merging `b` into `a`: a newer version adopts the
/// whole committed table; at equal versions the greater roles hash wins;
/// staging areas take their union; the version and the edit counter never
/// decrease.
pub open spec fn spec_merge(a: LayoutV, b: LayoutV) -> LayoutV {
    let adopt = b.version > a.version || (b.version == a.version && bytes_lt(
        roles_hash_v(a.roles),
        roles_hash_v(b.roles),
    ));
    let staging = merge_entries(a.staging, b.staging);
    LayoutV {
        version: if b.version > a.version {
            b.version
        } else {
            a.version
        },
        replication_factor: a.replication_factor,
        update_counter: if b.update_counter > a.update_counter {
            b.update_counter
        } else {
            a.update_counter
        },
        roles: if adopt {
            b.roles
        } else {
            a.roles
        },
        staging,
        staging_hash: sha256_of(enc_entry_list(staging)),
    }
}

/// The layout after a successful commit of `l`'s staging area.
pub open spec fn applied_layout(l: LayoutV) -> LayoutV {
    let newv = (l.version + 1) as u64;
    LayoutV {
        version: newv,
        replication_factor: l.replication_factor,
        update_counter: l.update_counter,
        roles: apply_staging(l.roles, l.staging, newv),
        staging: Seq::empty(),
        staging_hash: sha256_of(enc_entry_list(Seq::empty())),
    }
}

// ---------------------------------------------------------------------
// The layout check.
// ---------------------------------------------------------------------

/// Whether an entry assigns a role (`None` records a removal).
pub open spec fn assigned_pred() -> spec_fn(EntryV) -> bool {
    |e: EntryV| e.role is Some
}

/// How many nodes of the table have a role assigned.
pub open spec fn assigned_count(s: Seq<EntryV>) -> int {
    s.filter(assigned_pred()).len() as int
}

/// The zone-diversity precondition over a committed table: every
/// assigned role names a non-empty zone, and at least `rf` nodes carry a
/// role.
pub open spec fn roles_check(roles: Seq<EntryV>, rf: int) -> bool {
    &&& forall|i: int|
        0 <= i < roles.len() ==> ((#[trigger] roles[i]).role matches Some(r) ==> r.zone.len() > 0)
    &&& assigned_count(roles) >= rf
}

/// The zone-diversity precondition of a commit, on a whole layout.
pub open spec fn layout_check(l: LayoutV) -> bool {
    roles_check(l.roles, l.replication_factor as int)
}

impl ClusterLayout {
    /// Well-formedness of the executable layout.
    pub open spec fn wf(&self) -> bool {
        layout_wf(self@)
    }

    /// An empty layout at version zero for a cluster with the given
    /// replication factor.
    pub fn new(replication_factor: usize) -> (r: Self)
        ensures
            r.wf(),
            r@.version == 0,
            r@.update_counter == 0,
            r@.replication_factor == replication_factor,
            r@.roles =~= Seq::<EntryV>::empty(),
            r@.staging =~= Seq::<EntryV>::empty(),
    {
        let staging: Vec<RoleEntry> = Vec::new();
        let staging_hash = table_hash(&staging);
        let r = ClusterLayout {
            version: 0,
            replication_factor,
            update_counter: 0,
            roles: Vec::new(),
            staging,
            staging_hash,
        };
        proof {
            assert(r@.roles =~= Seq::<EntryV>::empty());
            assert(r@.staging =~= Seq::<EntryV>::empty());
        }
        r
    }

    /// Decides the zone-diversity precondition: every assigned role has a
    /// non-empty zone, and at least `replication_factor` nodes carry one.
    pub fn check(&self) -> (r: bool)
        ensures
            r == layout_check(self@),
    {
        check_roles(&self.roles, self.replication_factor)
    }

    /// Records an operator edit in the staging area: the node's pending
    /// role becomes `role` (with `None` staging a removal), under a fresh
    /// update tag.
    pub fn stage(&mut self, node: &Uuid, role: Option<NodeRole>)
        requires
            old(self).wf(),
            old(self)@.update_counter < u64::MAX,
        ensures
            final(self).wf(),
            final(self)@.version == old(self)@.version,
            final(self)@.replication_factor == old(self)@.replication_factor,
            final(self)@.roles == old(self)@.roles,
            final(self)@.update_counter == old(self)@.update_counter + 1,
            final(self)@.staging == insert_entry(
                old(self)@.staging,
                EntryV {
                    node: node@,
                    tag: (old(self)@.update_counter + 1) as u64,
                    role: opt_role_v(role),
                },
            ),
    {
        self.update_counter = self.update_counter + 1;
        let e = RoleEntry { node: *node, tag: self.update_counter, role };
        let ghost ev = e@;
        let ghost s0 = entries_v(self.staging@);
        let (pos, found) = locate(&self.staging, node);
        if found {
            self.staging.remove(pos);
            self.staging.insert(pos, e);
            proof {
                lemma_insert_entry_replaces(s0, ev, pos as int);
                assert(entries_v(self.staging@) =~= s0.subrange(0, pos as int) + seq![ev]
                    + s0.subrange(pos + 1, s0.len() as int));
            }
        } else {
            self.staging.insert(pos, e);
            proof {
                lemma_insert_entry_inserts(s0, ev, pos as int);
                assert(entries_v(self.staging@) =~= s0.subrange(0, pos as int) + seq![ev]
                    + s0.subrange(pos as int, s0.len() as int));
            }
        }
        self.staging_hash = table_hash(&self.staging);
        proof {
            lemma_insert_entry_sorted(s0, ev);
        }
    }

    /// A copy of the layout with the same view.
    pub fn duplicate(&self) -> (c: ClusterLayout)
        ensures
            c@ == self@,
    {
        let c = ClusterLayout {
            version: self.version,
            replication_factor: self.replication_factor,
            update_counter: self.update_counter,
            roles: copy_entries(&self.roles),
            staging: copy_entries(&self.staging),
            staging_hash: self.staging_hash,
        };
        proof {
            assert(c@ =~= self@);
        }
        c
    }

    /// Resets the staging area to the committed roles, so that no edits
    /// remain pending.
    pub fn revert(&mut self)
        requires
            old(self).wf(),
        ensures
            final(self).wf(),
            final(self)@.version == old(self)@.version,
            final(self)@.replication_factor == old(self)@.replication_factor,
            final(self)@.update_counter == old(self)@.update_counter,
            final(self)@.roles == old(self)@.roles,
            final(self)@.staging == old(self)@.roles,
    {
        self.staging = copy_entries(&self.roles);
        self.staging_hash = table_hash(&self.staging);
    }

    /// Merges a layout received from a peer into this one; returns
    /// whether anything changed. A strictly newer version adopts the
    /// peer's committed table; at equal versions the greater roles hash
    /// wins; staging areas take their union. The version never
    /// decreases.
    pub fn merge(&mut self, other: &ClusterLayout) -> (changed: bool)
        requires
            old(self).wf(),
            other.wf(),
            old(self)@.replication_factor == other@.replication_factor,
        ensures
            final(self).wf(),
            final(self)@ == spec_merge(old(self)@, other@),
            changed == (final(self)@ != old(self)@),
            final(self)@.version >= old(self)@.version,
            final(self)@.version >= other@.version,
    {
        let ghost a = self@;
        let ghost b = other@;
        let mut changed = false;
        if other.version > self.version {
            self.version = other.version;
            self.roles = copy_entries(&other.roles);
            changed = true;
        } else if other.version == self.version {
            let hs = table_hash(&self.roles);
            let ho = table_hash(&other.roles);
            proof {
                crate::data::lemma_bytes_lt_trichotomy(hs@, ho@);
            }
            match fb32_cmp(&hs, &ho) {
                Cmp::Lt => {
                    self.roles = copy_entries(&other.roles);
                    changed = true;
                    proof {
                        assert(a.roles != b.roles) by {
                            if a.roles == b.roles {
                                assert(roles_hash_v(a.roles) == roles_hash_v(b.roles));
                            }
                        }
                    }
                },
                _ => {},
            }
        }
        if other.update_counter > self.update_counter {
            self.update_counter = other.update_counter;
            changed = true;
        }
        let merged = merge_entries_exec(&self.staging, &other.staging);
        let staging_same = entries_eq(&merged, &self.staging);
        if !staging_same {
            changed = true;
        }
        self.staging = merged;
        self.staging_hash = table_hash(&self.staging);
        proof {
            lemma_merge_entries_sorted(a.staging, b.staging);
            assert(self@ =~= spec_merge(a, b));
            if changed {
                assert(self@ != a);
            } else {
                assert(self@.staging_hash == a.staging_hash);
                assert(self@ =~= a);
            }
        }
        changed
    }

    /// Commits the staging area: staged roles replace committed ones
    /// under the bumped version, and staging is cleared. Refused with
    /// `BadRequest` when `expected_version` is not the version the
    /// commit would produce, and with `Forbidden` when the resulting
    /// table fails the zone-diversity check; a refused commit leaves the
    /// layout untouched.
    pub fn commit(&mut self, expected_version: u64) -> (r: Result<(), Error>)
        requires
            old(self).wf(),
        ensures
            final(self).wf(),
            r is Ok <==> (expected_version == old(self)@.version + 1 && layout_check(
                applied_layout(old(self)@),
            )),
            r is Ok ==> final(self)@ == applied_layout(old(self)@),
            r is Err ==> final(self)@ == old(self)@,
            (r matches Err(e) ==> (e is BadRequest <==> expected_version != old(self)@.version
                + 1)),
            (r matches Err(e) ==> (e is Forbidden <==> (expected_version == old(self)@.version + 1
                && !layout_check(applied_layout(old(self)@))))),
    {
        if !(expected_version > 0 && expected_version - 1 == self.version) {
            return Err(Error::BadRequest("layout version mismatch".to_owned()));
        }
        let newv = self.version + 1;
        let candidate = apply_staging_exec(&self.roles, &self.staging, newv);
        if !check_roles(&candidate, self.replication_factor) {
            return Err(Error::Forbidden("cluster layout does not cover enough zones".to_owned()));
        }
        self.roles = candidate;
        self.version = newv;
        self.staging = Vec::new();
        self.staging_hash = table_hash(&self.staging);
        proof {
            lemma_apply_staging_sorted(old(self)@.roles, old(self)@.staging, newv);
            assert(entries_v(self.staging@) =~= Seq::<EntryV>::empty());
            assert(self@ =~= applied_layout(old(self)@));
        }
        Ok(())
    }
}

// ---------------------------------------------------------------------
// Copy and equality helpers. Contracts speak of views, so copies that
// preserve views are as good as the originals.
// ---------------------------------------------------------------------

/// Copies a byte vector.
pub fn copy_bytes(v: &Vec<u8>) -> (r: Vec<u8>)
    ensures
        r@ == v@,
{
    let mut r: Vec<u8> = Vec::new();
    let mut i: usize = 0;
    while i < v.len()
        invariant
            i <= v@.len(),
            r@ =~= v@.subrange(0, i as int),
        decreases v@.len() - i,
    {
        r.push(v[i]);
        proof {
            assert(v@.subrange(0, i + 1) =~= v@.subrange(0, i as int).push(v@[i as int]));
        }
        i = i + 1;
    }
    proof {
        assert(v@.subrange(0, v@.len() as int) =~= v@);
    }
    r
}

/// Copies a role; the copy has the same view.
pub fn copy_role(r: &NodeRole) -> (c: NodeRole)
    ensures
        c@ == r@,
{
    let mut tags: Vec<Vec<u8>> = Vec::new();
    let mut i: usize = 0;
    while i < r.tags.len()
        invariant
            i <= r.tags@.len(),
            tags@.len() == i,
            forall|k: int| 0 <= k < i ==> (#[trigger] tags@[k])@ == r.tags@[k]@,
        decreases r.tags@.len() - i,
    {
        tags.push(copy_bytes(&r.tags[i]));
        i = i + 1;
    }
    let c = NodeRole { zone: copy_bytes(&r.zone), capacity: r.capacity, tags };
    proof {
        assert(c@.tags =~= r@.tags);
    }
    c
}

/// Copies an optional role.
pub fn copy_opt_role(r: &Option<NodeRole>) -> (c: Option<NodeRole>)
    ensures
        opt_role_v(c) == opt_role_v(*r),
{
    match r {
        None => None,
        Some(x) => Some(copy_role(x)),
    }
}

/// Copies a table line.
pub fn copy_entry(e: &RoleEntry) -> (c: RoleEntry)
    ensures
        c@ == e@,
{
    RoleEntry { node: e.node, tag: e.tag, role: copy_opt_role(&e.role) }
}

/// Copies a role table.
pub fn copy_entries(v: &Vec<RoleEntry>) -> (c: Vec<RoleEntry>)
    ensures
        entries_v(c@) == entries_v(v@),
{
    let mut c: Vec<RoleEntry> = Vec::new();
    let mut i: usize = 0;
    while i < v.len()
        invariant
            i <= v@.len(),
            c@.len() == i,
            forall|k: int| 0 <= k < i ==> (#[trigger] c@[k])@ == v@[k]@,
        decreases v@.len() - i,
    {
        c.push(copy_entry(&v[i]));
        i = i + 1;
    }
    proof {
        assert(entries_v(c@) =~= entries_v(v@));
    }
    c
}

// ---------------------------------------------------------------------
// Locating a node in a sorted table.
// ---------------------------------------------------------------------

/// Finds a node's entry in a sorted table, or the position where it
/// belongs.
pub fn locate(entries: &Vec<RoleEntry>, node: &Uuid) -> (r: (usize, bool))
    requires
        entries_sorted(entries_v(entries@)),
    ensures
        r.1 ==> r.0 < entries@.len() && entries_v(entries@)[r.0 as int].node == node@,
        !r.1 ==> r.0 <= entries@.len() && (forall|i: int|
            0 <= i < r.0 ==> bytes_lt(#[trigger] entries_v(entries@)[i].node, node@)) && (
        forall|i: int|
            r.0 <= i < entries@.len() ==> bytes_lt(node@, #[trigger] entries_v(entries@)[i].node)),
        r.1 ==> forall|i: int| 0 <= i < r.0 ==> bytes_lt(#[trigger] entries_v(entries@)[i].node, node@),
    decreases entries@.len(),
{
    let ghost s = entries_v(entries@);
    let n = entries.len();
    let mut i: usize = 0;
    while i < n
        invariant
            i <= n,
            n == entries@.len(),
            s == entries_v(entries@),
            entries_sorted(s),
            forall|k: int| 0 <= k < i ==> bytes_lt(#[trigger] s[k].node, node@),
        decreases n - i,
    {
        match fb32_cmp(&entries[i].node, node) {
            Cmp::Lt => {
                i = i + 1;
            },
            Cmp::Eq => {
                return (i, true);
            },
            Cmp::Gt => {
                proof {
                    assert forall|k: int| i < k < s.len() implies bytes_lt(
                        node@,
                        #[trigger] s[k].node,
                    ) by {
                        crate::data::lemma_bytes_lt_transitive(node@, s[i as int].node, s[k].node);
                    }
                }
                return (i, false);
            },
        }
    }
    (i, false)
}

// ---------------------------------------------------------------------
// Putting an entry at its place: the splice forms of `insert_entry`.
// ---------------------------------------------------------------------

/// When the node is already present at position `p`, inserting replaces
/// that line.
proof fn lemma_insert_entry_replaces(s: Seq<EntryV>, e: EntryV, p: int)
    requires
        entries_sorted(s),
        0 <= p < s.len(),
        s[p].node == e.node,
    ensures
        insert_entry(s, e) =~= s.subrange(0, p) + seq![e] + s.subrange(p + 1, s.len() as int),
    decreases p,
{
    if p == 0 {
        crate::data::lemma_bytes_lt_trichotomy(s[0].node, e.node);
        assert(insert_entry(s, e) == seq![e] + s.drop_first());
        assert(s.drop_first() =~= s.subrange(1, s.len() as int));
    } else {
        assert(bytes_lt(s[0].node, e.node)) by {
            assert(bytes_lt(s[0].node, s[p].node));
        }
        let d = s.drop_first();
        assert(entries_sorted(d)) by {
            assert forall|x: int, y: int| 0 <= x < y < d.len() implies bytes_lt(
                #[trigger] d[x].node,
                #[trigger] d[y].node,
            ) by {
                assert(d[x] == s[x + 1] && d[y] == s[y + 1]);
            }
        }
        assert(d[p - 1].node == e.node) by {
            assert(d[p - 1] == s[p]);
        }
        lemma_insert_entry_replaces(d, e, p - 1);
        assert(d.subrange(0, p - 1) =~= s.subrange(1, p));
        assert(d.subrange(p, d.len() as int) =~= s.subrange(p + 1, s.len() as int));
        assert(insert_entry(s, e) == seq![s[0]] + insert_entry(d, e));
        assert(seq![s[0]] + (d.subrange(0, p - 1) + seq![e] + d.subrange(p, d.len() as int)) =~= s
            .subrange(0, p) + seq![e] + s.subrange(p + 1, s.len() as int));
    }
}

/// When the node is absent and `p` is its insertion point, inserting
/// splices the new line in.
proof fn lemma_insert_entry_inserts(s: Seq<EntryV>, e: EntryV, p: int)
    requires
        entries_sorted(s),
        0 <= p <= s.len(),
        forall|i: int| 0 <= i < p ==> bytes_lt(#[trigger] s[i].node, e.node),
        forall|i: int| p <= i < s.len() ==> bytes_lt(e.node, #[trigger] s[i].node),
    ensures
        insert_entry(s, e) =~= s.subrange(0, p) + seq![e] + s.subrange(p, s.len() as int),
    decreases p,
{
    if p == 0 {
        if s.len() == 0 {
            assert(insert_entry(s, e) == seq![e]);
        } else {
            crate::data::lemma_bytes_lt_trichotomy(s[0].node, e.node);
            assert(insert_entry(s, e) == seq![e] + s);
        }
        assert(s.subrange(0, s.len() as int) =~= s);
    } else {
        assert(bytes_lt(s[0].node, e.node));
        let d = s.drop_first();
        assert(entries_sorted(d)) by {
            assert forall|x: int, y: int| 0 <= x < y < d.len() implies bytes_lt(
                #[trigger] d[x].node,
                #[trigger] d[y].node,
            ) by {
                assert(d[x] == s[x + 1] && d[y] == s[y + 1]);
            }
        }
        assert forall|i: int| 0 <= i < p - 1 implies bytes_lt(#[trigger] d[i].node, e.node) by {
            assert(d[i] == s[i + 1]);
        }
        assert forall|i: int| p - 1 <= i < d.len() implies bytes_lt(e.node, #[trigger] d[i].node) by {
            assert(d[i] == s[i + 1]);
        }
        lemma_insert_entry_inserts(d, e, p - 1);
        assert(d.subrange(0, p - 1) =~= s.subrange(1, p));
        assert(d.subrange(p - 1, d.len() as int) =~= s.subrange(p, s.len() as int));
        assert(insert_entry(s, e) == seq![s[0]] + insert_entry(d, e));
        assert(seq![s[0]] + (d.subrange(0, p - 1) + seq![e] + d.subrange(p - 1, d.len() as int))
            =~= s.subrange(0, p) + seq![e] + s.subrange(p, s.len() as int));
    }
}

/// Inserting keeps the table sorted, and every line of the result is the
/// new entry or a line of the old table.
pub proof fn lemma_insert_entry_sorted(s: Seq<EntryV>, e: EntryV)
    requires
        entries_sorted(s),
    ensures
        entries_sorted(insert_entry(s, e)),
        forall|k: int|
            0 <= k < insert_entry(s, e).len() ==> (#[trigger] insert_entry(s, e)[k] == e
                || s.contains(insert_entry(s, e)[k])),
    decreases s.len(),
{
    let m = insert_entry(s, e);
    if s.len() == 0 {
    } else {
        let d = s.drop_first();
        assert(entries_sorted(d)) by {
            assert forall|x: int, y: int| 0 <= x < y < d.len() implies bytes_lt(
                #[trigger] d[x].node,
                #[trigger] d[y].node,
            ) by {
                assert(d[x] == s[x + 1] && d[y] == s[y + 1]);
            }
        }
        crate::data::lemma_bytes_lt_trichotomy(s[0].node, e.node);
        if bytes_lt(s[0].node, e.node) {
            lemma_insert_entry_sorted(d, e);
            let t = insert_entry(d, e);
            assert(m == seq![s[0]] + t);
            assert forall|k: int| 0 <= k < m.len() implies (#[trigger] m[k] == e || s.contains(
                m[k],
            )) by {
                if k == 0 {
                    assert(s.contains(s[0]));
                } else {
                    assert(m[k] == t[k - 1]);
                    if t[k - 1] != e {
                        let x = choose|x: int| 0 <= x < d.len() && d[x] == t[k - 1];
                        assert(s[x + 1] == d[x]);
                        assert(s.contains(s[x + 1]));
                    }
                }
            }
            assert forall|x: int, y: int| 0 <= x < y < m.len() implies bytes_lt(
                #[trigger] m[x].node,
                #[trigger] m[y].node,
            ) by {
                if x == 0 {
                    assert(m[y] == t[y - 1]);
                    if t[y - 1] == e {
                    } else {
                        let w = choose|w: int| 0 <= w < d.len() && d[w] == t[y - 1];
                        assert(d[w] == s[w + 1]);
                        assert(bytes_lt(s[0].node, s[w + 1].node));
                    }
                } else {
                    assert(m[x] == t[x - 1] && m[y] == t[y - 1]);
                }
            }
        } else if s[0].node == e.node {
            assert(m == seq![e] + d);
            assert forall|x: int, y: int| 0 <= x < y < m.len() implies bytes_lt(
                #[trigger] m[x].node,
                #[trigger] m[y].node,
            ) by {
                if x == 0 {
                    assert(m[y] == d[y - 1] && d[y - 1] == s[y]);
                    assert(bytes_lt(s[0].node, s[y].node));
                } else {
                    assert(m[x] == s[x] && m[y] == s[y]);
                }
            }
            assert forall|k: int| 0 <= k < m.len() implies (#[trigger] m[k] == e || s.contains(
                m[k],
            )) by {
                if k > 0 {
                    assert(m[k] == s[k]);
                    assert(s.contains(s[k]));
                }
            }
        } else {
            assert(bytes_lt(e.node, s[0].node));
            assert(m == seq![e] + s);
            assert forall|x: int, y: int| 0 <= x < y < m.len() implies bytes_lt(
                #[trigger] m[x].node,
                #[trigger] m[y].node,
            ) by {
                if x == 0 {
                    if y == 1 {
                    } else {
                        crate::data::lemma_bytes_lt_transitive(e.node, s[0].node, s[y - 1].node);
                    }
                    assert(m[y] == s[y - 1]);
                } else {
                    assert(m[x] == s[x - 1] && m[y] == s[y - 1]);
                }
            }
            assert forall|k: int| 0 <= k < m.len() implies (#[trigger] m[k] == e || s.contains(
                m[k],
            )) by {
                if k > 0 {
                    assert(m[k] == s[k - 1]);
                    assert(s.contains(s[k - 1]));
                }
            }
        }
    }
}

// ---------------------------------------------------------------------
// Merging and applying: the table combinators and their shape lemmas.
// ---------------------------------------------------------------------

/// Every line of a merged table is a line of one of the two inputs.
pub proof fn lemma_merge_entries_contains(a: Seq<EntryV>, b: Seq<EntryV>)
    ensures
        forall|k: int|
            0 <= k < merge_entries(a, b).len() ==> (a.contains(#[trigger] merge_entries(a, b)[k])
                || b.contains(merge_entries(a, b)[k])),
    decreases a.len() + b.len(),
{
    let m = merge_entries(a, b);
    if a.len() == 0 || b.len() == 0 {
        assert forall|k: int| 0 <= k < m.len() implies (a.contains(#[trigger] m[k]) || b.contains(
            m[k],
        )) by {}
    } else if bytes_lt(a[0].node, b[0].node) {
        lemma_merge_entries_contains(a.drop_first(), b);
        let t = merge_entries(a.drop_first(), b);
        assert forall|k: int| 0 <= k < m.len() implies (a.contains(#[trigger] m[k]) || b.contains(
            m[k],
        )) by {
            if k == 0 {
                assert(a.contains(a[0]));
            } else {
                assert(m[k] == t[k - 1]);
                if a.drop_first().contains(t[k - 1]) {
                    let w = choose|w: int|
                        0 <= w < a.drop_first().len() && a.drop_first()[w] == t[k - 1];
                    assert(a[w + 1] == t[k - 1]);
                    assert(a.contains(a[w + 1]));
                }
            }
        }
    } else if bytes_lt(b[0].node, a[0].node) {
        lemma_merge_entries_contains(a, b.drop_first());
        let t = merge_entries(a, b.drop_first());
        assert forall|k: int| 0 <= k < m.len() implies (a.contains(#[trigger] m[k]) || b.contains(
            m[k],
        )) by {
            if k == 0 {
                assert(b.contains(b[0]));
            } else {
                assert(m[k] == t[k - 1]);
                if b.drop_first().contains(t[k - 1]) {
                    let w = choose|w: int|
                        0 <= w < b.drop_first().len() && b.drop_first()[w] == t[k - 1];
                    assert(b[w + 1] == t[k - 1]);
                    assert(b.contains(b[w + 1]));
                }
            }
        }
    } else {
        lemma_merge_entries_contains(a.drop_first(), b.drop_first());
        let t = merge_entries(a.drop_first(), b.drop_first());
        assert forall|k: int| 0 <= k < m.len() implies (a.contains(#[trigger] m[k]) || b.contains(
            m[k],
        )) by {
            if k == 0 {
                assert(m[0] == keep_entry(a[0], b[0]));
                assert(keep_entry(a[0], b[0]) == a[0] || keep_entry(a[0], b[0]) == b[0]);
                assert(a.contains(a[0]) && b.contains(b[0]));
            } else {
                assert(m[k] == t[k - 1]);
                if a.drop_first().contains(t[k - 1]) {
                    let w = choose|w: int|
                        0 <= w < a.drop_first().len() && a.drop_first()[w] == t[k - 1];
                    assert(a[w + 1] == t[k - 1]);
                    assert(a.contains(a[w + 1]));
                } else {
                    let w = choose|w: int|
                        0 <= w < b.drop_first().len() && b.drop_first()[w] == t[k - 1];
                    assert(b[w + 1] == t[k - 1]);
                    assert(b.contains(b[w + 1]));
                }
            }
        }
    }
}

/// Dropping the first line keeps a table sorted.
proof fn lemma_sorted_drop_first(s: Seq<EntryV>)
    requires
        entries_sorted(s),
        s.len() > 0,
    ensures
        entries_sorted(s.drop_first()),
{
    let d = s.drop_first();
    assert forall|x: int, y: int| 0 <= x < y < d.len() implies bytes_lt(
        #[trigger] d[x].node,
        #[trigger] d[y].node,
    ) by {
        assert(d[x] == s[x + 1] && d[y] == s[y + 1]);
    }
}

/// Merging two sorted tables yields a sorted table.
pub proof fn lemma_merge_entries_sorted(a: Seq<EntryV>, b: Seq<EntryV>)
    requires
        entries_sorted(a),
        entries_sorted(b),
    ensures
        entries_sorted(merge_entries(a, b)),
    decreases a.len() + b.len(),
{
    let m = merge_entries(a, b);
    if a.len() == 0 || b.len() == 0 {
    } else {
        crate::data::lemma_bytes_lt_trichotomy(a[0].node, b[0].node);
        lemma_sorted_drop_first(a);
        lemma_sorted_drop_first(b);
        if bytes_lt(a[0].node, b[0].node) {
            lemma_merge_entries_sorted(a.drop_first(), b);
            lemma_merge_entries_contains(a.drop_first(), b);
            let t = merge_entries(a.drop_first(), b);
            assert forall|j: int| 0 < j < m.len() implies bytes_lt(a[0].node, #[trigger] m[j].node) by {
                assert(m[j] == t[j - 1]);
                if a.drop_first().contains(t[j - 1]) {
                    let w = choose|w: int|
                        0 <= w < a.drop_first().len() && a.drop_first()[w] == t[j - 1];
                    assert(a[w + 1] == t[j - 1]);
                    assert(bytes_lt(a[0].node, a[w + 1].node));
                } else {
                    let w = choose|w: int| 0 <= w < b.len() && b[w] == t[j - 1];
                    if w == 0 {
                    } else {
                        crate::data::lemma_bytes_lt_transitive(a[0].node, b[0].node, b[w].node);
                    }
                }
            }
            assert forall|x: int, y: int| 0 <= x < y < m.len() implies bytes_lt(
                #[trigger] m[x].node,
                #[trigger] m[y].node,
            ) by {
                if x > 0 {
                    assert(m[x] == t[x - 1] && m[y] == t[y - 1]);
                }
            }
        } else if bytes_lt(b[0].node, a[0].node) {
            lemma_merge_entries_sorted(a, b.drop_first());
            lemma_merge_entries_contains(a, b.drop_first());
            let t = merge_entries(a, b.drop_first());
            assert forall|j: int| 0 < j < m.len() implies bytes_lt(b[0].node, #[trigger] m[j].node) by {
                assert(m[j] == t[j - 1]);
                if b.drop_first().contains(t[j - 1]) {
                    let w = choose|w: int|
                        0 <= w < b.drop_first().len() && b.drop_first()[w] == t[j - 1];
                    assert(b[w + 1] == t[j - 1]);
                    assert(bytes_lt(b[0].node, b[w + 1].node));
                } else {
                    let w = choose|w: int| 0 <= w < a.len() && a[w] == t[j - 1];
                    if w == 0 {
                    } else {
                        crate::data::lemma_bytes_lt_transitive(b[0].node, a[0].node, a[w].node);
                    }
                }
            }
            assert forall|x: int, y: int| 0 <= x < y < m.len() implies bytes_lt(
                #[trigger] m[x].node,
                #[trigger] m[y].node,
            ) by {
                if x > 0 {
                    assert(m[x] == t[x - 1] && m[y] == t[y - 1]);
                }
            }
        } else {
            assert(a[0].node =~= b[0].node);
            lemma_merge_entries_sorted(a.drop_first(), b.drop_first());
            lemma_merge_entries_contains(a.drop_first(), b.drop_first());
            let t = merge_entries(a.drop_first(), b.drop_first());
            let h = keep_entry(a[0], b[0]);
            assert(h.node == a[0].node);
            assert forall|j: int| 0 < j < m.len() implies bytes_lt(h.node, #[trigger] m[j].node) by {
                assert(m[j] == t[j - 1]);
                if a.drop_first().contains(t[j - 1]) {
                    let w = choose|w: int|
                        0 <= w < a.drop_first().len() && a.drop_first()[w] == t[j - 1];
                    assert(a[w + 1] == t[j - 1]);
                    assert(bytes_lt(a[0].node, a[w + 1].node));
                } else {
                    let w = choose|w: int|
                        0 <= w < b.drop_first().len() && b.drop_first()[w] == t[j - 1];
                    assert(b[w + 1] == t[j - 1]);
                    assert(bytes_lt(b[0].node, b[w + 1].node));
                }
            }
            assert forall|x: int, y: int| 0 <= x < y < m.len() implies bytes_lt(
                #[trigger] m[x].node,
                #[trigger] m[y].node,
            ) by {
                if x > 0 {
                    assert(m[x] == t[x - 1] && m[y] == t[y - 1]);
                }
            }
        }
    }
}

/// Every line of an applied table is a committed line or a retagged
/// staged line.
pub proof fn lemma_apply_staging_contains(roles: Seq<EntryV>, staging: Seq<EntryV>, t: u64)
    ensures
        forall|k: int|
            0 <= k < apply_staging(roles, staging, t).len() ==> (roles.contains(
                #[trigger] apply_staging(roles, staging, t)[k],
            ) || (exists|j: int|
                0 <= j < staging.len() && apply_staging(roles, staging, t)[k] == retag(
                    #[trigger] staging[j],
                    t,
                ))),
    decreases roles.len() + staging.len(),
{
    let m = apply_staging(roles, staging, t);
    if staging.len() == 0 {
    } else if roles.len() == 0 {
        lemma_apply_staging_contains(roles, staging.drop_first(), t);
        let tl = apply_staging(roles, staging.drop_first(), t);
        assert forall|k: int| 0 <= k < m.len() implies (roles.contains(#[trigger] m[k]) || (
        exists|j: int| 0 <= j < staging.len() && m[k] == retag(#[trigger] staging[j], t))) by {
            if k == 0 {
                assert(m[0] == retag(staging[0], t));
            } else {
                assert(m[k] == tl[k - 1]);
                if !roles.contains(tl[k - 1]) {
                    let w = choose|w: int|
                        0 <= w < staging.drop_first().len() && tl[k - 1] == retag(
                            staging.drop_first()[w],
                            t,
                        );
                    assert(staging[w + 1] == staging.drop_first()[w]);
                }
            }
        }
    } else if bytes_lt(roles[0].node, staging[0].node) {
        lemma_apply_staging_contains(roles.drop_first(), staging, t);
        let tl = apply_staging(roles.drop_first(), staging, t);
        assert forall|k: int| 0 <= k < m.len() implies (roles.contains(#[trigger] m[k]) || (
        exists|j: int| 0 <= j < staging.len() && m[k] == retag(#[trigger] staging[j], t))) by {
            if k == 0 {
                assert(roles.contains(roles[0]));
            } else {
                assert(m[k] == tl[k - 1]);
                if roles.drop_first().contains(tl[k - 1]) {
                    let w = choose|w: int|
                        0 <= w < roles.drop_first().len() && roles.drop_first()[w] == tl[k - 1];
                    assert(roles[w + 1] == tl[k - 1]);
                    assert(roles.contains(roles[w + 1]));
                }
            }
        }
    } else if bytes_lt(staging[0].node, roles[0].node) {
        lemma_apply_staging_contains(roles, staging.drop_first(), t);
        let tl = apply_staging(roles, staging.drop_first(), t);
        assert forall|k: int| 0 <= k < m.len() implies (roles.contains(#[trigger] m[k]) || (
        exists|j: int| 0 <= j < staging.len() && m[k] == retag(#[trigger] staging[j], t))) by {
            if k == 0 {
                assert(m[0] == retag(staging[0], t));
            } else {
                assert(m[k] == tl[k - 1]);
                if !roles.contains(tl[k - 1]) {
                    let w = choose|w: int|
                        0 <= w < staging.drop_first().len() && tl[k - 1] == retag(
                            staging.drop_first()[w],
                            t,
                        );
                    assert(staging[w + 1] == staging.drop_first()[w]);
                }
            }
        }
    } else {
        lemma_apply_staging_contains(roles.drop_first(), staging.drop_first(), t);
        let tl = apply_staging(roles.drop_first(), staging.drop_first(), t);
        assert forall|k: int| 0 <= k < m.len() implies (roles.contains(#[trigger] m[k]) || (
        exists|j: int| 0 <= j < staging.len() && m[k] == retag(#[trigger] staging[j], t))) by {
            if k == 0 {
                assert(m[0] == retag(staging[0], t));
            } else {
                assert(m[k] == tl[k - 1]);
                if roles.drop_first().contains(tl[k - 1]) {
                    let w = choose|w: int|
                        0 <= w < roles.drop_first().len() && roles.drop_first()[w] == tl[k - 1];
                    assert(roles[w + 1] == tl[k - 1]);
                    assert(roles.contains(roles[w + 1]));
                } else {
                    let w = choose|w: int|
                        0 <= w < staging.drop_first().len() && tl[k - 1] == retag(
                            staging.drop_first()[w],
                            t,
                        );
                    assert(staging[w + 1] == staging.drop_first()[w]);
                }
            }
        }
    }
}

/// Applying sorted staging to a sorted committed table yields a sorted
/// table.
pub proof fn lemma_apply_staging_sorted(roles: Seq<EntryV>, staging: Seq<EntryV>, t: u64)
    requires
        entries_sorted(roles),
        entries_sorted(staging),
    ensures
        entries_sorted(apply_staging(roles, staging, t)),
    decreases roles.len() + staging.len(),
{
    let m = apply_staging(roles, staging, t);
    if staging.len() == 0 {
    } else {
        lemma_sorted_drop_first(staging);
        if roles.len() == 0 {
            lemma_apply_staging_sorted(roles, staging.drop_first(), t);
            lemma_apply_staging_contains(roles, staging.drop_first(), t);
            let tl = apply_staging(roles, staging.drop_first(), t);
            assert forall|j: int| 0 < j < m.len() implies bytes_lt(
                staging[0].node,
                #[trigger] m[j].node,
            ) by {
                assert(m[j] == tl[j - 1]);
                let w = choose|w: int|
                    0 <= w < staging.drop_first().len() && tl[j - 1] == retag(
                        staging.drop_first()[w],
                        t,
                    );
                assert(staging.drop_first()[w] == staging[w + 1]);
            }
            assert forall|x: int, y: int| 0 <= x < y < m.len() implies bytes_lt(
                #[trigger] m[x].node,
                #[trigger] m[y].node,
            ) by {
                if x > 0 {
                    assert(m[x] == tl[x - 1] && m[y] == tl[y - 1]);
                }
            }
        } else {
            crate::data::lemma_bytes_lt_trichotomy(roles[0].node, staging[0].node);
            lemma_sorted_drop_first(roles);
            if bytes_lt(roles[0].node, staging[0].node) {
                lemma_apply_staging_sorted(roles.drop_first(), staging, t);
                lemma_apply_staging_contains(roles.drop_first(), staging, t);
                let tl = apply_staging(roles.drop_first(), staging, t);
                assert forall|j: int| 0 < j < m.len() implies bytes_lt(
                    roles[0].node,
                    #[trigger] m[j].node,
                ) by {
                    assert(m[j] == tl[j - 1]);
                    if roles.drop_first().contains(tl[j - 1]) {
                        let w = choose|w: int|
                            0 <= w < roles.drop_first().len() && roles.drop_first()[w] == tl[j - 1];
                        assert(roles[w + 1] == roles.drop_first()[w]);
                        assert(bytes_lt(roles[0].node, roles[w + 1].node));
                    } else {
                        let w = choose|w: int|
                            0 <= w < staging.len() && tl[j - 1] == retag(staging[w], t);
                        if w > 0 {
                            crate::data::lemma_bytes_lt_transitive(
                                roles[0].node,
                                staging[0].node,
                                staging[w].node,
                            );
                        }
                    }
                }
                assert forall|x: int, y: int| 0 <= x < y < m.len() implies bytes_lt(
                    #[trigger] m[x].node,
                    #[trigger] m[y].node,
                ) by {
                    if x > 0 {
                        assert(m[x] == tl[x - 1] && m[y] == tl[y - 1]);
                    }
                }
            } else if bytes_lt(staging[0].node, roles[0].node) {
                lemma_apply_staging_sorted(roles, staging.drop_first(), t);
                lemma_apply_staging_contains(roles, staging.drop_first(), t);
                let tl = apply_staging(roles, staging.drop_first(), t);
                assert forall|j: int| 0 < j < m.len() implies bytes_lt(
                    staging[0].node,
                    #[trigger] m[j].node,
                ) by {
                    assert(m[j] == tl[j - 1]);
                    if roles.contains(tl[j - 1]) {
                        let w = choose|w: int| 0 <= w < roles.len() && roles[w] == tl[j - 1];
                        if w > 0 {
                            crate::data::lemma_bytes_lt_transitive(
                                staging[0].node,
                                roles[0].node,
                                roles[w].node,
                            );
                        }
                    } else {
                        let w = choose|w: int|
                            0 <= w < staging.drop_first().len() && tl[j - 1] == retag(
                                staging.drop_first()[w],
                                t,
                            );
                        assert(staging.drop_first()[w] == staging[w + 1]);
                    }
                }
                assert forall|x: int, y: int| 0 <= x < y < m.len() implies bytes_lt(
                    #[trigger] m[x].node,
                    #[trigger] m[y].node,
                ) by {
                    if x > 0 {
                        assert(m[x] == tl[x - 1] && m[y] == tl[y - 1]);
                    }
                }
            } else {
                assert(roles[0].node =~= staging[0].node);
                lemma_apply_staging_sorted(roles.drop_first(), staging.drop_first(), t);
                lemma_apply_staging_contains(roles.drop_first(), staging.drop_first(), t);
                let tl = apply_staging(roles.drop_first(), staging.drop_first(), t);
                assert forall|j: int| 0 < j < m.len() implies bytes_lt(
                    staging[0].node,
                    #[trigger] m[j].node,
                ) by {
                    assert(m[j] == tl[j - 1]);
                    if roles.drop_first().contains(tl[j - 1]) {
                        let w = choose|w: int|
                            0 <= w < roles.drop_first().len() && roles.drop_first()[w] == tl[j - 1];
                        assert(roles[w + 1] == roles.drop_first()[w]);
                        assert(bytes_lt(roles[0].node, roles[w + 1].node));
                    } else {
                        let w = choose|w: int|
                            0 <= w < staging.drop_first().len() && tl[j - 1] == retag(
                                staging.drop_first()[w],
                                t,
                            );
                        assert(staging.drop_first()[w] == staging[w + 1]);
                    }
                }
                assert forall|x: int, y: int| 0 <= x < y < m.len() implies bytes_lt(
                    #[trigger] m[x].node,
                    #[trigger] m[y].node,
                ) by {
                    if x > 0 {
                        assert(m[x] == tl[x - 1] && m[y] == tl[y - 1]);
                    }
                }
            }
        }
    }
}

/// Decides `roles_check` over a committed table.
pub fn check_roles(roles: &Vec<RoleEntry>, rf: usize) -> (r: bool)
    ensures
        r == roles_check(entries_v(roles@), rf as int),
{
    let ghost s = entries_v(roles@);
    let mut i: usize = 0;
    while i < roles.len()
        invariant
            i <= roles@.len(),
            s == entries_v(roles@),
            forall|k: int|
                0 <= k < i ==> ((#[trigger] s[k]).role matches Some(r) ==> r.zone.len() > 0),
        decreases roles@.len() - i,
    {
        match &roles[i].role {
            Some(role) => {
                if role.zone.len() == 0 {
                    proof {
                        assert(s[i as int].role matches Some(r) && r.zone.len() == 0);
                    }
                    return false;
                }
            },
            None => {},
        }
        i = i + 1;
    }
    let mut count: usize = 0;
    i = 0;
    proof {
        reveal(Seq::filter);
    }
    while i < roles.len()
        invariant
            i <= roles@.len(),
            s == entries_v(roles@),
            count <= i,
            count == s.subrange(0, i as int).filter(assigned_pred()).len(),
        decreases roles@.len() - i,
    {
        let is_assigned = match &roles[i].role {
            Some(_) => true,
            None => false,
        };
        if is_assigned {
            count = count + 1;
        }
        proof {
            reveal(Seq::filter);
            let pre = s.subrange(0, i as int);
            let s1 = s.subrange(0, i + 1);
            assert(s1.drop_last() =~= pre);
            assert(s1.last() == s[i as int]);
            assert(assigned_pred()(s[i as int]) == is_assigned);
        }
        i = i + 1;
    }
    proof {
        assert(s.subrange(0, s.len() as int) =~= s);
    }
    count >= rf
}

/// The canonical encoding of an optional role, as a fresh vector.
fn enc_opt_role_vec(r: &Option<NodeRole>) -> (v: Vec<u8>)
    ensures
        v@ == enc_opt_role(opt_role_v(*r)),
{
    let mut out: Vec<u8> = Vec::new();
    enc_opt_role_into(&mut out, r);
    proof {
        assert(Seq::<u8>::empty() + enc_opt_role(opt_role_v(*r)) =~= enc_opt_role(opt_role_v(*r)));
    }
    out
}

/// Decides which of two entries for the same node survives a merge.
fn keep_entry_exec(x: &RoleEntry, y: &RoleEntry) -> (r: RoleEntry)
    ensures
        r@ == keep_entry(x@, y@),
{
    if y.tag > x.tag {
        copy_entry(y)
    } else if y.tag < x.tag {
        copy_entry(x)
    } else {
        let ex = enc_opt_role_vec(&x.role);
        let ey = enc_opt_role_vec(&y.role);
        match bytes_cmp(ex.as_slice(), ey.as_slice()) {
            Cmp::Lt => copy_entry(y),
            _ => {
                proof {
                    crate::data::lemma_bytes_lt_trichotomy(ex@, ey@);
                }
                copy_entry(x)
            },
        }
    }
}

/// Merges two sorted role tables.
fn merge_entries_exec(a: &Vec<RoleEntry>, b: &Vec<RoleEntry>) -> (r: Vec<RoleEntry>)
    ensures
        entries_v(r@) == merge_entries(entries_v(a@), entries_v(b@)),
{
    let ghost av = entries_v(a@);
    let ghost bv = entries_v(b@);
    let mut out: Vec<RoleEntry> = Vec::new();
    let mut i: usize = 0;
    let mut j: usize = 0;
    proof {
        assert(av.skip(0) =~= av);
        assert(bv.skip(0) =~= bv);
        assert(entries_v(out@) =~= Seq::<EntryV>::empty());
    }
    while i < a.len() || j < b.len()
        invariant
            i <= av.len(),
            j <= bv.len(),
            av == entries_v(a@),
            bv == entries_v(b@),
            merge_entries(av, bv) == entries_v(out@) + merge_entries(
                av.skip(i as int),
                bv.skip(j as int),
            ),
        decreases av.len() - i + bv.len() - j,
    {
        let ghost ra = av.skip(i as int);
        let ghost rb = bv.skip(j as int);
        if j == b.len() {
            proof {
                assert(ra[0] == av[i as int]);
                assert(rb.len() == 0);
                assert(merge_entries(ra, rb) == ra);
                assert(ra =~= seq![av[i as int]] + av.skip(i + 1));
                assert(merge_entries(av.skip(i + 1), rb) == av.skip(i + 1));
            }
            out.push(copy_entry(&a[i]));
            proof {
                assert(entries_v(out@) =~= entries_v(out@.drop_last()).push(av[i as int]));
                assert(entries_v(out@.drop_last()).push(av[i as int]) + merge_entries(
                    av.skip(i + 1),
                    bv.skip(j as int),
                ) =~= entries_v(out@.drop_last()) + merge_entries(ra, rb));
            }
            i = i + 1;
        } else if i == a.len() {
            proof {
                assert(rb[0] == bv[j as int]);
                assert(ra.len() == 0);
                assert(merge_entries(ra, rb) == rb);
                assert(rb =~= seq![bv[j as int]] + bv.skip(j + 1));
                assert(merge_entries(ra, bv.skip(j + 1)) == bv.skip(j + 1));
            }
            out.push(copy_entry(&b[j]));
            proof {
                assert(entries_v(out@) =~= entries_v(out@.drop_last()).push(bv[j as int]));
                assert(entries_v(out@.drop_last()).push(bv[j as int]) + merge_entries(
                    av.skip(i as int),
                    bv.skip(j + 1),
                ) =~= entries_v(out@.drop_last()) + merge_entries(ra, rb));
            }
            j = j + 1;
        } else {
            proof {
                assert(ra[0] == av[i as int]);
                assert(rb[0] == bv[j as int]);
                assert(ra.drop_first() =~= av.skip(i + 1));
                assert(rb.drop_first() =~= bv.skip(j + 1));
            }
            match fb32_cmp(&a[i].node, &b[j].node) {
                Cmp::Lt => {
                    proof {
                        assert(merge_entries(ra, rb) == seq![ra[0]] + merge_entries(
                            ra.drop_first(),
                            rb,
                        ));
                    }
                    out.push(copy_entry(&a[i]));
                    proof {
                        assert(entries_v(out@) =~= entries_v(out@.drop_last()).push(av[i as int]));
                        assert(entries_v(out@.drop_last()).push(av[i as int]) + merge_entries(
                            av.skip(i + 1),
                            bv.skip(j as int),
                        ) =~= entries_v(out@.drop_last()) + merge_entries(ra, rb));
                    }
                    i = i + 1;
                },
                Cmp::Gt => {
                    proof {
                        crate::data::lemma_bytes_lt_trichotomy(ra[0].node, rb[0].node);
                        assert(merge_entries(ra, rb) == seq![rb[0]] + merge_entries(
                            ra,
                            rb.drop_first(),
                        ));
                    }
                    out.push(copy_entry(&b[j]));
                    proof {
                        assert(entries_v(out@) =~= entries_v(out@.drop_last()).push(bv[j as int]));
                        assert(entries_v(out@.drop_last()).push(bv[j as int]) + merge_entries(
                            av.skip(i as int),
                            bv.skip(j + 1),
                        ) =~= entries_v(out@.drop_last()) + merge_entries(ra, rb));
                    }
                    j = j + 1;
                },
                Cmp::Eq => {
                    proof {
                        crate::data::lemma_bytes_lt_trichotomy(ra[0].node, rb[0].node);
                        assert(merge_entries(ra, rb) == seq![keep_entry(ra[0], rb[0])]
                            + merge_entries(ra.drop_first(), rb.drop_first()));
                    }
                    out.push(keep_entry_exec(&a[i], &b[j]));
                    proof {
                        assert(entries_v(out@) =~= entries_v(out@.drop_last()).push(
                            keep_entry(ra[0], rb[0]),
                        ));
                        assert(entries_v(out@.drop_last()).push(keep_entry(ra[0], rb[0]))
                            + merge_entries(av.skip(i + 1), bv.skip(j + 1)) =~= entries_v(
                            out@.drop_last(),
                        ) + merge_entries(ra, rb));
                    }
                    i = i + 1;
                    j = j + 1;
                },
            }
        }
    }
    proof {
        assert(av.skip(av.len() as int).len() == 0);
        assert(merge_entries(av.skip(i as int), bv.skip(j as int)).len() == 0);
        assert(entries_v(out@) + merge_entries(av.skip(i as int), bv.skip(j as int)) =~= entries_v(
            out@,
        ));
    }
    out
}

/// Applies sorted staging to a sorted committed table, retagging every
/// staged line with the new version.
fn apply_staging_exec(roles: &Vec<RoleEntry>, staging: &Vec<RoleEntry>, t: u64) -> (r: Vec<
    RoleEntry,
>)
    ensures
        entries_v(r@) == apply_staging(entries_v(roles@), entries_v(staging@), t),
{
    let ghost av = entries_v(roles@);
    let ghost bv = entries_v(staging@);
    let mut out: Vec<RoleEntry> = Vec::new();
    let mut i: usize = 0;
    let mut j: usize = 0;
    proof {
        assert(av.skip(0) =~= av);
        assert(bv.skip(0) =~= bv);
        assert(entries_v(out@) =~= Seq::<EntryV>::empty());
    }
    while i < roles.len() || j < staging.len()
        invariant
            i <= av.len(),
            j <= bv.len(),
            av == entries_v(roles@),
            bv == entries_v(staging@),
            apply_staging(av, bv, t) == entries_v(out@) + apply_staging(
                av.skip(i as int),
                bv.skip(j as int),
                t,
            ),
        decreases av.len() - i + bv.len() - j,
    {
        let ghost ra = av.skip(i as int);
        let ghost rb = bv.skip(j as int);
        if j == staging.len() {
            proof {
                assert(ra[0] == av[i as int]);
                assert(rb.len() == 0);
                assert(apply_staging(ra, rb, t) == ra);
                assert(ra =~= seq![av[i as int]] + av.skip(i + 1));
                assert(apply_staging(av.skip(i + 1), rb, t) == av.skip(i + 1));
            }
            out.push(copy_entry(&roles[i]));
            proof {
                assert(entries_v(out@) =~= entries_v(out@.drop_last()).push(av[i as int]));
                assert(entries_v(out@.drop_last()).push(av[i as int]) + apply_staging(
                    av.skip(i + 1),
                    bv.skip(j as int),
                    t,
                ) =~= entries_v(out@.drop_last()) + apply_staging(ra, rb, t));
            }
            i = i + 1;
        } else {
            proof {
                assert(rb[0] == bv[j as int]);
                assert(rb.drop_first() =~= bv.skip(j + 1));
            }
            let staged = &staging[j];
            let retagged = RoleEntry { node: staged.node, tag: t, role: copy_opt_role(&staged.role) };
            proof {
                assert(retagged@ == retag(bv[j as int], t));
            }
            if i == roles.len() {
                proof {
                    assert(ra.len() == 0);
                    assert(apply_staging(ra, rb, t) == seq![retag(rb[0], t)] + apply_staging(
                        ra,
                        rb.drop_first(),
                        t,
                    ));
                }
                out.push(retagged);
                proof {
                    assert(entries_v(out@) =~= entries_v(out@.drop_last()).push(
                        retag(bv[j as int], t),
                    ));
                    assert(entries_v(out@.drop_last()).push(retag(bv[j as int], t))
                        + apply_staging(av.skip(i as int), bv.skip(j + 1), t) =~= entries_v(
                        out@.drop_last(),
                    ) + apply_staging(ra, rb, t));
                }
                j = j + 1;
            } else {
                proof {
                    assert(ra[0] == av[i as int]);
                    assert(ra.drop_first() =~= av.skip(i + 1));
                }
                match fb32_cmp(&roles[i].node, &staging[j].node) {
                    Cmp::Lt => {
                        proof {
                            assert(apply_staging(ra, rb, t) == seq![ra[0]] + apply_staging(
                                ra.drop_first(),
                                rb,
                                t,
                            ));
                        }
                        out.push(copy_entry(&roles[i]));
                        proof {
                            assert(entries_v(out@) =~= entries_v(out@.drop_last()).push(
                                av[i as int],
                            ));
                            assert(entries_v(out@.drop_last()).push(av[i as int]) + apply_staging(
                                av.skip(i + 1),
                                bv.skip(j as int),
                                t,
                            ) =~= entries_v(out@.drop_last()) + apply_staging(ra, rb, t));
                        }
                        i = i + 1;
                    },
                    Cmp::Gt => {
                        proof {
                            crate::data::lemma_bytes_lt_trichotomy(ra[0].node, rb[0].node);
                            assert(apply_staging(ra, rb, t) == seq![retag(rb[0], t)]
                                + apply_staging(ra, rb.drop_first(), t));
                        }
                        out.push(retagged);
                        proof {
                            assert(entries_v(out@) =~= entries_v(out@.drop_last()).push(
                                retag(bv[j as int], t),
                            ));
                            assert(entries_v(out@.drop_last()).push(retag(bv[j as int], t))
                                + apply_staging(av.skip(i as int), bv.skip(j + 1), t) =~= entries_v(
                                out@.drop_last(),
                            ) + apply_staging(ra, rb, t));
                        }
                        j = j + 1;
                    },
                    Cmp::Eq => {
                        proof {
                            crate::data::lemma_bytes_lt_trichotomy(ra[0].node, rb[0].node);
                            assert(apply_staging(ra, rb, t) == seq![retag(rb[0], t)]
                                + apply_staging(ra.drop_first(), rb.drop_first(), t));
                        }
                        out.push(retagged);
                        proof {
                            assert(entries_v(out@) =~= entries_v(out@.drop_last()).push(
                                retag(bv[j as int], t),
                            ));
                            assert(entries_v(out@.drop_last()).push(retag(bv[j as int], t))
                                + apply_staging(av.skip(i + 1), bv.skip(j + 1), t) =~= entries_v(
                                out@.drop_last(),
                            ) + apply_staging(ra, rb, t));
                        }
                        i = i + 1;
                        j = j + 1;
                    },
                }
            }
        }
    }
    proof {
        assert(apply_staging(av.skip(i as int), bv.skip(j as int), t).len() == 0);
        assert(entries_v(out@) + apply_staging(av.skip(i as int), bv.skip(j as int), t)
            =~= entries_v(out@));
    }
    out
}

/// Byte-vector equality.
pub fn bytes_eq(a: &Vec<u8>, b: &Vec<u8>) -> (r: bool)
    ensures
        r == (a@ == b@),
{
    match bytes_cmp(a.as_slice(), b.as_slice()) {
        Cmp::Eq => true,
        _ => {
            proof {
                crate::data::lemma_bytes_lt_trichotomy(a@, b@);
            }
            false
        },
    }
}

/// Role equality, at the level of views.
pub fn role_eq(a: &NodeRole, b: &NodeRole) -> (r: bool)
    ensures
        r == (a@ == b@),
{
    if !bytes_eq(&a.zone, &b.zone) {
        return false;
    }
    let cap_ok = match (a.capacity, b.capacity) {
        (None, None) => true,
        (Some(x), Some(y)) => x == y,
        _ => false,
    };
    if !cap_ok {
        return false;
    }
    if a.tags.len() != b.tags.len() {
        proof {
            assert(a@.tags.len() != b@.tags.len());
        }
        return false;
    }
    let mut i: usize = 0;
    while i < a.tags.len()
        invariant
            i <= a.tags@.len(),
            a.tags@.len() == b.tags@.len(),
            a@.zone == b@.zone,
            a@.capacity == b@.capacity,
            forall|k: int| 0 <= k < i ==> a@.tags[k] == b@.tags[k],
        decreases a.tags@.len() - i,
    {
        if !bytes_eq(&a.tags[i], &b.tags[i]) {
            proof {
                assert(a@.tags[i as int] != b@.tags[i as int]);
            }
            return false;
        }
        i = i + 1;
    }
    proof {
        assert(a@.tags =~= b@.tags);
    }
    true
}

/// Optional-role equality, at the level of views.
pub fn opt_role_eq(a: &Option<NodeRole>, b: &Option<NodeRole>) -> (r: bool)
    ensures
        r == (opt_role_v(*a) == opt_role_v(*b)),
{
    match (a, b) {
        (None, None) => true,
        (Some(x), Some(y)) => role_eq(x, y),
        _ => false,
    }
}

/// Table-line equality, at the level of views.
pub fn entry_eq(a: &RoleEntry, b: &RoleEntry) -> (r: bool)
    ensures
        r == (a@ == b@),
{
    crate::data::fb32_eq(&a.node, &b.node) && a.tag == b.tag && opt_role_eq(&a.role, &b.role)
}

/// Table equality, at the level of views.
pub fn entries_eq(a: &Vec<RoleEntry>, b: &Vec<RoleEntry>) -> (r: bool)
    ensures
        r == (entries_v(a@) == entries_v(b@)),
{
    if a.len() != b.len() {
        proof {
            assert(entries_v(a@).len() != entries_v(b@).len());
        }
        return false;
    }
    let mut i: usize = 0;
    while i < a.len()
        invariant
            i <= a@.len(),
            a@.len() == b@.len(),
            forall|k: int| 0 <= k < i ==> (#[trigger] a@[k])@ == b@[k]@,
        decreases a@.len() - i,
    {
        if !entry_eq(&a[i], &b[i]) {
            proof {
                assert(entries_v(a@)[i as int] != entries_v(b@)[i as int]);
            }
            return false;
        }
        i = i + 1;
    }
    proof {
        assert(entries_v(a@) =~= entries_v(b@));
    }
    true
}

// ---------------------------------------------------------------------
// Laws of the merge.
// ---------------------------------------------------------------------

/// An entry survives a merge with itself unchanged.
proof fn lemma_keep_self(y: EntryV)
    ensures
        keep_entry(y, y) == y,
{
    crate::data::lemma_bytes_lt_trichotomy(enc_opt_role(y.role), enc_opt_role(y.role));
}

/// Merging a table with itself changes nothing.
proof fn lemma_merge_entries_self(b: Seq<EntryV>)
    ensures
        merge_entries(b, b) == b,
    decreases b.len(),
{
    if b.len() == 0 {
    } else {
        crate::data::lemma_bytes_lt_trichotomy(b[0].node, b[0].node);
        lemma_keep_self(b[0]);
        lemma_merge_entries_self(b.drop_first());
        assert(merge_entries(b, b) == seq![b[0]] + b.drop_first());
        assert(seq![b[0]] + b.drop_first() =~= b);
    }
}

/// Merging the same table in a second time changes nothing.
proof fn lemma_merge_entries_idem(a: Seq<EntryV>, b: Seq<EntryV>)
    ensures
        merge_entries(merge_entries(a, b), b) == merge_entries(a, b),
    decreases a.len() + b.len(),
{
    let m = merge_entries(a, b);
    if a.len() == 0 {
        lemma_merge_entries_self(b);
    } else if b.len() == 0 {
    } else {
        crate::data::lemma_bytes_lt_trichotomy(a[0].node, b[0].node);
        if bytes_lt(a[0].node, b[0].node) {
            let t = merge_entries(a.drop_first(), b);
            assert(m == seq![a[0]] + t);
            assert(m[0] == a[0]);
            assert(m.drop_first() =~= t);
            lemma_merge_entries_idem(a.drop_first(), b);
            assert(merge_entries(m, b) == seq![m[0]] + merge_entries(m.drop_first(), b));
            assert(merge_entries(m, b) =~= m);
        } else if bytes_lt(b[0].node, a[0].node) {
            let t = merge_entries(a, b.drop_first());
            assert(m == seq![b[0]] + t);
            assert(m[0] == b[0]);
            assert(m.drop_first() =~= t);
            lemma_merge_entries_idem(a, b.drop_first());
            lemma_keep_self(b[0]);
            crate::data::lemma_bytes_lt_trichotomy(m[0].node, b[0].node);
            assert(merge_entries(m, b) == seq![keep_entry(m[0], b[0])] + merge_entries(
                m.drop_first(),
                b.drop_first(),
            ));
            assert(merge_entries(m, b) =~= m);
        } else {
            let h = keep_entry(a[0], b[0]);
            let t = merge_entries(a.drop_first(), b.drop_first());
            assert(m == seq![h] + t);
            assert(m[0] == h);
            assert(m.drop_first() =~= t);
            lemma_merge_entries_idem(a.drop_first(), b.drop_first());
            assert(keep_entry(h, b[0]) == h) by {
                if h == b[0] {
                    lemma_keep_self(b[0]);
                } else {
                    assert(h == a[0]);
                }
            }
            assert(h.node == b[0].node);
            crate::data::lemma_bytes_lt_trichotomy(h.node, b[0].node);
            assert(merge_entries(m, b) == seq![keep_entry(m[0], b[0])] + merge_entries(
                m.drop_first(),
                b.drop_first(),
            ));
            assert(merge_entries(m, b) =~= m);
        }
    }
}

/// Dropping the first line keeps a table bounded.
proof fn lemma_bounded_drop_first(s: Seq<EntryV>)
    requires
        entries_bounded(s),
        s.len() > 0,
    ensures
        entries_bounded(s.drop_first()),
{
    assert forall|k: int| 0 <= k < s.drop_first().len() implies entry_bounded(
        #[trigger] s.drop_first()[k],
    ) by {
        assert(s.drop_first()[k] == s[k + 1]);
    }
}

/// For entries of one node, survival is symmetric: both orders keep the
/// same entry.
proof fn lemma_keep_commutes(x: EntryV, y: EntryV)
    requires
        x.node == y.node,
        opt_role_bounded(x.role),
        opt_role_bounded(y.role),
    ensures
        keep_entry(x, y) == keep_entry(y, x),
{
    crate::data::lemma_bytes_lt_trichotomy(enc_opt_role(x.role), enc_opt_role(y.role));
    if x.tag == y.tag && enc_opt_role(x.role) == enc_opt_role(y.role) {
        crate::codec::lemma_enc_opt_role_injective(x.role, y.role);
        assert(x =~= y);
    }
}

/// The union of two staging areas does not depend on the order of its
/// arguments.
proof fn lemma_merge_entries_commutes(a: Seq<EntryV>, b: Seq<EntryV>)
    requires
        entries_bounded(a),
        entries_bounded(b),
    ensures
        merge_entries(a, b) == merge_entries(b, a),
    decreases a.len() + b.len(),
{
    if a.len() == 0 || b.len() == 0 {
    } else {
        crate::data::lemma_bytes_lt_trichotomy(a[0].node, b[0].node);
        lemma_bounded_drop_first(a);
        lemma_bounded_drop_first(b);
        if bytes_lt(a[0].node, b[0].node) {
            lemma_merge_entries_commutes(a.drop_first(), b);
        } else if bytes_lt(b[0].node, a[0].node) {
            lemma_merge_entries_commutes(a, b.drop_first());
        } else {
            assert(entry_bounded(a[0]) && entry_bounded(b[0]));
            lemma_keep_commutes(a[0], b[0]);
            lemma_merge_entries_commutes(a.drop_first(), b.drop_first());
        }
    }
}

/// Merging the same layout in a second time is a no-op: the layout that
/// came out of the first merge absorbs the second.
pub proof fn lemma_merge_idempotent(a: LayoutV, b: LayoutV)
    requires
        layout_wf(a),
        layout_wf(b),
        a.replication_factor == b.replication_factor,
    ensures
        spec_merge(spec_merge(a, b), b) == spec_merge(a, b),
{
    let m = spec_merge(a, b);
    lemma_merge_entries_idem(a.staging, b.staging);
    if b.version > a.version {
        crate::data::lemma_bytes_lt_trichotomy(roles_hash_v(m.roles), roles_hash_v(b.roles));
    } else if b.version == a.version && bytes_lt(roles_hash_v(a.roles), roles_hash_v(b.roles)) {
        crate::data::lemma_bytes_lt_trichotomy(roles_hash_v(m.roles), roles_hash_v(b.roles));
    }
    assert(spec_merge(m, b) =~= m);
}

/// Merging is commutative wherever the version and hash pair decides:
/// admissible inputs are layouts whose committed tables differ only if
/// their versions or their roles hashes differ.
pub proof fn lemma_merge_commutative(a: LayoutV, b: LayoutV)
    requires
        layout_wf(a),
        layout_wf(b),
        a.replication_factor == b.replication_factor,
        entries_bounded(a.staging),
        entries_bounded(b.staging),
        a.version != b.version || roles_hash_v(a.roles) != roles_hash_v(b.roles) || a.roles
            == b.roles,
    ensures
        spec_merge(a, b) == spec_merge(b, a),
{
    lemma_merge_entries_commutes(a.staging, b.staging);
    if a.version == b.version && roles_hash_v(a.roles) != roles_hash_v(b.roles) {
        crate::data::lemma_bytes_lt_trichotomy(roles_hash_v(a.roles), roles_hash_v(b.roles));
    }
    assert(spec_merge(a, b) =~= spec_merge(b, a));
}

/// Across any merge, the layout version never decreases, and the merged
/// version is one of the two inputs' versions.
pub proof fn lemma_merge_version_monotonic(a: LayoutV, b: LayoutV)
    ensures
        spec_merge(a, b).version >= a.version,
        spec_merge(a, b).version >= b.version,
        spec_merge(a, b).version == a.version || spec_merge(a, b).version == b.version,
{
}

/// Decides strict node-order of a role table.
pub fn entries_sorted_exec(v: &Vec<RoleEntry>) -> (r: bool)
    ensures
        r == entries_sorted(entries_v(v@)),
{
    let ghost s = entries_v(v@);
    if v.len() == 0 {
        return true;
    }
    let mut i: usize = 0;
    while i + 1 < v.len()
        invariant
            i < s.len(),
            s == entries_v(v@),
            s.len() == v@.len(),
            v@.len() <= usize::MAX,
            forall|k: int| 0 <= k < i ==> bytes_lt(#[trigger] s[k].node, s[k + 1].node),
        decreases s.len() - i,
    {
        match fb32_cmp(&v[i].node, &v[i + 1].node) {
            Cmp::Lt => {
                i = i + 1;
            },
            _ => {
                proof {
                    crate::data::lemma_bytes_lt_trichotomy(s[i as int].node, s[i + 1].node);
                }
                return false;
            },
        }
    }
    proof {
        assert forall|x: int, y: int| 0 <= x < y < s.len() implies bytes_lt(
            #[trigger] s[x].node,
            #[trigger] s[y].node,
        ) by {
            lemma_sorted_from_adjacent(s, x, y);
        }
    }
    true
}

/// Adjacent order gives full order.
proof fn lemma_sorted_from_adjacent(s: Seq<EntryV>, x: int, y: int)
    requires
        forall|k: int| 0 <= k < s.len() - 1 ==> bytes_lt(#[trigger] s[k].node, s[k + 1].node),
        0 <= x < y < s.len(),
    ensures
        bytes_lt(s[x].node, s[y].node),
    decreases y - x,
{
    if y == x + 1 {
    } else {
        lemma_sorted_from_adjacent(s, x, y - 1);
        crate::data::lemma_bytes_lt_transitive(s[x].node, s[y - 1].node, s[y].node);
    }
}

impl ClusterLayout {
    /// Rebuilds a layout from stored fields, recomputing the staging
    /// hash; tables that are not sorted by node are refused as corrupt.
    pub fn from_parts(
        version: u64,
        replication_factor: usize,
        update_counter: u64,
        roles: Vec<RoleEntry>,
        staging: Vec<RoleEntry>,
    ) -> (r: Result<ClusterLayout, Error>)
        ensures
            r is Ok <==> (entries_sorted(entries_v(roles@)) && entries_sorted(
                entries_v(staging@),
            )),
            r matches Ok(l) ==> l.wf() && l@.version == version && l@.replication_factor
                == replication_factor && l@.update_counter == update_counter && l@.roles
                == entries_v(roles@) && l@.staging == entries_v(staging@),
            r matches Err(e) ==> e is CorruptData,
    {
        if !entries_sorted_exec(&roles) || !entries_sorted_exec(&staging) {
            return Err(Error::CorruptData(FixedBytes32 { b: [0u8; 32] }));
        }
        let staging_hash = table_hash(&staging);
        Ok(
            ClusterLayout {
                version,
                replication_factor,
                update_counter,
                roles,
                staging,
                staging_hash,
            },
        )
    }
}

} // verus!
