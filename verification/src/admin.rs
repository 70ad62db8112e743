//! Operator-facing computations: the cluster status report and the
//! node-prefix selection behind the layout commands.

use vstd::prelude::*;

use crate::data::Uuid;
use crate::error::Error;
use crate::hexcode::{find_matching_nodes, prefix_pred};
use crate::layout::{entries_v, ClusterLayout, EntryV, RoleEntry};
use crate::ring::nodes_v;
use crate::system::{copy_status, KnownNodeInfo, KnownNodeV};

verus! {

/// The operator's view of the cluster: known nodes that hold a role,
/// nodes with a role that are not known (failed), and known nodes
/// without a role (unconfigured).
pub struct ClusterStatusReport {
    pub healthy: Vec<KnownNodeInfo>,
    pub failed: Vec<Uuid>,
    pub unconfigured: Vec<Uuid>,
}

/// The views of a known-node vector.
pub open spec fn knowns_v(s: Seq<KnownNodeInfo>) -> Seq<KnownNodeV> {
    s.map_values(|k: KnownNodeInfo| k@)
}

/// Whether the committed table assigns `id` a role.
pub open spec fn has_assigned(roles: Seq<EntryV>, id: Seq<u8>) -> bool {
    exists|j: int| 0 <= j < roles.len() && (#[trigger] roles[j]).node == id && roles[j].role is Some
}

/// Whether a known-node list names `id`.
pub open spec fn has_known_id(ks: Seq<KnownNodeV>, id: Seq<u8>) -> bool {
    exists|i: int| 0 <= i < ks.len() && (#[trigger] ks[i]).id == id
}

/// The healthy test: a known node with an assigned role.
pub open spec fn healthy_pred(roles: Seq<EntryV>) -> spec_fn(KnownNodeV) -> bool {
    |k: KnownNodeV| has_assigned(roles, k.id)
}

/// The unconfigured test: a known node without a role.
pub open spec fn unconfigured_pred(roles: Seq<EntryV>) -> spec_fn(KnownNodeV) -> bool {
    |k: KnownNodeV| !has_assigned(roles, k.id)
}

/// The failed test: an assigned node that is not known.
pub open spec fn failed_pred(ks: Seq<KnownNodeV>) -> spec_fn(EntryV) -> bool {
    |e: EntryV| e.role is Some && !has_known_id(ks, e.node)
}

/// Copies a known-node line; the copy has the same view.
fn copy_known(k: &KnownNodeInfo) -> (c: KnownNodeInfo)
    ensures
        c@ == k@,
{
    KnownNodeInfo {
        id: k.id,
        addr: k.addr,
        is_up: k.is_up,
        last_seen_secs_ago: k.last_seen_secs_ago,
        status: copy_status(&k.status),
    }
}

/// Decides whether the committed table assigns `id` a role.
fn assigned_lookup(layout: &ClusterLayout, id: &Uuid) -> (r: bool)
    ensures
        r == has_assigned(entries_v(layout.roles@), id@),
{
    let ghost roles = entries_v(layout.roles@);
    let mut j: usize = 0;
    while j < layout.roles.len()
        invariant
            j <= roles.len(),
            roles == entries_v(layout.roles@),
            forall|k: int| 0 <= k < j ==> !((#[trigger] roles[k]).node == id@ && roles[k].role is Some),
        decreases roles.len() - j,
    {
        let assigned = match &layout.roles[j].role {
            Some(_) => true,
            None => false,
        };
        if assigned && crate::data::fb32_eq(&layout.roles[j].node, id) {
            proof {
                assert(roles[j as int].node == id@ && roles[j as int].role is Some);
            }
            return true;
        }
        j = j + 1;
    }
    false
}

/// Decides whether a known-node list names `id`.
fn known_lookup(known: &Vec<KnownNodeInfo>, id: &Uuid) -> (r: bool)
    ensures
        r == has_known_id(knowns_v(known@), id@),
{
    let mut i: usize = 0;
    while i < known.len()
        invariant
            i <= known@.len(),
            forall|k: int| 0 <= k < i ==> (#[trigger] known@[k])@.id != id@,
        decreases known@.len() - i,
    {
        if crate::data::fb32_eq(&known[i].id, id) {
            proof {
                assert(knowns_v(known@)[i as int].id == id@);
            }
            return true;
        }
        i = i + 1;
    }
    proof {
        assert forall|k: int| 0 <= k < knowns_v(known@).len() implies (#[trigger] knowns_v(
            known@,
        )[k]).id != id@ by {
            assert(knowns_v(known@)[k] == known@[k]@);
        }
    }
    false
}

/// Partitions what the operator sees: known nodes with a role, assigned
/// nodes that are missing, and known nodes without a role.
pub fn cluster_status_report(known: &Vec<KnownNodeInfo>, layout: &ClusterLayout) -> (r:
    ClusterStatusReport)
    ensures
        knowns_v(r.healthy@) == knowns_v(known@).filter(healthy_pred(entries_v(layout.roles@))),
        nodes_v(r.failed@) == entries_v(layout.roles@).filter(
            failed_pred(knowns_v(known@)),
        ).map_values(|e: EntryV| e.node),
        nodes_v(r.unconfigured@) == knowns_v(known@).filter(
            unconfigured_pred(entries_v(layout.roles@)),
        ).map_values(|k: KnownNodeV| k.id),
{
    let ghost roles = entries_v(layout.roles@);
    let ghost ks = knowns_v(known@);
    let mut healthy: Vec<KnownNodeInfo> = Vec::new();
    let mut unconfigured: Vec<Uuid> = Vec::new();
    let mut i: usize = 0;
    proof {
        reveal(Seq::filter);
        assert(knowns_v(healthy@) =~= ks.subrange(0, 0).filter(healthy_pred(roles)));
        assert(nodes_v(unconfigured@) =~= ks.subrange(0, 0).filter(
            unconfigured_pred(roles),
        ).map_values(|k: KnownNodeV| k.id));
    }
    while i < known.len()
        invariant
            i <= ks.len(),
            ks == knowns_v(known@),
            roles == entries_v(layout.roles@),
            knowns_v(healthy@) == ks.subrange(0, i as int).filter(healthy_pred(roles)),
            nodes_v(unconfigured@) == ks.subrange(0, i as int).filter(
                unconfigured_pred(roles),
            ).map_values(|k: KnownNodeV| k.id),
        decreases ks.len() - i,
    {
        let assigned = assigned_lookup(layout, &known[i].id);
        let ghost h0 = knowns_v(healthy@);
        let ghost u0 = nodes_v(unconfigured@);
        if assigned {
            healthy.push(copy_known(&known[i]));
        } else {
            unconfigured.push(known[i].id);
        }
        proof {
            reveal(Seq::filter);
            let pre = ks.subrange(0, i as int);
            let s1 = ks.subrange(0, i + 1);
            assert(s1.drop_last() =~= pre);
            assert(s1.last() == ks[i as int]);
            assert(ks[i as int] == known@[i as int]@);
            assert(healthy_pred(roles)(ks[i as int]) == assigned);
            assert(unconfigured_pred(roles)(ks[i as int]) == !assigned);
            if assigned {
                assert(knowns_v(healthy@) =~= h0.push(ks[i as int]));
                assert(s1.filter(healthy_pred(roles)) =~= pre.filter(healthy_pred(roles)).push(
                    ks[i as int],
                ));
                assert(s1.filter(unconfigured_pred(roles)) =~= pre.filter(
                    unconfigured_pred(roles),
                ));
                assert(knowns_v(healthy@) =~= s1.filter(healthy_pred(roles)));
                assert(nodes_v(unconfigured@) =~= s1.filter(unconfigured_pred(roles)).map_values(
                    |k: KnownNodeV| k.id,
                ));
            } else {
                assert(nodes_v(unconfigured@) =~= u0.push(ks[i as int].id));
                assert(s1.filter(unconfigured_pred(roles)) =~= pre.filter(
                    unconfigured_pred(roles),
                ).push(ks[i as int]));
                assert(s1.filter(healthy_pred(roles)) =~= pre.filter(healthy_pred(roles)));
                assert(knowns_v(healthy@) =~= s1.filter(healthy_pred(roles)));
                assert(nodes_v(unconfigured@) =~= s1.filter(unconfigured_pred(roles)).map_values(
                    |k: KnownNodeV| k.id,
                ));
            }
        }
        i = i + 1;
    }
    proof {
        assert(ks.subrange(0, ks.len() as int) =~= ks);
    }
    let mut failed: Vec<Uuid> = Vec::new();
    let mut j: usize = 0;
    proof {
        reveal(Seq::filter);
        assert(nodes_v(failed@) =~= roles.subrange(0, 0).filter(failed_pred(ks)).map_values(
            |e: EntryV| e.node,
        ));
    }
    while j < layout.roles.len()
        invariant
            j <= roles.len(),
            ks == knowns_v(known@),
            roles == entries_v(layout.roles@),
            nodes_v(failed@) == roles.subrange(0, j as int).filter(failed_pred(ks)).map_values(
                |e: EntryV| e.node,
            ),
        decreases roles.len() - j,
    {
        let assigned = match &layout.roles[j].role {
            Some(_) => true,
            None => false,
        };
        let is_failed = assigned && !known_lookup(known, &layout.roles[j].node);
        let ghost f0 = nodes_v(failed@);
        if is_failed {
            failed.push(layout.roles[j].node);
        }
        proof {
            reveal(Seq::filter);
            let pre = roles.subrange(0, j as int);
            let s1 = roles.subrange(0, j + 1);
            assert(s1.drop_last() =~= pre);
            assert(s1.last() == roles[j as int]);
            assert(failed_pred(ks)(roles[j as int]) == is_failed);
            if is_failed {
                assert(nodes_v(failed@) =~= f0.push(roles[j as int].node));
                assert(s1.filter(failed_pred(ks)) =~= pre.filter(failed_pred(ks)).push(
                    roles[j as int],
                ));
            } else {
                assert(s1.filter(failed_pred(ks)) =~= pre.filter(failed_pred(ks)));
            }
            assert(nodes_v(failed@) =~= s1.filter(failed_pred(ks)).map_values(
                |e: EntryV| e.node,
            ));
        }
        j = j + 1;
    }
    proof {
        assert(roles.subrange(0, roles.len() as int) =~= roles);
    }
    ClusterStatusReport { healthy, failed, unconfigured }
}

/// Resolves the node an operator named by a hex prefix: accepted only
/// when exactly one known node matches.
pub fn select_node(ids: &Vec<Uuid>, prefix: &[u8]) -> (r: Result<Uuid, Error>)
    ensures
        r is Ok <==> ids@.filter(prefix_pred(prefix@)).len() == 1,
        r matches Ok(u) ==> u == ids@.filter(prefix_pred(prefix@))[0],
        r matches Err(e) ==> e is BadRequest,
{
    let m = find_matching_nodes(ids, prefix);
    if m.len() == 1 {
        Ok(m[0])
    } else {
        Err(Error::BadRequest("the prefix does not name exactly one node".to_owned()))
    }
}

/// Discards pending layout edits, guarded by the version the operator
/// expects the next commit to produce.
pub fn revert_staged(layout: &mut ClusterLayout, expected_version: u64) -> (r: Result<(), Error>)
    requires
        old(layout).wf(),
    ensures
        final(layout).wf(),
        r is Ok <==> expected_version == old(layout)@.version + 1,
        r is Ok ==> final(layout)@.staging == old(layout)@.roles && final(layout)@.version == old(layout)@.version && final(layout)@.roles == old(layout)@.roles && final(layout)@.replication_factor == old(layout)@.replication_factor,
        r is Err ==> *final(layout) == *old(layout),
        r matches Err(e) ==> e is BadRequest,
{
    if expected_version > 0 && expected_version - 1 == layout.version {
        layout.revert();
        Ok(())
    } else {
        Err(Error::BadRequest("layout version mismatch".to_owned()))
    }
}

/// The committed role of a node, if the table has a line for it:
/// `Some(None)` records a committed removal.
pub open spec fn find_role(roles: Seq<EntryV>, node: Seq<u8>) -> Option<
    Option<crate::layout::RoleV>,
>
    decreases roles.len(),
{
    if roles.len() == 0 {
        None
    } else if roles[0].node == node {
        Some(roles[0].role)
    } else {
        find_role(roles.drop_first(), node)
    }
}

/// The pending test: a staged line that differs from what is committed
/// for its node.
pub open spec fn staged_change_pred(roles: Seq<EntryV>) -> spec_fn(EntryV) -> bool {
    |e: EntryV| find_role(roles, e.node) != Some(e.role)
}

/// The first matching line's role is what `find_role` names.
proof fn lemma_find_role_at(roles: Seq<EntryV>, node: Seq<u8>, p: int)
    requires
        0 <= p < roles.len(),
        roles[p].node == node,
        forall|k: int| 0 <= k < p ==> (#[trigger] roles[k]).node != node,
    ensures
        find_role(roles, node) == Some(roles[p].role),
    decreases p,
{
    if p == 0 {
    } else {
        assert(roles.drop_first()[p - 1] == roles[p]);
        assert forall|k: int| 0 <= k < p - 1 implies (#[trigger] roles.drop_first()[k]).node
            != node by {
            assert(roles.drop_first()[k] == roles[k + 1]);
        }
        lemma_find_role_at(roles.drop_first(), node, p - 1);
    }
}

/// A node without a line has no committed role.
proof fn lemma_find_role_none(roles: Seq<EntryV>, node: Seq<u8>)
    requires
        forall|k: int| 0 <= k < roles.len() ==> (#[trigger] roles[k]).node != node,
    ensures
        find_role(roles, node) is None,
    decreases roles.len(),
{
    if roles.len() > 0 {
        assert forall|k: int| 0 <= k < roles.drop_first().len() implies (
        #[trigger] roles.drop_first()[k]).node != node by {
            assert(roles.drop_first()[k] == roles[k + 1]);
        }
        lemma_find_role_none(roles.drop_first(), node);
    }
}

/// The pending edits an operator sees: the staged lines that differ
/// from the committed table.
pub fn staged_role_changes(layout: &ClusterLayout) -> (r: Vec<RoleEntry>)
    requires
        layout.wf(),
    ensures
        entries_v(r@) == entries_v(layout.staging@).filter(
            staged_change_pred(entries_v(layout.roles@)),
        ),
{
    let ghost roles = entries_v(layout.roles@);
    let ghost sv = entries_v(layout.staging@);
    let ghost pp = staged_change_pred(roles);
    let mut r: Vec<RoleEntry> = Vec::new();
    let mut i: usize = 0;
    proof {
        reveal(Seq::filter);
        assert(entries_v(r@) =~= sv.subrange(0, 0).filter(pp));
    }
    while i < layout.staging.len()
        invariant
            i <= sv.len(),
            roles == entries_v(layout.roles@),
            sv == entries_v(layout.staging@),
            layout.wf(),
            pp == staged_change_pred(roles),
            entries_v(r@) == sv.subrange(0, i as int).filter(pp),
        decreases sv.len() - i,
    {
        let e = &layout.staging[i];
        let (pos, found) = crate::layout::locate(&layout.roles, &e.node);
        let differs: bool;
        if found {
            proof {
                assert forall|k: int| 0 <= k < pos implies (#[trigger] roles[k]).node
                    != e@.node by {
                    crate::data::lemma_bytes_lt_trichotomy(roles[k].node, e@.node);
                }
                lemma_find_role_at(roles, e@.node, pos as int);
            }
            differs = !crate::layout::opt_role_eq(&layout.roles[pos].role, &e.role);
        } else {
            proof {
                assert forall|k: int| 0 <= k < roles.len() implies (#[trigger] roles[k]).node
                    != e@.node by {
                    crate::data::lemma_bytes_lt_trichotomy(roles[k].node, e@.node);
                }
                lemma_find_role_none(roles, e@.node);
            }
            differs = true;
        }
        proof {
            assert(sv[i as int] == layout.staging@[i as int]@);
            assert(pp(sv[i as int]) == differs);
        }
        let ghost r0 = entries_v(r@);
        if differs {
            r.push(crate::layout::copy_entry(e));
        }
        proof {
            reveal(Seq::filter);
            let pre = sv.subrange(0, i as int);
            let s1 = sv.subrange(0, i + 1);
            assert(s1.drop_last() =~= pre);
            assert(s1.last() == sv[i as int]);
            if differs {
                assert(s1.filter(pp) =~= pre.filter(pp).push(sv[i as int]));
                assert(entries_v(r@) =~= r0.push(sv[i as int]));
            } else {
                assert(s1.filter(pp) =~= pre.filter(pp));
            }
        }
        i = i + 1;
    }
    proof {
        assert(sv.subrange(0, sv.len() as int) =~= sv);
    }
    r
}

} // verus!
