//! The membership manager's state and decisions: local status, the
//! status cache of peers, layout advertisement handling with rollback,
//! and the discovery trigger.
//!
//! Everything here is a pure state transition; the loops that call these
//! functions, the transport that carries their messages, and the clock
//! that supplies `now` live outside the crate and hand in plain values.

use vstd::prelude::*;
use vstd::string::StringExecFns;

use crate::data::{fb32_eq, HashVal, NodeAddr, Uuid};
use crate::error::Error;
use crate::layout::{layout_check, spec_merge, ClusterLayout};
use crate::peers::{peers_sorted, status_wf, Status};
use crate::ring::{ring_wf, Ring};

verus! {

/// The heartbeat a node sends to every known peer.
#[derive(Clone, Copy, Debug, PartialEq, Eq)]
pub struct PingMessage {
    pub id: Uuid,
    pub rpc_port: u16,
    pub status_hash: HashVal,
    pub config_version: u64,
}

/// The compact status a node advertises on the status-exchange tick;
/// a hint that a peer may hold a newer layout, never authoritative.
#[derive(Clone, Debug)]
pub struct NodeStatus {
    pub hostname: String,
    pub replication_factor: usize,
    pub cluster_layout_version: u64,
    pub cluster_layout_staging_hash: HashVal,
}

/// Mathematical image of a node status.
#[verifier::ext_equal]
pub ghost struct NodeStatusV {
    pub hostname: Seq<char>,
    pub replication_factor: usize,
    pub cluster_layout_version: u64,
    pub cluster_layout_staging_hash: Seq<u8>,
}

impl View for NodeStatus {
    type V = NodeStatusV;

    open spec fn view(&self) -> NodeStatusV {
        NodeStatusV {
            hostname: self.hostname@,
            replication_factor: self.replication_factor,
            cluster_layout_version: self.cluster_layout_version,
            cluster_layout_staging_hash: self.cluster_layout_staging_hash@,
        }
    }
}

/// What is known about one peer, as served to operators.
#[derive(Clone, Debug)]
pub struct KnownNodeInfo {
    pub id: Uuid,
    pub addr: NodeAddr,
    pub is_up: bool,
    pub last_seen_secs_ago: Option<u64>,
    pub status: NodeStatus,
}

/// Mathematical image of a known-node line.
#[verifier::ext_equal]
pub ghost struct KnownNodeV {
    pub id: Seq<u8>,
    pub addr: crate::data::AddrV,
    pub is_up: bool,
    pub last_seen_secs_ago: Option<u64>,
    pub status: NodeStatusV,
}

impl View for KnownNodeInfo {
    type V = KnownNodeV;

    open spec fn view(&self) -> KnownNodeV {
        KnownNodeV {
            id: self.id@,
            addr: self.addr@,
            is_up: self.is_up,
            last_seen_secs_ago: self.last_seen_secs_ago,
            status: self.status@,
        }
    }
}

/// The membership RPC alphabet.
#[derive(Debug)]
pub enum SystemRpc {
    /// Response to a successful advertisement.
    Accepted,
    /// Ask a node to connect to the peer named `<hex id>@<host>:<port>`.
    Connect(String),
    /// Ask a node for its layout; answered with `AdvertiseClusterLayout`.
    PullClusterLayout,
    /// Periodic status exchange.
    AdvertiseStatus(NodeStatus),
    /// A layout, sent spontaneously or as an answer.
    AdvertiseClusterLayout(ClusterLayout),
    /// Ask for the known-nodes table.
    GetKnownNodes,
    /// The known-nodes table.
    ReturnKnownNodes(Vec<KnownNodeInfo>),
}

/// One line of the status cache: when a peer last advertised, and what.
#[derive(Clone, Debug)]
pub struct NodeStatusEntry {
    pub id: Uuid,
    pub time_ms: u64,
    pub status: NodeStatus,
}

/// Mathematical image of a status-cache line.
#[verifier::ext_equal]
pub ghost struct NodeStatusEntryV {
    pub id: Seq<u8>,
    pub time_ms: u64,
    pub status: NodeStatusV,
}

impl View for NodeStatusEntry {
    type V = NodeStatusEntryV;

    open spec fn view(&self) -> NodeStatusEntryV {
        NodeStatusEntryV { id: self.id@, time_ms: self.time_ms, status: self.status@ }
    }
}

/// The views of the status cache.
pub open spec fn statuses_v(s: Seq<NodeStatusEntry>) -> Seq<NodeStatusEntryV> {
    s.map_values(|e: NodeStatusEntry| e@)
}

/// The cache with a peer's advertisement recorded: its first line for
/// the peer is replaced, or a line is appended.
pub open spec fn upsert_status(s: Seq<NodeStatusEntryV>, e: NodeStatusEntryV) -> Seq<
    NodeStatusEntryV,
>
    decreases s.len(),
{
    if s.len() == 0 {
        seq![e]
    } else if s[0].id == e.id {
        seq![e] + s.drop_first()
    } else {
        seq![s[0]] + upsert_status(s.drop_first(), e)
    }
}

/// The cached status of a peer, if any.
pub open spec fn find_status(s: Seq<NodeStatusEntryV>, id: Seq<u8>) -> Option<NodeStatusV>
    decreases s.len(),
{
    if s.len() == 0 {
        None
    } else if s[0].id == id {
        Some(s[0].status)
    } else {
        find_status(s.drop_first(), id)
    }
}

/// The placeholder status served for a peer that never advertised.
pub open spec fn default_status_v() -> NodeStatusV {
    NodeStatusV {
        hostname: seq!['?'],
        replication_factor: 0,
        cluster_layout_version: 0,
        cluster_layout_staging_hash: Seq::new(32, |i: int| 0u8),
    }
}

/// Seconds elapsed since a millisecond timestamp, zero when the clock
/// ran backwards.
pub open spec fn secs_ago_v(now_ms: u64, t: Option<u64>) -> Option<u64> {
    match t {
        None => None,
        Some(x) => Some(
            (if now_ms >= x {
                (now_ms - x) / 1000
            } else {
                0
            }) as u64,
        ),
    }
}

/// What a status advertisement asks the caller to do.
#[derive(Clone, Copy, Debug, PartialEq, Eq, Structural)]
pub enum StatusAction {
    /// A peer runs a higher replication factor: continuing would
    /// silently under-replicate data, so the process must stop.
    Fatal,
    /// The peer hints at a newer or diverged layout: pull it.
    PullLayout,
    /// Nothing to do.
    NoAction,
}

/// This node's membership manager: identity, the derived ring, the peer
/// table, and the status cache.
pub struct System {
    pub id: Uuid,
    pub replication_factor: usize,
    pub local_status: NodeStatus,
    pub status: Status,
    pub node_status: Vec<NodeStatusEntry>,
    pub ring: Ring,
}

impl System {
    /// The manager's invariant: the ring is that of its own well-formed
    /// layout, the peer table is consistent, and the configured
    /// replication factor runs through everything.
    pub open spec fn wf(&self) -> bool {
        &&& ring_wf(self.ring@)
        &&& status_wf(self.status@)
        &&& self.ring@.layout.replication_factor == self.replication_factor
        &&& self.local_status@.replication_factor == self.replication_factor
    }

    /// Builds the manager around a loaded or fresh layout. Refused when
    /// the layout's replication factor is not the configured one: a
    /// stored layout from a different configuration must not be
    /// adopted silently.
    pub fn new(id: Uuid, replication_factor: usize, hostname: String, layout: ClusterLayout) -> (r:
        Result<System, Error>)
        requires
            layout.wf(),
        ensures
            r is Ok <==> layout@.replication_factor == replication_factor,
            r matches Ok(s) ==> s.wf() && s.ring@.layout == layout@ && s.id@ == id@
                && s.replication_factor == replication_factor && s.local_status@.hostname
                == hostname@ && s.local_status@.cluster_layout_version == layout@.version
                && s.local_status@.cluster_layout_staging_hash == layout@.staging_hash
                && s.node_status@.len() == 0 && s.status@.nodes.len() == 0,
            r matches Err(e) ==> e is Forbidden,
    {
        if layout.replication_factor != replication_factor {
            return Err(
                Error::Forbidden(
                    "stored layout has a different replication factor than the configuration".to_owned(),
                ),
            );
        }
        let local_status = NodeStatus {
            hostname,
            replication_factor,
            cluster_layout_version: layout.version,
            cluster_layout_staging_hash: layout.staging_hash,
        };
        let ring = Ring::new(layout);
        Ok(
            System {
                id,
                replication_factor,
                local_status,
                status: Status::new(),
                node_status: Vec::new(),
                ring,
            },
        )
    }

    /// Refreshes the local status from the current layout.
    pub fn update_local_status(&mut self)
        requires
            old(self).wf(),
        ensures
            final(self).wf(),
            final(self).local_status@.cluster_layout_version == final(self).ring@.layout.version,
            final(self).local_status@.cluster_layout_staging_hash == final(self).ring@.layout.staging_hash,
            final(self).ring == old(self).ring,
            final(self).status == old(self).status,
            final(self).node_status == old(self).node_status,
            final(self).local_status@.hostname == old(self).local_status@.hostname,
    {
        self.local_status.cluster_layout_version = self.ring.layout.version;
        self.local_status.cluster_layout_staging_hash = self.ring.layout.staging_hash;
    }

    /// Reacts to a peer's status advertisement: a higher replication
    /// factor is fatal (no state changes); otherwise the advertisement
    /// is cached, and a newer layout version or a diverged staging hash
    /// asks for a layout pull from that peer.
    pub fn handle_advertise_status(
        &mut self,
        from: &Uuid,
        info: &NodeStatus,
        now_ms: u64,
    ) -> (act: StatusAction)
        requires
            old(self).wf(),
        ensures
            final(self).wf(),
            act == StatusAction::Fatal <==> info@.replication_factor > old(self).local_status@.replication_factor,
            act == StatusAction::Fatal ==> *final(self) == *old(self),
            act != StatusAction::Fatal ==> statuses_v(final(self).node_status@) == upsert_status(
                statuses_v(old(self).node_status@),
                NodeStatusEntryV { id: from@, time_ms: now_ms, status: info@ },
            ),
            act != StatusAction::Fatal ==> final(self).ring == old(self).ring && final(self).status
                == old(self).status && final(self).local_status == old(self).local_status,
            act == StatusAction::PullLayout <==> (info@.replication_factor <= old(self).local_status@.replication_factor && (info@.cluster_layout_version > old(self).local_status@.cluster_layout_version || info@.cluster_layout_staging_hash != old(self).local_status@.cluster_layout_staging_hash)),
    {
        if info.replication_factor > self.local_status.replication_factor {
            return StatusAction::Fatal;
        }
        let pull = info.cluster_layout_version > self.local_status.cluster_layout_version
            || !fb32_eq(
            &info.cluster_layout_staging_hash,
            &self.local_status.cluster_layout_staging_hash,
        );
        let entry = NodeStatusEntry { id: *from, time_ms: now_ms, status: copy_status(info) };
        record_status(&mut self.node_status, entry);
        if pull {
            StatusAction::PullLayout
        } else {
            StatusAction::NoAction
        }
    }

    /// Merges an advertised layout. A different replication factor is
    /// refused outright. A merge that invalidates a previously valid
    /// layout is rolled back and refused. Otherwise, if anything
    /// changed, the ring is rebuilt and the caller must broadcast the
    /// layout and save it; the returned flag says so.
    pub fn handle_advertise_cluster_layout(&mut self, adv: &ClusterLayout) -> (r: Result<
        bool,
        Error,
    >)
        requires
            old(self).wf(),
            adv.wf(),
        ensures
            final(self).wf(),
            r is Err <==> (adv@.replication_factor != old(self).replication_factor || (
            layout_check(old(self).ring@.layout) && !layout_check(
                spec_merge(old(self).ring@.layout, adv@),
            ) && spec_merge(old(self).ring@.layout, adv@) != old(self).ring@.layout)),
            r is Err ==> *final(self) == *old(self),
            r matches Err(e) ==> e is Forbidden,
            r matches Ok(changed) ==> (changed == (spec_merge(old(self).ring@.layout, adv@) != old(self).ring@.layout)),
            r == Ok::<bool, Error>(true) ==> final(self).ring@.layout == spec_merge(
                old(self).ring@.layout,
                adv@,
            ),
            r == Ok::<bool, Error>(false) ==> *final(self) == *old(self),
            final(self).status == old(self).status,
            final(self).node_status == old(self).node_status,
            final(self).local_status == old(self).local_status,
    {
        if adv.replication_factor != self.replication_factor {
            return Err(
                Error::Forbidden(
                    "advertised layout has a different replication factor".to_owned(),
                ),
            );
        }
        let prev_check = self.ring.layout.check();
        let mut candidate = self.ring.layout.duplicate();
        let changed = candidate.merge(adv);
        if !changed {
            return Ok(false);
        }
        if prev_check && !candidate.check() {
            return Err(Error::Forbidden("merged layout fails the zone check".to_owned()));
        }
        self.ring.layout = candidate;
        self.ring.rebuild_ring();
        Ok(true)
    }

    /// Serves the current layout for a pull.
    pub fn handle_pull_cluster_layout(&self) -> (r: ClusterLayout)
        requires
            self.wf(),
        ensures
            r@ == self.ring@.layout,
            r.wf(),
    {
        self.ring.layout.duplicate()
    }

    /// Assembles the known-nodes table: one line per known peer, with
    /// its liveness, the seconds since it was last seen, and its cached
    /// status (or the placeholder for peers that never advertised).
    pub fn get_known_nodes(&self, now_ms: u64) -> (r: Vec<KnownNodeInfo>)
        requires
            self.wf(),
        ensures
            r@.len() == self.status@.nodes.len(),
            forall|i: int|
                0 <= i < r@.len() ==> {
                    let p = self.status@.nodes[i];
                    let kn = (#[trigger] r@[i])@;
                    kn.id == p.id && kn.addr == p.addr && kn.is_up == p.is_up
                        && kn.last_seen_secs_ago == secs_ago_v(now_ms, p.last_seen) && kn.status
                        == (match find_status(statuses_v(self.node_status@), p.id) {
                        Some(st) => st,
                        None => default_status_v(),
                    })
                },
    {
        let mut r: Vec<KnownNodeInfo> = Vec::new();
        let mut i: usize = 0;
        while i < self.status.nodes.len()
            invariant
                i <= self.status.nodes@.len(),
                r@.len() == i,
                forall|k: int|
                    0 <= k < i ==> {
                        let p = self.status@.nodes[k];
                        let kn = (#[trigger] r@[k])@;
                        kn.id == p.id && kn.addr == p.addr && kn.is_up == p.is_up
                            && kn.last_seen_secs_ago == secs_ago_v(now_ms, p.last_seen) && kn.status
                            == (match find_status(statuses_v(self.node_status@), p.id) {
                            Some(st) => st,
                            None => default_status_v(),
                        })
                    },
            decreases self.status.nodes@.len() - i,
        {
            let p = &self.status.nodes[i];
            let last_seen_secs_ago = match p.last_seen {
                None => None,
                Some(t) => Some(
                    (if now_ms >= t {
                        (now_ms - t) / 1000
                    } else {
                        0
                    }),
                ),
            };
            let st = lookup_status(&self.node_status, &p.id);
            r.push(
                KnownNodeInfo {
                    id: p.id,
                    addr: p.addr,
                    is_up: p.is_up,
                    last_seen_secs_ago,
                    status: st,
                },
            );
            i = i + 1;
        }
        r
    }

    /// Whether a discovery pass is due: the layout fails its check,
    /// fewer peers are connected than the replication factor, or the
    /// number of live peers differs from the number of nodes the layout
    /// assigns a role.
    pub fn should_trigger_discovery(&self, n_connected: usize, n_up: usize) -> (r: bool)
        requires
            self.wf(),
        ensures
            r == (!layout_check(self.ring@.layout) || (n_connected as int)
                < self.replication_factor as int || (n_up as int) != crate::layout::assigned_count(
                self.ring@.layout.roles,
            )),
    {
        let not_configured = !self.ring.layout.check();
        let no_peers = n_connected < self.replication_factor;
        let expected = count_assigned(&self.ring.layout.roles);
        not_configured || no_peers || n_up != expected
    }

    /// Dispatches one inbound membership RPC. Advertisement answers are
    /// `Ok`; pulls answer with the layout or the known-nodes table; the
    /// variants that are only ever answers are refused.
    pub fn handle_rpc(&mut self, msg: &SystemRpc, from: &Uuid, now_ms: u64) -> (r: (Result<
        SystemRpc,
        Error,
    >, StatusAction))
        requires
            old(self).wf(),
        ensures
            final(self).wf(),
            msg is PullClusterLayout ==> (r.0 matches Ok(resp) && (resp matches
                SystemRpc::AdvertiseClusterLayout(l) && l@ == old(self).ring@.layout)
                && *final(self) == *old(self)),
            msg is GetKnownNodes ==> (r.0 matches Ok(resp) && resp is ReturnKnownNodes && *final(self) == *old(self)),
            msg is Connect ==> (r.0 matches Ok(resp) && resp is Accepted && *final(self) == *old(self)),
            (msg is Accepted || msg is ReturnKnownNodes) ==> (r.0 matches Err(e)
                && e is UnexpectedMessage && *final(self) == *old(self)),
            msg matches SystemRpc::AdvertiseStatus(info) ==> ((r.1 == StatusAction::Fatal
                <==> info@.replication_factor > old(self).local_status@.replication_factor) && (
            r.0 matches Ok(resp) && resp is Accepted) && (r.1 == StatusAction::Fatal ==> *final(self) == *old(self)) && (r.1 != StatusAction::Fatal ==> (statuses_v(
                final(self).node_status@,
            ) == upsert_status(
                statuses_v(old(self).node_status@),
                (NodeStatusEntryV { id: from@, time_ms: now_ms, status: info@ }),
            ) && final(self).ring == old(self).ring && final(self).status == old(self).status
                && final(self).local_status == old(self).local_status)) && (r.1
                == StatusAction::PullLayout <==> (info@.replication_factor <= old(self).local_status@.replication_factor && (info@.cluster_layout_version > old(self).local_status@.cluster_layout_version || info@.cluster_layout_staging_hash != old(self).local_status@.cluster_layout_staging_hash)))),
            !(msg is AdvertiseStatus) ==> r.1 == StatusAction::NoAction,
            msg matches SystemRpc::AdvertiseClusterLayout(adv) ==> ((!adv.wf() ==> (r.0 matches
                Err(e) && e is BadRequest && *final(self) == *old(self))) && (adv.wf() ==> ((
            r.0 is Err <==> (adv@.replication_factor != old(self).replication_factor || (
            layout_check(old(self).ring@.layout) && !layout_check(
                spec_merge(old(self).ring@.layout, adv@),
            ) && spec_merge(old(self).ring@.layout, adv@) != old(self).ring@.layout))) && (
            r.0 matches Ok(resp) ==> (resp is Accepted && final(self).ring@.layout == spec_merge(
                old(self).ring@.layout,
                adv@,
            ))) && (r.0 is Err ==> *final(self) == *old(self))))),
    {
        match msg {
            SystemRpc::Connect(_) => {
                // The caller owns the transport: it performs the dial
                // itself and reports the outcome.
                (Ok(SystemRpc::Accepted), StatusAction::NoAction)
            },
            SystemRpc::PullClusterLayout => {
                let l = self.handle_pull_cluster_layout();
                (Ok(SystemRpc::AdvertiseClusterLayout(l)), StatusAction::NoAction)
            },
            SystemRpc::AdvertiseStatus(info) => {
                let act = self.handle_advertise_status(from, info, now_ms);
                (Ok(SystemRpc::Accepted), act)
            },
            SystemRpc::AdvertiseClusterLayout(adv) => {
                if !check_layout_shape(adv) {
                    (Err(Error::BadRequest("malformed layout tables".to_owned())),
                    StatusAction::NoAction)
                } else {
                    match self.handle_advertise_cluster_layout(adv) {
                        Ok(_) => (Ok(SystemRpc::Accepted), StatusAction::NoAction),
                        Err(e) => (Err(e), StatusAction::NoAction),
                    }
                }
            },
            SystemRpc::GetKnownNodes => {
                let known = self.get_known_nodes(now_ms);
                (Ok(SystemRpc::ReturnKnownNodes(known)), StatusAction::NoAction)
            },
            _ => (Err(Error::UnexpectedMessage), StatusAction::NoAction),
        }
    }
}

/// Copies a node status; the copy has the same view.
pub fn copy_status(s: &NodeStatus) -> (c: NodeStatus)
    ensures
        c@ == s@,
{
    NodeStatus {
        hostname: s.hostname.as_str().to_owned(),
        replication_factor: s.replication_factor,
        cluster_layout_version: s.cluster_layout_version,
        cluster_layout_staging_hash: s.cluster_layout_staging_hash,
    }
}

/// Records a status advertisement in the cache.
fn record_status(cache: &mut Vec<NodeStatusEntry>, e: NodeStatusEntry)
    ensures
        statuses_v(final(cache)@) == upsert_status(statuses_v(old(cache)@), e@),
{
    let ghost s0 = statuses_v(cache@);
    let ghost ev = e@;
    let n = cache.len();
    let mut i: usize = 0;
    while i < n
        invariant
            i <= n,
            n == cache@.len(),
            s0 == statuses_v(cache@),
            s0 == statuses_v(old(cache)@),
            forall|k: int| 0 <= k < i ==> (#[trigger] s0[k]).id != ev.id,
            ev == e@,
        decreases n - i,
    {
        if fb32_eq(&cache[i].id, &e.id) {
            let ghost pre = cache@;
            cache.remove(i);
            cache.insert(i, e);
            proof {
                assert(cache@ =~= pre.update(i as int, e));
                assert forall|k: int|
                    0 <= k < statuses_v(cache@).len() implies statuses_v(cache@)[k] == s0.update(
                    i as int,
                    ev,
                )[k] by {
                    assert(statuses_v(cache@)[k] == cache@[k]@);
                    if k != i {
                        assert(cache@[k] == pre[k]);
                    }
                }
                assert(statuses_v(cache@) =~= s0.update(i as int, ev));
                lemma_upsert_status_at(s0, ev, i as int);
            }
            return ;
        }
        i = i + 1;
    }
    cache.push(e);
    proof {
        lemma_upsert_status_absent(s0, ev);
        assert(statuses_v(cache@) =~= s0.push(ev));
    }
}

/// Replacing the first matching line is an update at its index.
proof fn lemma_upsert_status_at(s: Seq<NodeStatusEntryV>, e: NodeStatusEntryV, p: int)
    requires
        0 <= p < s.len(),
        s[p].id == e.id,
        forall|k: int| 0 <= k < p ==> (#[trigger] s[k]).id != e.id,
    ensures
        upsert_status(s, e) =~= s.update(p, e),
    decreases p,
{
    if p == 0 {
        assert(upsert_status(s, e) == seq![e] + s.drop_first());
        assert(seq![e] + s.drop_first() =~= s.update(0, e));
    } else {
        assert(s[0].id != e.id);
        assert(s.drop_first()[p - 1] == s[p]);
        assert forall|k: int| 0 <= k < p - 1 implies (#[trigger] s.drop_first()[k]).id != e.id by {
            assert(s.drop_first()[k] == s[k + 1]);
        }
        lemma_upsert_status_at(s.drop_first(), e, p - 1);
        assert(upsert_status(s, e) == seq![s[0]] + upsert_status(s.drop_first(), e));
        assert(seq![s[0]] + s.drop_first().update(p - 1, e) =~= s.update(p, e));
    }
}

/// Recording an unknown peer appends its line.
proof fn lemma_upsert_status_absent(s: Seq<NodeStatusEntryV>, e: NodeStatusEntryV)
    requires
        forall|k: int| 0 <= k < s.len() ==> (#[trigger] s[k]).id != e.id,
    ensures
        upsert_status(s, e) =~= s.push(e),
    decreases s.len(),
{
    if s.len() == 0 {
    } else {
        assert forall|k: int| 0 <= k < s.drop_first().len() implies (#[trigger] s.drop_first()[k]).id
            != e.id by {
            assert(s.drop_first()[k] == s[k + 1]);
        }
        lemma_upsert_status_absent(s.drop_first(), e);
        assert(upsert_status(s, e) == seq![s[0]] + upsert_status(s.drop_first(), e));
        assert(seq![s[0]] + s.drop_first().push(e) =~= s.push(e));
    }
}

/// Looks a peer's cached status up, or serves the placeholder.
fn lookup_status(cache: &Vec<NodeStatusEntry>, id: &Uuid) -> (r: NodeStatus)
    ensures
        r@ == (match find_status(statuses_v(cache@), id@) {
            Some(st) => st,
            None => default_status_v(),
        }),
{
    let ghost s = statuses_v(cache@);
    let n = cache.len();
    let mut i: usize = 0;
    while i < n
        invariant
            i <= n,
            n == cache@.len(),
            s == statuses_v(cache@),
            forall|k: int| 0 <= k < i ==> (#[trigger] s[k]).id != id@,
        decreases n - i,
    {
        if fb32_eq(&cache[i].id, id) {
            proof {
                lemma_find_status_at(s, id@, i as int);
            }
            return copy_status(&cache[i].status);
        }
        i = i + 1;
    }
    proof {
        lemma_find_status_none(s, id@);
        reveal_strlit("?");
    }
    let hostname = String::from_str("?");
    let zero = crate::data::FixedBytes32 { b: [0u8; 32] };
    proof {
        broadcast use vstd::array::group_array_axioms;

        assert(hostname@ =~= seq!['?']);
        assert(zero@ =~= Seq::new(32, |i: int| 0u8));
    }
    NodeStatus {
        hostname,
        replication_factor: 0,
        cluster_layout_version: 0,
        cluster_layout_staging_hash: zero,
    }
}

/// The first matching line's status is what `find_status` names.
proof fn lemma_find_status_at(s: Seq<NodeStatusEntryV>, id: Seq<u8>, p: int)
    requires
        0 <= p < s.len(),
        s[p].id == id,
        forall|k: int| 0 <= k < p ==> (#[trigger] s[k]).id != id,
    ensures
        find_status(s, id) == Some(s[p].status),
    decreases p,
{
    if p == 0 {
    } else {
        assert(s.drop_first()[p - 1] == s[p]);
        assert forall|k: int| 0 <= k < p - 1 implies (#[trigger] s.drop_first()[k]).id != id by {
            assert(s.drop_first()[k] == s[k + 1]);
        }
        lemma_find_status_at(s.drop_first(), id, p - 1);
    }
}

/// Absent peers have no cached status.
proof fn lemma_find_status_none(s: Seq<NodeStatusEntryV>, id: Seq<u8>)
    requires
        forall|k: int| 0 <= k < s.len() ==> (#[trigger] s[k]).id != id,
    ensures
        find_status(s, id) is None,
    decreases s.len(),
{
    if s.len() > 0 {
        assert forall|k: int| 0 <= k < s.drop_first().len() implies (#[trigger] s.drop_first()[k]).id
            != id by {
            assert(s.drop_first()[k] == s[k + 1]);
        }
        lemma_find_status_none(s.drop_first(), id);
    }
}

/// Counts the nodes the layout assigns a role, for the discovery
/// trigger.
fn count_assigned(roles: &Vec<crate::layout::RoleEntry>) -> (r: usize)
    ensures
        r as int == crate::layout::assigned_count(crate::layout::entries_v(roles@)),
{
    let ghost s = crate::layout::entries_v(roles@);
    let mut count: usize = 0;
    let mut i: usize = 0;
    proof {
        reveal(Seq::filter);
    }
    while i < roles.len()
        invariant
            i <= s.len(),
            s == crate::layout::entries_v(roles@),
            count <= i,
            count == s.subrange(0, i as int).filter(crate::layout::assigned_pred()).len(),
        decreases s.len() - i,
    {
        let is_assigned = match &roles[i].role {
            Some(_) => true,
            None => false,
        };
        if is_assigned {
            count = count + 1;
        }
        proof {
            reveal(Seq::filter);
            let pre = s.subrange(0, i as int);
            let s1 = s.subrange(0, i + 1);
            assert(s1.drop_last() =~= pre);
            assert(s1.last() == s[i as int]);
            assert(crate::layout::assigned_pred()(s[i as int]) == is_assigned);
        }
        i = i + 1;
    }
    proof {
        assert(s.subrange(0, s.len() as int) =~= s);
    }
    count
}

/// A quick well-formedness test of a received layout: both tables
/// sorted by node, and the staging hash consistent. A layout from the
/// wire must pass before it may be merged.
pub fn check_layout_shape(l: &ClusterLayout) -> (r: bool)
    ensures
        r == l.wf(),
{
    if !crate::layout::entries_sorted_exec(&l.roles) {
        return false;
    }
    if !crate::layout::entries_sorted_exec(&l.staging) {
        return false;
    }
    let h = crate::codec::table_hash(&l.staging);
    fb32_eq(&h, &l.staging_hash)
}

/// What a ping answer asks the caller to do.
#[derive(Clone, Copy, Debug, PartialEq, Eq, Structural)]
pub struct PingEffects {
    /// The peer is new or moved: advertise it to the others.
    pub advertise: bool,
    /// The peer's status hash differs: pull its peer table.
    pub pull_status: bool,
    /// The peer reports a newer layout: pull it.
    pub pull_config: bool,
}

/// The keep-test for nodes advertised by a peer: unknown nodes other
/// than ourselves are worth pinging.
pub open spec fn to_ping_pred(me: Seq<u8>, nodes0: Seq<crate::peers::PeerV>) -> spec_fn(
    crate::peers::AdvertisedNode,
) -> bool {
    |n: crate::peers::AdvertisedNode|
        n@.id != me && crate::peers::find_peer(nodes0, n@.id) is None
}

/// The peer entry an own-address advertisement implies: the advertised
/// host with our RPC port.
pub open spec fn self_adv_entry(
    a: crate::peers::AdvV,
    port: u16,
    now_ms: u64,
) -> crate::peers::PeerV {
    crate::peers::PeerV {
        id: a.id,
        addr: crate::data::AddrV { v6: a.addr.v6, ip: a.addr.ip, port },
        is_up: true,
        last_seen: Some(now_ms),
        remaining_ping_attempts: crate::MAX_FAILED_PINGS,
    }
}

/// The peer table after every own-address advertisement in a list is
/// recorded, in order.
pub open spec fn apply_self_advs(
    nodes: Seq<crate::peers::PeerV>,
    advs: Seq<crate::peers::AdvV>,
    me: Seq<u8>,
    port: u16,
    now_ms: u64,
) -> Seq<crate::peers::PeerV>
    decreases advs.len(),
{
    if advs.len() == 0 {
        nodes
    } else if advs[0].id == me {
        apply_self_advs(
            crate::peers::upsert_peer(nodes, self_adv_entry(advs[0], port, now_ms)),
            advs.drop_first(),
            me,
            port,
            now_ms,
        )
    } else {
        apply_self_advs(nodes, advs.drop_first(), me, port, now_ms)
    }
}

/// The keep-test for broadcast targets: every known peer but ourselves.
pub open spec fn other_pred(me: Seq<u8>) -> spec_fn(crate::peers::PeerEntry) -> bool {
    |p: crate::peers::PeerEntry| p@.id != me
}

impl System {
    /// Builds the heartbeat this node sends: identity, reachable port,
    /// the peer-table hash, and the layout version.
    pub fn make_ping(&self, rpc_port: u16) -> (p: PingMessage)
        ensures
            p.id == self.id,
            p.rpc_port == rpc_port,
            p.status_hash@ == self.status@.hash,
            p.config_version == self.ring@.layout.version,
    {
        PingMessage {
            id: self.id,
            rpc_port,
            status_hash: self.status.hash,
            config_version: self.ring.layout.version,
        }
    }

    /// The peers a broadcast goes to: every known peer but this node.
    pub fn broadcast_targets(&self) -> (r: Vec<Uuid>)
        ensures
            crate::ring::nodes_v(r@) == self.status.nodes@.filter(other_pred(self.id@)).map_values(
                |p: crate::peers::PeerEntry| p@.id,
            ),
    {
        let ghost pp = other_pred(self.id@);
        let mut r: Vec<Uuid> = Vec::new();
        let mut i: usize = 0;
        proof {
            reveal(Seq::filter);
            assert(crate::ring::nodes_v(r@) =~= self.status.nodes@.subrange(0, 0).filter(
                pp,
            ).map_values(|p: crate::peers::PeerEntry| p@.id));
        }
        while i < self.status.nodes.len()
            invariant
                i <= self.status.nodes@.len(),
                pp == other_pred(self.id@),
                crate::ring::nodes_v(r@) == self.status.nodes@.subrange(0, i as int).filter(
                    pp,
                ).map_values(|p: crate::peers::PeerEntry| p@.id),
            decreases self.status.nodes@.len() - i,
        {
            let keep = !fb32_eq(&self.status.nodes[i].id, &self.id);
            let ghost r0 = crate::ring::nodes_v(r@);
            if keep {
                r.push(self.status.nodes[i].id);
            }
            proof {
                reveal(Seq::filter);
                let pre = self.status.nodes@.subrange(0, i as int);
                let s1 = self.status.nodes@.subrange(0, i + 1);
                assert(s1.drop_last() =~= pre);
                assert(s1.last() == self.status.nodes@[i as int]);
                assert(pp(self.status.nodes@[i as int]) == keep);
                if keep {
                    assert(crate::ring::nodes_v(r@) =~= r0.push(
                        self.status.nodes@[i as int]@.id,
                    ));
                    assert(s1.filter(pp) =~= pre.filter(pp).push(self.status.nodes@[i as int]));
                } else {
                    assert(s1.filter(pp) =~= pre.filter(pp));
                }
                assert(crate::ring::nodes_v(r@) =~= s1.filter(pp).map_values(
                    |p: crate::peers::PeerEntry| p@.id,
                ));
            }
            i = i + 1;
        }
        proof {
            assert(self.status.nodes@.subrange(0, self.status.nodes@.len() as int)
                =~= self.status.nodes@);
        }
        r
    }

    /// Records a successful ping answer: the peer is entered or
    /// refreshed, and the answer's hashes and versions decide what to
    /// pull from it.
    pub fn handle_ping_response(
        &mut self,
        from_ip: crate::data::IpBytes,
        info: &PingMessage,
        now_ms: u64,
    ) -> (e: PingEffects)
        requires
            old(self).wf(),
        ensures
            final(self).wf(),
            final(self).status@.nodes == crate::peers::upsert_peer(
                old(self).status@.nodes,
                crate::peers::PeerV {
                    id: info.id@,
                    addr: (NodeAddr { ip: from_ip, port: info.rpc_port })@,
                    is_up: true,
                    last_seen: Some(now_ms),
                    remaining_ping_attempts: crate::MAX_FAILED_PINGS,
                },
            ),
            e.advertise == (match crate::peers::find_peer(old(self).status@.nodes, info.id@) {
                None => true,
                Some(x) => x.addr != (NodeAddr { ip: from_ip, port: info.rpc_port })@,
            }),
            e.pull_status == (e.advertise || old(self).status@.hash != info.status_hash@),
            e.pull_config == (e.advertise || old(self).ring@.layout.version
                < info.config_version),
            final(self).ring == old(self).ring,
            final(self).node_status == old(self).node_status,
            final(self).local_status == old(self).local_status,
            final(self).id == old(self).id,
            final(self).replication_factor == old(self).replication_factor,
    {
        let addr = NodeAddr { ip: from_ip, port: info.rpc_port };
        let is_new = self.status.handle_ping(&info.id, addr, now_ms);
        let pull_status = is_new || !fb32_eq(&self.status.hash, &info.status_hash);
        let pull_config = is_new || self.ring.layout.version < info.config_version;
        self.status.recalculate_hash();
        PingEffects { advertise: is_new, pull_status, pull_config }
    }

    /// Reacts to a peer advertising nodes: advertisements of this node
    /// teach it its own reachable address; unknown other nodes are
    /// returned for pinging.
    pub fn handle_advertise_nodes_up(
        &mut self,
        adv: &Vec<crate::peers::AdvertisedNode>,
        rpc_port: u16,
        now_ms: u64,
    ) -> (r: Vec<crate::peers::AdvertisedNode>)
        requires
            old(self).wf(),
        ensures
            final(self).wf(),
            r@ == adv@.filter(to_ping_pred(old(self).id@, old(self).status@.nodes)),
            final(self).status@.nodes == apply_self_advs(
                old(self).status@.nodes,
                crate::peers::advs_v(adv@),
                old(self).id@,
                rpc_port,
                now_ms,
            ),
            final(self).ring == old(self).ring,
            final(self).node_status == old(self).node_status,
            final(self).local_status == old(self).local_status,
            final(self).id == old(self).id,
            final(self).replication_factor == old(self).replication_factor,
    {
        let ghost me = self.id@;
        let ghost nodes0 = self.status@.nodes;
        let ghost advs = crate::peers::advs_v(adv@);
        let ghost pp = to_ping_pred(me, nodes0);
        let mut r: Vec<crate::peers::AdvertisedNode> = Vec::new();
        let mut i: usize = 0;
        proof {
            reveal(Seq::filter);
            assert(advs.skip(0) =~= advs);
            assert(r@ =~= adv@.subrange(0, 0).filter(pp));
        }
        while i < adv.len()
            invariant
                i <= adv@.len(),
                old(self).wf(),
                me == old(self).id@,
                self.id == old(self).id,
                nodes0 == old(self).status@.nodes,
                advs == crate::peers::advs_v(adv@),
                pp == to_ping_pred(me, nodes0),
                peers_sorted(self.status@.nodes),
                apply_self_advs(nodes0, advs, me, rpc_port, now_ms) == apply_self_advs(
                    self.status@.nodes,
                    advs.skip(i as int),
                    me,
                    rpc_port,
                    now_ms,
                ),
                forall|x: Seq<u8>|
                    x != me ==> #[trigger] crate::peers::find_peer(self.status@.nodes, x)
                        == crate::peers::find_peer(nodes0, x),
                r@ == adv@.subrange(0, i as int).filter(pp),
                self.ring == old(self).ring,
                self.node_status == old(self).node_status,
                self.local_status == old(self).local_status,
                self.replication_factor == old(self).replication_factor,
                ring_wf(self.ring@),
                self.ring@.layout.replication_factor == self.replication_factor,
                self.local_status@.replication_factor == self.replication_factor,
            decreases adv@.len() - i,
        {
            let ghost cur = self.status@.nodes;
            let ghost ra = advs.skip(i as int);
            proof {
                assert(ra[0] == advs[i as int]);
                assert(ra.drop_first() =~= advs.skip(i + 1));
            }
            let node = &adv[i];
            let is_self = fb32_eq(&node.id, &self.id);
            let keep: bool;
            if is_self {
                let a = NodeAddr { ip: node.addr.ip, port: rpc_port };
                self.status.handle_ping(&node.id, a, now_ms);
                keep = false;
                proof {
                    assert(self.status@.nodes =~= crate::peers::upsert_peer(
                        cur,
                        self_adv_entry(advs[i as int], rpc_port, now_ms),
                    ));
                    assert forall|x: Seq<u8>| x != me implies #[trigger] crate::peers::find_peer(
                        self.status@.nodes,
                        x,
                    ) == crate::peers::find_peer(nodes0, x) by {
                        crate::peers::lemma_find_upsert_other(
                            cur,
                            self_adv_entry(advs[i as int], rpc_port, now_ms),
                            x,
                        );
                    }
                    assert(apply_self_advs(cur, ra, me, rpc_port, now_ms) == apply_self_advs(
                        self.status@.nodes,
                        advs.skip(i + 1),
                        me,
                        rpc_port,
                        now_ms,
                    ));
                    assert(!pp(adv@[i as int]));
                }
            } else {
                let known = match self.status.find(&node.id) {
                    Some(_) => true,
                    None => false,
                };
                keep = !known;
                if keep {
                    r.push(adv[i]);
                }
                proof {
                    assert(self.status@.nodes == cur);
                    assert(apply_self_advs(cur, ra, me, rpc_port, now_ms) == apply_self_advs(
                        cur,
                        advs.skip(i + 1),
                        me,
                        rpc_port,
                        now_ms,
                    ));
                    assert(crate::peers::find_peer(cur, node.id@) == crate::peers::find_peer(
                        nodes0,
                        node.id@,
                    ));
                    assert(pp(adv@[i as int]) == keep);
                }
            }
            proof {
                reveal(Seq::filter);
                let pre = adv@.subrange(0, i as int);
                let s1 = adv@.subrange(0, i + 1);
                assert(s1.drop_last() =~= pre);
                assert(s1.last() == adv@[i as int]);
                if keep {
                    assert(s1.filter(pp) =~= pre.filter(pp).push(adv@[i as int]));
                } else {
                    assert(s1.filter(pp) =~= pre.filter(pp));
                }
            }
            i = i + 1;
        }
        self.status.recalculate_hash();
        proof {
            assert(advs.skip(advs.len() as int).len() == 0);
            assert(adv@.subrange(0, adv@.len() as int) =~= adv@);
        }
        r
    }
}

} // verus!
