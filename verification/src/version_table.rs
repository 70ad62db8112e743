//! Object versions and their block lists: the mergeable table entry the
//! storage layer replicates, with the rule that derives block-reference
//! deletions from a version's deletion.

use vstd::prelude::*;

use crate::data::{HashVal, Uuid};

verus! {

/// One block of an object version: its byte offset and content hash.
#[derive(Clone, Copy, Debug, PartialEq, Eq)]
pub struct VersionBlock {
    pub offset: u64,
    pub hash: HashVal,
}

/// Mathematical image of a version block.
#[verifier::ext_equal]
pub ghost struct BlockV {
    pub offset: u64,
    pub hash: Seq<u8>,
}

impl View for VersionBlock {
    type V = BlockV;

    open spec fn view(&self) -> BlockV {
        BlockV { offset: self.offset, hash: self.hash@ }
    }
}

/// The views of a block vector.
pub open spec fn blocks_v(s: Seq<VersionBlock>) -> Seq<BlockV> {
    s.map_values(|b: VersionBlock| b@)
}

/// One version of a stored object: its identity, whether it was
/// deleted, its blocks sorted by offset, and the bucket and key it
/// belongs to.
#[derive(Clone, Debug, PartialEq, Eq)]
pub struct Version {
    pub uuid: Uuid,
    pub deleted: bool,
    pub blocks: Vec<VersionBlock>,
    pub bucket: String,
    pub key: String,
}

/// Mathematical image of a version.
#[verifier::ext_equal]
pub ghost struct VersionV {
    pub uuid: Seq<u8>,
    pub deleted: bool,
    pub blocks: Seq<BlockV>,
    pub bucket: Seq<char>,
    pub key: Seq<char>,
}

impl View for Version {
    type V = VersionV;

    open spec fn view(&self) -> VersionV {
        VersionV {
            uuid: self.uuid@,
            deleted: self.deleted,
            blocks: blocks_v(self.blocks@),
            bucket: self.bucket@,
            key: self.key@,
        }
    }
}

/// Strictly sorted by block offset.
pub open spec fn blocks_sorted(s: Seq<BlockV>) -> bool {
    forall|i: int, j: int| 0 <= i < j < s.len() ==> (#[trigger] s[i]).offset < (#[trigger] s[j]).offset
}

/// The union of two sorted block lists; at equal offsets the own block
/// stays.
pub open spec fn merge_blocks(a: Seq<BlockV>, b: Seq<BlockV>) -> Seq<BlockV>
    decreases a.len() + b.len(),
{
    if a.len() == 0 {
        b
    } else if b.len() == 0 {
        a
    } else if a[0].offset < b[0].offset {
        seq![a[0]] + merge_blocks(a.drop_first(), b)
    } else if b[0].offset < a[0].offset {
        seq![b[0]] + merge_blocks(a, b.drop_first())
    } else {
        seq![a[0]] + merge_blocks(a.drop_first(), b.drop_first())
    }
}

/// What `Version::merge` leaves behind.
pub open spec fn spec_version_merge(a: VersionV, b: VersionV) -> VersionV {
    if b.deleted {
        VersionV { deleted: true, blocks: Seq::empty(), ..a }
    } else if a.deleted {
        a
    } else {
        VersionV { blocks: merge_blocks(a.blocks, b.blocks), ..a }
    }
}

/// Every merged block is one of the inputs' blocks.
proof fn lemma_merge_blocks_contains(a: Seq<BlockV>, b: Seq<BlockV>)
    ensures
        forall|k: int|
            0 <= k < merge_blocks(a, b).len() ==> (a.contains(#[trigger] merge_blocks(a, b)[k])
                || b.contains(merge_blocks(a, b)[k])),
    decreases a.len() + b.len(),
{
    let m = merge_blocks(a, b);
    if a.len() == 0 || b.len() == 0 {
    } else {
        let (ha, hb) = (a[0], b[0]);
        if ha.offset < hb.offset {
            lemma_merge_blocks_contains(a.drop_first(), b);
            let t = merge_blocks(a.drop_first(), b);
            assert forall|k: int| 0 <= k < m.len() implies (a.contains(#[trigger] m[k])
                || b.contains(m[k])) by {
                if k == 0 {
                    assert(a.contains(a[0]));
                } else {
                    assert(m[k] == t[k - 1]);
                    if a.drop_first().contains(t[k - 1]) {
                        let w = choose|w: int|
                            0 <= w < a.drop_first().len() && a.drop_first()[w] == t[k - 1];
                        assert(a[w + 1] == t[k - 1]);
                        assert(a.contains(a[w + 1]));
                    }
                }
            }
        } else if hb.offset < ha.offset {
            lemma_merge_blocks_contains(a, b.drop_first());
            let t = merge_blocks(a, b.drop_first());
            assert forall|k: int| 0 <= k < m.len() implies (a.contains(#[trigger] m[k])
                || b.contains(m[k])) by {
                if k == 0 {
                    assert(b.contains(b[0]));
                } else {
                    assert(m[k] == t[k - 1]);
                    if b.drop_first().contains(t[k - 1]) {
                        let w = choose|w: int|
                            0 <= w < b.drop_first().len() && b.drop_first()[w] == t[k - 1];
                        assert(b[w + 1] == t[k - 1]);
                        assert(b.contains(b[w + 1]));
                    }
                }
            }
        } else {
            lemma_merge_blocks_contains(a.drop_first(), b.drop_first());
            let t = merge_blocks(a.drop_first(), b.drop_first());
            assert forall|k: int| 0 <= k < m.len() implies (a.contains(#[trigger] m[k])
                || b.contains(m[k])) by {
                if k == 0 {
                    assert(a.contains(a[0]));
                } else {
                    assert(m[k] == t[k - 1]);
                    if a.drop_first().contains(t[k - 1]) {
                        let w = choose|w: int|
                            0 <= w < a.drop_first().len() && a.drop_first()[w] == t[k - 1];
                        assert(a[w + 1] == t[k - 1]);
                        assert(a.contains(a[w + 1]));
                    } else {
                        let w = choose|w: int|
                            0 <= w < b.drop_first().len() && b.drop_first()[w] == t[k - 1];
                        assert(b[w + 1] == t[k - 1]);
                        assert(b.contains(b[w + 1]));
                    }
                }
            }
        }
    }
}

/// Merging sorted block lists yields a sorted list.
pub proof fn lemma_merge_blocks_sorted(a: Seq<BlockV>, b: Seq<BlockV>)
    requires
        blocks_sorted(a),
        blocks_sorted(b),
    ensures
        blocks_sorted(merge_blocks(a, b)),
    decreases a.len() + b.len(),
{
    let m = merge_blocks(a, b);
    if a.len() == 0 || b.len() == 0 {
    } else {
        assert(blocks_sorted(a.drop_first())) by {
            assert forall|x: int, y: int| 0 <= x < y < a.drop_first().len() implies (
            #[trigger] a.drop_first()[x]).offset < (#[trigger] a.drop_first()[y]).offset by {
                assert(a.drop_first()[x] == a[x + 1] && a.drop_first()[y] == a[y + 1]);
            }
        }
        assert(blocks_sorted(b.drop_first())) by {
            assert forall|x: int, y: int| 0 <= x < y < b.drop_first().len() implies (
            #[trigger] b.drop_first()[x]).offset < (#[trigger] b.drop_first()[y]).offset by {
                assert(b.drop_first()[x] == b[x + 1] && b.drop_first()[y] == b[y + 1]);
            }
        }
        let h = m[0];
        if a[0].offset < b[0].offset {
            lemma_merge_blocks_sorted(a.drop_first(), b);
            lemma_merge_blocks_contains(a.drop_first(), b);
            let t = merge_blocks(a.drop_first(), b);
            assert forall|j: int| 0 < j < m.len() implies h.offset < (#[trigger] m[j]).offset by {
                assert(m[j] == t[j - 1]);
                if a.drop_first().contains(t[j - 1]) {
                    let w = choose|w: int|
                        0 <= w < a.drop_first().len() && a.drop_first()[w] == t[j - 1];
                    assert(a[w + 1] == t[j - 1]);
                } else {
                    let w = choose|w: int| 0 <= w < b.len() && b[w] == t[j - 1];
                }
            }
            assert forall|x: int, y: int| 0 <= x < y < m.len() implies (#[trigger] m[x]).offset < (
            #[trigger] m[y]).offset by {
                if x > 0 {
                    assert(m[x] == t[x - 1] && m[y] == t[y - 1]);
                }
            }
        } else if b[0].offset < a[0].offset {
            lemma_merge_blocks_sorted(a, b.drop_first());
            lemma_merge_blocks_contains(a, b.drop_first());
            let t = merge_blocks(a, b.drop_first());
            assert forall|j: int| 0 < j < m.len() implies h.offset < (#[trigger] m[j]).offset by {
                assert(m[j] == t[j - 1]);
                if b.drop_first().contains(t[j - 1]) {
                    let w = choose|w: int|
                        0 <= w < b.drop_first().len() && b.drop_first()[w] == t[j - 1];
                    assert(b[w + 1] == t[j - 1]);
                } else {
                    let w = choose|w: int| 0 <= w < a.len() && a[w] == t[j - 1];
                }
            }
            assert forall|x: int, y: int| 0 <= x < y < m.len() implies (#[trigger] m[x]).offset < (
            #[trigger] m[y]).offset by {
                if x > 0 {
                    assert(m[x] == t[x - 1] && m[y] == t[y - 1]);
                }
            }
        } else {
            lemma_merge_blocks_sorted(a.drop_first(), b.drop_first());
            lemma_merge_blocks_contains(a.drop_first(), b.drop_first());
            let t = merge_blocks(a.drop_first(), b.drop_first());
            assert forall|j: int| 0 < j < m.len() implies h.offset < (#[trigger] m[j]).offset by {
                assert(m[j] == t[j - 1]);
                if a.drop_first().contains(t[j - 1]) {
                    let w = choose|w: int|
                        0 <= w < a.drop_first().len() && a.drop_first()[w] == t[j - 1];
                    assert(a[w + 1] == t[j - 1]);
                } else {
                    let w = choose|w: int|
                        0 <= w < b.drop_first().len() && b.drop_first()[w] == t[j - 1];
                    assert(b[w + 1] == t[j - 1]);
                }
            }
            assert forall|x: int, y: int| 0 <= x < y < m.len() implies (#[trigger] m[x]).offset < (
            #[trigger] m[y]).offset by {
                if x > 0 {
                    assert(m[x] == t[x - 1] && m[y] == t[y - 1]);
                }
            }
        }
    }
}

impl Version {
    /// The version's partition key: its identity.
    pub fn partition_key(&self) -> (r: &Uuid)
        ensures
            r@ == self@.uuid,
    {
        &self.uuid
    }

    /// Merges another replica's view of this version: a deletion wins
    /// and clears the blocks; otherwise the block lists take their
    /// union by offset, the own block surviving ties.
    pub fn merge(&mut self, other: &Version)
        requires
            blocks_sorted(old(self)@.blocks),
            blocks_sorted(other@.blocks),
        ensures
            final(self)@ == spec_version_merge(old(self)@, other@),
            blocks_sorted(final(self)@.blocks),
    {
        if other.deleted {
            self.deleted = true;
            self.blocks = Vec::new();
            proof {
                assert(blocks_v(self.blocks@) =~= Seq::<BlockV>::empty());
                assert(self@ =~= spec_version_merge(old(self)@, other@));
            }
        } else if self.deleted {
            proof {
                assert(self@ =~= spec_version_merge(old(self)@, other@));
            }
        } else {
            let merged = merge_blocks_exec(&self.blocks, &other.blocks);
            self.blocks = merged;
            proof {
                lemma_merge_blocks_sorted(old(self)@.blocks, other@.blocks);
                assert(self@ =~= spec_version_merge(old(self)@, other@));
            }
        }
    }
}

/// Merges two sorted block lists.
fn merge_blocks_exec(a: &Vec<VersionBlock>, b: &Vec<VersionBlock>) -> (r: Vec<VersionBlock>)
    ensures
        blocks_v(r@) == merge_blocks(blocks_v(a@), blocks_v(b@)),
{
    let ghost av = blocks_v(a@);
    let ghost bv = blocks_v(b@);
    let mut out: Vec<VersionBlock> = Vec::new();
    let mut i: usize = 0;
    let mut j: usize = 0;
    proof {
        assert(av.skip(0) =~= av);
        assert(bv.skip(0) =~= bv);
        assert(blocks_v(out@) =~= Seq::<BlockV>::empty());
    }
    while i < a.len() || j < b.len()
        invariant
            i <= av.len(),
            j <= bv.len(),
            av == blocks_v(a@),
            bv == blocks_v(b@),
            merge_blocks(av, bv) == blocks_v(out@) + merge_blocks(
                av.skip(i as int),
                bv.skip(j as int),
            ),
        decreases av.len() - i + bv.len() - j,
    {
        let ghost ra = av.skip(i as int);
        let ghost rb = bv.skip(j as int);
        if j == b.len() {
            proof {
                assert(ra[0] == av[i as int]);
                assert(merge_blocks(ra, rb) == ra);
                assert(ra =~= seq![av[i as int]] + av.skip(i + 1));
                assert(merge_blocks(av.skip(i + 1), rb) == av.skip(i + 1));
            }
            out.push(a[i]);
            proof {
                assert(blocks_v(out@) =~= blocks_v(out@.drop_last()).push(av[i as int]));
                assert(blocks_v(out@.drop_last()).push(av[i as int]) + merge_blocks(
                    av.skip(i + 1),
                    bv.skip(j as int),
                ) =~= blocks_v(out@.drop_last()) + merge_blocks(ra, rb));
            }
            i = i + 1;
        } else if i == a.len() {
            proof {
                assert(rb[0] == bv[j as int]);
                assert(merge_blocks(ra, rb) == rb);
                assert(rb =~= seq![bv[j as int]] + bv.skip(j + 1));
                assert(merge_blocks(ra, bv.skip(j + 1)) == bv.skip(j + 1));
            }
            out.push(b[j]);
            proof {
                assert(blocks_v(out@) =~= blocks_v(out@.drop_last()).push(bv[j as int]));
                assert(blocks_v(out@.drop_last()).push(bv[j as int]) + merge_blocks(
                    av.skip(i as int),
                    bv.skip(j + 1),
                ) =~= blocks_v(out@.drop_last()) + merge_blocks(ra, rb));
            }
            j = j + 1;
        } else {
            proof {
                assert(ra[0] == av[i as int]);
                assert(rb[0] == bv[j as int]);
                assert(ra.drop_first() =~= av.skip(i + 1));
                assert(rb.drop_first() =~= bv.skip(j + 1));
            }
            if a[i].offset < b[j].offset {
                proof {
                    assert(merge_blocks(ra, rb) == seq![ra[0]] + merge_blocks(
                        ra.drop_first(),
                        rb,
                    ));
                }
                out.push(a[i]);
                proof {
                    assert(blocks_v(out@) =~= blocks_v(out@.drop_last()).push(av[i as int]));
                    assert(blocks_v(out@.drop_last()).push(av[i as int]) + merge_blocks(
                        av.skip(i + 1),
                        bv.skip(j as int),
                    ) =~= blocks_v(out@.drop_last()) + merge_blocks(ra, rb));
                }
                i = i + 1;
            } else if b[j].offset < a[i].offset {
                proof {
                    assert(merge_blocks(ra, rb) == seq![rb[0]] + merge_blocks(
                        ra,
                        rb.drop_first(),
                    ));
                }
                out.push(b[j]);
                proof {
                    assert(blocks_v(out@) =~= blocks_v(out@.drop_last()).push(bv[j as int]));
                    assert(blocks_v(out@.drop_last()).push(bv[j as int]) + merge_blocks(
                        av.skip(i as int),
                        bv.skip(j + 1),
                    ) =~= blocks_v(out@.drop_last()) + merge_blocks(ra, rb));
                }
                j = j + 1;
            } else {
                proof {
                    assert(merge_blocks(ra, rb) == seq![ra[0]] + merge_blocks(
                        ra.drop_first(),
                        rb.drop_first(),
                    ));
                }
                out.push(a[i]);
                proof {
                    assert(blocks_v(out@) =~= blocks_v(out@.drop_last()).push(av[i as int]));
                    assert(blocks_v(out@.drop_last()).push(av[i as int]) + merge_blocks(
                        av.skip(i + 1),
                        bv.skip(j + 1),
                    ) =~= blocks_v(out@.drop_last()) + merge_blocks(ra, rb));
                }
                i = i + 1;
                j = j + 1;
            }
        }
    }
    proof {
        assert(merge_blocks(av.skip(i as int), bv.skip(j as int)).len() == 0);
        assert(blocks_v(out@) + merge_blocks(av.skip(i as int), bv.skip(j as int)) =~= blocks_v(
            out@,
        ));
    }
    out
}

/// A reference from a block to a version that uses it.
#[derive(Clone, Copy, Debug, PartialEq, Eq)]
pub struct BlockRef {
    pub block: HashVal,
    pub version: Uuid,
    pub deleted: bool,
}

/// Mathematical image of a block reference.
#[verifier::ext_equal]
pub ghost struct BlockRefV {
    pub block: Seq<u8>,
    pub version: Seq<u8>,
    pub deleted: bool,
}

impl View for BlockRef {
    type V = BlockRefV;

    open spec fn view(&self) -> BlockRefV {
        BlockRefV { block: self.block@, version: self.version@, deleted: self.deleted }
    }
}

/// The version table's update rule.
pub struct VersionTable {}

impl VersionTable {
    /// The block-reference deletions an update implies: when a version
    /// transitions to deleted, every block it used is to be dereferenced.
    pub fn updated(old_v: &Option<Version>, new_v: &Option<Version>) -> (r: Vec<BlockRef>)
        ensures
            ({
                let dels = r@.map_values(|x: BlockRef| x@);
                match (*old_v, *new_v) {
                    (Some(o), Some(n)) => {
                        if n@.deleted && !o@.deleted {
                            dels.len() == o@.blocks.len() && (forall|k: int|
                                0 <= k < dels.len() ==> (#[trigger] dels[k]) == (BlockRefV {
                                    block: o@.blocks[k].hash,
                                    version: o@.uuid,
                                    deleted: true,
                                }))
                        } else {
                            dels.len() == 0
                        }
                    },
                    _ => dels.len() == 0,
                }
            }),
    {
        let mut r: Vec<BlockRef> = Vec::new();
        match (old_v, new_v) {
            (Some(o), Some(n)) => {
                if n.deleted && !o.deleted {
                    let mut k: usize = 0;
                    while k < o.blocks.len()
                        invariant
                            k <= o.blocks@.len(),
                            r@.len() == k,
                            forall|x: int|
                                0 <= x < k ==> (#[trigger] r@[x])@ == (BlockRefV {
                                    block: o@.blocks[x].hash,
                                    version: o@.uuid,
                                    deleted: true,
                                }),
                        decreases o.blocks@.len() - k,
                    {
                        r.push(
                            BlockRef { block: o.blocks[k].hash, version: o.uuid, deleted: true },
                        );
                        k = k + 1;
                    }
                }
            },
            _ => {},
        }
        r
    }

    /// Whether a version passes the table's filter: deleted versions
    /// are filtered out.
    pub fn matches_filter(entry: &Version) -> (r: bool)
        ensures
            r == !entry@.deleted,
    {
        !entry.deleted
    }
}

} // verus!
