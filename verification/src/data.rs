//! Fixed-width identifiers and byte-string ordering.
//!
//! Node identifiers and content hashes are opaque 32-byte values; the ring
//! and the layout order them lexicographically.

use vstd::prelude::*;

verus! {

/// An opaque 32-byte value: a node identifier derived from a public key, or
/// a Sha-256 digest.
#[derive(Clone, Copy, Debug, PartialEq, Eq)]
pub struct FixedBytes32 {
    pub b: [u8; 32],
}

/// A node's stable identifier: the 32 bytes of its public signing key.
pub type Uuid = FixedBytes32;

/// A 256-bit content hash or digest.
pub type HashVal = FixedBytes32;

impl View for FixedBytes32 {
    type V = Seq<u8>;

    open spec fn view(&self) -> Seq<u8> {
        self.b@
    }
}

/// Lexicographic strict order on byte strings.
pub open spec fn bytes_lt(a: Seq<u8>, b: Seq<u8>) -> bool
    decreases a.len(),
{
    if b.len() == 0 {
        false
    } else if a.len() == 0 {
        true
    } else if a[0] != b[0] {
        a[0] < b[0]
    } else {
        bytes_lt(a.drop_first(), b.drop_first())
    }
}

/// Of two byte strings, exactly one of `bytes_lt(a, b)`, `bytes_lt(b, a)`,
/// `a == b` holds.
pub proof fn lemma_bytes_lt_trichotomy(a: Seq<u8>, b: Seq<u8>)
    ensures
        bytes_lt(a, b) || bytes_lt(b, a) || a =~= b,
        bytes_lt(a, b) ==> !bytes_lt(b, a) && a != b,
        bytes_lt(b, a) ==> !bytes_lt(a, b) && a != b,
    decreases a.len(),
{
    if a.len() == 0 || b.len() == 0 || a[0] != b[0] {
    } else {
        lemma_bytes_lt_trichotomy(a.drop_first(), b.drop_first());
        if a.drop_first() =~= b.drop_first() {
            assert forall|i: int| 0 <= i < a.len() implies a[i] == b[i] by {
                if i > 0 {
                    assert(a[i] == a.drop_first()[i - 1]);
                    assert(b[i] == b.drop_first()[i - 1]);
                }
            }
            assert(a =~= b);
        }
    }
}

/// `bytes_lt` is transitive.
pub proof fn lemma_bytes_lt_transitive(a: Seq<u8>, b: Seq<u8>, c: Seq<u8>)
    requires
        bytes_lt(a, b),
        bytes_lt(b, c),
    ensures
        bytes_lt(a, c),
    decreases a.len(),
{
    if b.len() == 0 || c.len() == 0 {
    } else if a.len() == 0 {
    } else {
        if a[0] == b[0] && b[0] == c[0] {
            lemma_bytes_lt_transitive(a.drop_first(), b.drop_first(), c.drop_first());
        }
    }
}

/// Compares two 32-byte values lexicographically; returns the equivalent of
/// `bytes_lt`, `==`, or the reverse.
pub fn fb32_cmp(a: &FixedBytes32, b: &FixedBytes32) -> (r: Cmp)
    ensures
        r == Cmp::Lt ==> bytes_lt(a@, b@),
        r == Cmp::Gt ==> bytes_lt(b@, a@),
        r == Cmp::Eq ==> a@ == b@,
{
    let mut i: usize = 0;
    while i < 32
        invariant
            i <= 32,
            a@.subrange(0, i as int) =~= b@.subrange(0, i as int),
        decreases 32 - i,
    {
        if a.b[i] < b.b[i] {
            proof {
                lemma_bytes_prefix_lt(a@, b@, i as int);
            }
            return Cmp::Lt;
        }
        if a.b[i] > b.b[i] {
            proof {
                lemma_bytes_prefix_lt(b@, a@, i as int);
            }
            return Cmp::Gt;
        }
        proof {
            assert(a@.subrange(0, i + 1) =~= a@.subrange(0, i as int).push(a@[i as int]));
            assert(b@.subrange(0, i + 1) =~= b@.subrange(0, i as int).push(b@[i as int]));
        }
        i = i + 1;
    }
    proof {
        assert(a@ =~= a@.subrange(0, 32));
        assert(b@ =~= b@.subrange(0, 32));
    }
    Cmp::Eq
}

/// True when the two 32-byte values hold the same bytes.
pub fn fb32_eq(a: &FixedBytes32, b: &FixedBytes32) -> (r: bool)
    ensures
        r == (a@ == b@),
{
    let c = fb32_cmp(a, b);
    proof {
        lemma_bytes_lt_trichotomy(a@, b@);
    }
    match c {
        Cmp::Eq => true,
        _ => false,
    }
}

/// If two byte strings agree on a prefix and the first differs below the
/// second right after it, the first is lexicographically smaller.
proof fn lemma_bytes_prefix_lt(a: Seq<u8>, b: Seq<u8>, i: int)
    requires
        0 <= i < a.len(),
        i < b.len(),
        a.subrange(0, i) =~= b.subrange(0, i),
        a[i] < b[i],
    ensures
        bytes_lt(a, b),
    decreases i,
{
    if i == 0 {
    } else {
        assert(a[0] == b[0]) by {
            assert(a.subrange(0, i)[0] == a[0]);
            assert(b.subrange(0, i)[0] == b[0]);
        }
        assert(a.drop_first().subrange(0, i - 1) =~= a.subrange(0, i).drop_first());
        assert(b.drop_first().subrange(0, i - 1) =~= b.subrange(0, i).drop_first());
        assert(a.drop_first()[i - 1] == a[i]);
        assert(b.drop_first()[i - 1] == b[i]);
        lemma_bytes_prefix_lt(a.drop_first(), b.drop_first(), i - 1);
    }
}

/// Result of a three-way comparison.
#[derive(Clone, Copy, Debug, PartialEq, Eq, Structural)]
pub enum Cmp {
    Lt,
    Eq,
    Gt,
}

/// An internet address, as plain bytes: a four- or sixteen-byte host
/// part and a port.
#[derive(Clone, Copy, Debug, PartialEq, Eq)]
pub enum IpBytes {
    V4([u8; 4]),
    V6([u8; 16]),
}

/// A peer's socket address.
#[derive(Clone, Copy, Debug, PartialEq, Eq)]
pub struct NodeAddr {
    pub ip: IpBytes,
    pub port: u16,
}

/// Mathematical image of an address: a version flag, the host bytes,
/// and the port.
#[verifier::ext_equal]
pub ghost struct AddrV {
    pub v6: bool,
    pub ip: Seq<u8>,
    pub port: u16,
}

impl View for NodeAddr {
    type V = AddrV;

    open spec fn view(&self) -> AddrV {
        match self.ip {
            IpBytes::V4(b) => AddrV { v6: false, ip: b@, port: self.port },
            IpBytes::V6(b) => AddrV { v6: true, ip: b@, port: self.port },
        }
    }
}

/// The canonical encoding of an address: a version tag, the host
/// bytes, and two port bytes, high byte first.
pub open spec fn enc_addr(a: AddrV) -> Seq<u8> {
    seq![(if a.v6 { 6u8 } else { 4u8 })] + a.ip + seq![(a.port / 256) as u8, (a.port % 256) as u8]
}

/// Address equality, at the level of views.
pub fn addr_eq(a: &NodeAddr, b: &NodeAddr) -> (r: bool)
    ensures
        r == (a@ == b@),
{
    if a.port != b.port {
        return false;
    }
    match (&a.ip, &b.ip) {
        (IpBytes::V4(x), IpBytes::V4(y)) => {
            let mut i: usize = 0;
            while i < 4
                invariant
                    i <= 4,
                    a@.port == b@.port,
                    !a@.v6 && !b@.v6,
                    a@.ip =~= x@,
                    b@.ip =~= y@,
                    forall|k: int| 0 <= k < i ==> x@[k] == y@[k],
                decreases 4 - i,
            {
                if x[i] != y[i] {
                    return false;
                }
                i = i + 1;
            }
            proof {
                assert(a@.ip =~= b@.ip);
            }
            true
        },
        (IpBytes::V6(x), IpBytes::V6(y)) => {
            let mut i: usize = 0;
            while i < 16
                invariant
                    i <= 16,
                    a@.port == b@.port,
                    a@.v6 && b@.v6,
                    a@.ip =~= x@,
                    b@.ip =~= y@,
                    forall|k: int| 0 <= k < i ==> x@[k] == y@[k],
                decreases 16 - i,
            {
                if x[i] != y[i] {
                    return false;
                }
                i = i + 1;
            }
            proof {
                assert(a@.ip =~= b@.ip);
            }
            true
        },
        _ => {
            proof {
                assert(a@.v6 != b@.v6);
            }
            false
        },
    }
}

/// A strict prefix is lexicographically smaller.
pub proof fn lemma_bytes_strict_prefix_lt(a: Seq<u8>, b: Seq<u8>)
    requires
        a.len() < b.len(),
        a =~= b.subrange(0, a.len() as int),
    ensures
        bytes_lt(a, b),
    decreases a.len(),
{
    if a.len() == 0 {
    } else {
        assert(a[0] == b[0]) by {
            assert(b.subrange(0, a.len() as int)[0] == b[0]);
        }
        assert(a.drop_first() =~= b.drop_first().subrange(0, a.drop_first().len() as int)) by {
            assert forall|k: int| 0 <= k < a.len() - 1 implies a.drop_first()[k] == b.drop_first()[k] by {
                assert(a[k + 1] == b.subrange(0, a.len() as int)[k + 1]);
            }
        }
        lemma_bytes_strict_prefix_lt(a.drop_first(), b.drop_first());
    }
}

/// Compares two byte strings lexicographically.
pub fn bytes_cmp(a: &[u8], b: &[u8]) -> (r: Cmp)
    ensures
        r == Cmp::Lt ==> bytes_lt(a@, b@),
        r == Cmp::Gt ==> bytes_lt(b@, a@),
        r == Cmp::Eq ==> a@ == b@,
{
    let n: usize = if a.len() < b.len() {
        a.len()
    } else {
        b.len()
    };
    let mut i: usize = 0;
    while i < n
        invariant
            i <= n,
            n <= a@.len(),
            n <= b@.len(),
            n == a@.len() || n == b@.len(),
            a@.subrange(0, i as int) =~= b@.subrange(0, i as int),
        decreases n - i,
    {
        if a[i] < b[i] {
            proof {
                lemma_bytes_prefix_lt(a@, b@, i as int);
            }
            return Cmp::Lt;
        }
        if a[i] > b[i] {
            proof {
                lemma_bytes_prefix_lt(b@, a@, i as int);
            }
            return Cmp::Gt;
        }
        proof {
            assert(a@.subrange(0, i + 1) =~= a@.subrange(0, i as int).push(a@[i as int]));
            assert(b@.subrange(0, i + 1) =~= b@.subrange(0, i as int).push(b@[i as int]));
        }
        i = i + 1;
    }
    if a.len() < b.len() {
        proof {
            assert(a@ =~= a@.subrange(0, n as int));
            lemma_bytes_strict_prefix_lt(a@, b@);
        }
        Cmp::Lt
    } else if a.len() > b.len() {
        proof {
            assert(b@ =~= b@.subrange(0, n as int));
            lemma_bytes_strict_prefix_lt(b@, a@);
        }
        Cmp::Gt
    } else {
        proof {
            assert(a@ =~= a@.subrange(0, n as int));
            assert(b@ =~= b@.subrange(0, n as int));
        }
        Cmp::Eq
    }
}

/// Validates stored public-key bytes as a node identifier: exactly 32
/// bytes, else the file is corrupt.
pub fn node_id_from_bytes(d: &Vec<u8>) -> (r: Result<Uuid, crate::error::Error>)
    ensures
        r is Ok <==> d@.len() == 32,
        r matches Ok(u) ==> u@ == d@,
        r matches Err(e) ==> e is CorruptData,
{
    if d.len() != 32 {
        return Err(crate::error::Error::CorruptData(FixedBytes32 { b: [0u8; 32] }));
    }
    let mut b = [0u8; 32];
    let mut i: usize = 0;
    while i < 32
        invariant
            i <= 32,
            d@.len() == 32,
            forall|k: int| 0 <= k < i ==> b@[k] == d@[k],
        decreases 32 - i,
    {
        b[i] = d[i];
        i = i + 1;
    }
    let u = FixedBytes32 { b };
    proof {
        assert(u@ =~= d@);
    }
    Ok(u)
}

/// Validates stored secret-key bytes: exactly 64 bytes, else the file
/// is corrupt. The bytes themselves stay opaque.
pub fn check_node_key_len(d: &Vec<u8>) -> (r: Result<(), crate::error::Error>)
    ensures
        r is Ok <==> d@.len() == 64,
        r matches Err(e) ==> e is CorruptData,
{
    if d.len() == 64 {
        Ok(())
    } else {
        Err(crate::error::Error::CorruptData(FixedBytes32 { b: [0u8; 32] }))
    }
}

} // verus!
