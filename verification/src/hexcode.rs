//! Hexadecimal display of identifiers and prefix matching.
//!
//! Node identifiers are shown to operators in lowercase hex; operators name
//! a node back by any prefix of that hex form.

use vstd::prelude::*;

use crate::data::Uuid;

verus! {

/// The lowercase hex digit, as an ASCII byte, for a nibble value.
pub open spec fn hex_digit(v: int) -> u8 {
    if v < 10 {
        (48 + v) as u8
    } else {
        (87 + v) as u8
    }
}

/// The `j`-th nibble of a byte string in display order: high nibble of each
/// byte first.
pub open spec fn nibble_of(s: Seq<u8>, j: int) -> int {
    if j % 2 == 0 {
        s[j / 2] as int / 16
    } else {
        s[j / 2] as int % 16
    }
}

/// The lowercase hex rendering of a byte string, as characters.
pub open spec fn hex_of(s: Seq<u8>) -> Seq<char> {
    Seq::new(2 * s.len(), |i: int| hex_digit(nibble_of(s, i)) as char)
}

/// Relies on `hex::encode`: two lowercase digits per byte, high nibble
/// first.
#[verifier::external_body]
pub fn hex_encode(data: &[u8]) -> (r: String)
    ensures
        r@ == hex_of(data@),
{
    hex::encode(data)
}

/// True when the ASCII byte string `p` is a prefix of the lowercase hex
/// rendering of `id`.
pub open spec fn matches_hex_prefix(id: Seq<u8>, p: Seq<u8>) -> bool {
    &&& p.len() <= 2 * id.len()
    &&& forall|j: int| 0 <= j < p.len() ==> p[j] == hex_digit(#[trigger] nibble_of(id, j))
}

/// The prefix-match test as a predicate on node identifiers.
pub open spec fn prefix_pred(p: Seq<u8>) -> spec_fn(Uuid) -> bool {
    |u: Uuid| matches_hex_prefix(u@, p)
}

/// Decides whether `prefix` (ASCII bytes) is a prefix of the hex form of
/// the node identifier.
pub fn node_matches_prefix(id: &Uuid, prefix: &[u8]) -> (r: bool)
    ensures
        r == matches_hex_prefix(id@, prefix@),
{
    if prefix.len() > 64 {
        return false;
    }
    let n = prefix.len();
    let mut j: usize = 0;
    while j < n
        invariant
            n == prefix@.len() <= 64,
            j <= n,
            id@.len() == 32,
            forall|k: int| 0 <= k < j ==> prefix@[k] == hex_digit(#[trigger] nibble_of(id@, k)),
        decreases n - j,
    {
        let b = id.b[j / 2];
        let v: u8 = if j % 2 == 0 {
            b / 16
        } else {
            b % 16
        };
        let expect: u8 = if v < 10 {
            48 + v
        } else {
            87 + v
        };
        proof {
            assert(expect == hex_digit(nibble_of(id@, j as int)));
        }
        if prefix[j] != expect {
            return false;
        }
        j = j + 1;
    }
    true
}

/// Returns, in order, the node identifiers whose hex form starts with the
/// given ASCII prefix.
pub fn find_matching_nodes(ids: &Vec<Uuid>, prefix: &[u8]) -> (r: Vec<Uuid>)
    ensures
        r@ == ids@.filter(prefix_pred(prefix@)),
{
    let mut r: Vec<Uuid> = Vec::new();
    let mut i: usize = 0;
    proof {
        reveal(Seq::filter);
        assert(ids@.subrange(0, 0).filter(prefix_pred(prefix@)) =~= Seq::<Uuid>::empty());
    }
    while i < ids.len()
        invariant
            i <= ids@.len(),
            r@ == ids@.subrange(0, i as int).filter(prefix_pred(prefix@)),
        decreases ids@.len() - i,
    {
        let m = node_matches_prefix(&ids[i], prefix);
        if m {
            r.push(ids[i]);
        }
        proof {
            reveal(Seq::filter);
            let pp = prefix_pred(prefix@);
            let pre = ids@.subrange(0, i as int);
            let s1 = ids@.subrange(0, i + 1);
            assert(s1.drop_last() =~= pre);
            assert(s1.last() == ids@[i as int]);
            assert(pp(ids@[i as int]) == m);
            if m {
                assert(s1.filter(pp) =~= pre.filter(pp).push(ids@[i as int]));
            } else {
                assert(s1.filter(pp) =~= pre.filter(pp));
            }
        }
        i = i + 1;
    }
    proof {
        assert(ids@.subrange(0, ids@.len() as int) =~= ids@);
    }
    r
}

} // verus!
