//! Canonical binary encoding of the layout's role tables.
//!
//! The encoding is length-prefixed throughout: a `u64` is eight bytes
//! little-endian, a byte string is its length followed by its bytes, an
//! option is a tag byte, and a table is its entry count followed by the
//! entries in order. The staging hash and the roles hash are Sha-256 over
//! this encoding, so the encoding fixes what peers compare.

use vstd::prelude::*;
use vstd::bytes::{spec_u64_to_le_bytes, spec_u64_from_le_bytes, lemma_auto_spec_u64_to_from_le_bytes, u64_to_le_bytes};

use crate::data::HashVal;
use crate::digest::{sha256, sha256_of};
use crate::layout::{entries_v, EntryV, NodeRole, RoleEntry, RoleV};

verus! {

// ---------------------------------------------------------------------
// Canonical encoders, at the specification level.
// ---------------------------------------------------------------------

/// Eight bytes, little-endian.
pub open spec fn enc_u64(x: u64) -> Seq<u8> {
    spec_u64_to_le_bytes(x)
}

/// Length-prefixed byte string.
pub open spec fn enc_bytes(b: Seq<u8>) -> Seq<u8> {
    enc_u64(b.len() as u64) + b
}

/// Tagged optional capacity: `0`, or `1` followed by the value.
pub open spec fn enc_opt_u64(c: Option<u64>) -> Seq<u8> {
    match c {
        None => seq![0u8],
        Some(v) => seq![1u8] + enc_u64(v),
    }
}

/// Concatenation of length-prefixed byte strings.
pub open spec fn enc_bytes_list(l: Seq<Seq<u8>>) -> Seq<u8>
    decreases l.len(),
{
    if l.len() == 0 {
        Seq::empty()
    } else {
        enc_bytes(l[0]) + enc_bytes_list(l.drop_first())
    }
}

/// A role: zone, capacity, tag count, tags.
pub open spec fn enc_role(r: RoleV) -> Seq<u8> {
    enc_bytes(r.zone) + enc_opt_u64(r.capacity) + enc_u64(r.tags.len() as u64) + enc_bytes_list(
        r.tags,
    )
}

/// Tagged optional role: `0` records an explicit removal.
pub open spec fn enc_opt_role(r: Option<RoleV>) -> Seq<u8> {
    match r {
        None => seq![0u8],
        Some(v) => seq![1u8] + enc_role(v),
    }
}

/// A table line: 32 node bytes, the update tag, the optional role.
pub open spec fn enc_entry(e: EntryV) -> Seq<u8> {
    e.node + enc_u64(e.tag) + enc_opt_role(e.role)
}

/// Concatenation of encoded entries.
pub open spec fn enc_entry_seq(l: Seq<EntryV>) -> Seq<u8>
    decreases l.len(),
{
    if l.len() == 0 {
        Seq::empty()
    } else {
        enc_entry(l[0]) + enc_entry_seq(l.drop_first())
    }
}

/// A whole role table: entry count, then the entries.
pub open spec fn enc_entry_list(l: Seq<EntryV>) -> Seq<u8> {
    enc_u64(l.len() as u64) + enc_entry_seq(l)
}

// ---------------------------------------------------------------------
// Boundedness: every length that gets a `u64` prefix must fit in one.
// Values built from executable vectors always satisfy this.
// ---------------------------------------------------------------------

/// All lengths inside a role fit in a `u64`.
pub open spec fn role_bounded(r: RoleV) -> bool {
    &&& r.zone.len() <= u64::MAX
    &&& r.tags.len() <= u64::MAX
    &&& forall|i: int| 0 <= i < r.tags.len() ==> (#[trigger] r.tags[i]).len() <= u64::MAX
}

/// Boundedness of an optional role.
pub open spec fn opt_role_bounded(r: Option<RoleV>) -> bool {
    match r {
        None => true,
        Some(v) => role_bounded(v),
    }
}

/// A table line is bounded and its node identifier has its fixed width.
pub open spec fn entry_bounded(e: EntryV) -> bool {
    &&& e.node.len() == 32
    &&& opt_role_bounded(e.role)
}

/// Boundedness of a whole table.
pub open spec fn entries_bounded(l: Seq<EntryV>) -> bool {
    &&& l.len() <= u64::MAX
    &&& forall|i: int| 0 <= i < l.len() ==> entry_bounded(#[trigger] l[i])
}

// ---------------------------------------------------------------------
// Decoders, at the specification level: each reads one component at a
// position and returns the value with the position after it.
// ---------------------------------------------------------------------

/// Reads one byte.
pub open spec fn dec_byte(s: Seq<u8>, i: int) -> Option<(u8, int)> {
    if 0 <= i && i + 1 <= s.len() {
        Some((s[i], i + 1))
    } else {
        None
    }
}

/// Reads eight little-endian bytes.
pub open spec fn dec_u64(s: Seq<u8>, i: int) -> Option<(u64, int)> {
    if 0 <= i && i + 8 <= s.len() {
        Some((spec_u64_from_le_bytes(s.subrange(i, i + 8)), i + 8))
    } else {
        None
    }
}

/// Reads a length-prefixed byte string.
pub open spec fn dec_bytes(s: Seq<u8>, i: int) -> Option<(Seq<u8>, int)> {
    match dec_u64(s, i) {
        None => None,
        Some((n, j)) => if j + n as int <= s.len() {
            Some((s.subrange(j, j + n as int), j + n as int))
        } else {
            None
        },
    }
}

/// Reads a tagged optional capacity.
pub open spec fn dec_opt_u64(s: Seq<u8>, i: int) -> Option<(Option<u64>, int)> {
    match dec_byte(s, i) {
        None => None,
        Some((t, j)) => if t == 0 {
            Some((None, j))
        } else if t == 1 {
            match dec_u64(s, j) {
                None => None,
                Some((v, k)) => Some((Some(v), k)),
            }
        } else {
            None
        },
    }
}

/// Reads `n` length-prefixed byte strings.
pub open spec fn dec_bytes_list(s: Seq<u8>, i: int, n: nat) -> Option<(Seq<Seq<u8>>, int)>
    decreases n,
{
    if n == 0 {
        Some((Seq::empty(), i))
    } else {
        match dec_bytes(s, i) {
            None => None,
            Some((b, j)) => match dec_bytes_list(s, j, (n - 1) as nat) {
                None => None,
                Some((l, k)) => Some((seq![b] + l, k)),
            },
        }
    }
}

/// Reads a role.
pub open spec fn dec_role(s: Seq<u8>, i: int) -> Option<(RoleV, int)> {
    match dec_bytes(s, i) {
        None => None,
        Some((zone, j)) => match dec_opt_u64(s, j) {
            None => None,
            Some((cap, k)) => match dec_u64(s, k) {
                None => None,
                Some((n, m)) => match dec_bytes_list(s, m, n as nat) {
                    None => None,
                    Some((tags, p)) => Some((RoleV { zone, capacity: cap, tags }, p)),
                },
            },
        },
    }
}

/// Reads a tagged optional role.
pub open spec fn dec_opt_role(s: Seq<u8>, i: int) -> Option<(Option<RoleV>, int)> {
    match dec_byte(s, i) {
        None => None,
        Some((t, j)) => if t == 0 {
            Some((None, j))
        } else if t == 1 {
            match dec_role(s, j) {
                None => None,
                Some((r, k)) => Some((Some(r), k)),
            }
        } else {
            None
        },
    }
}

// ---------------------------------------------------------------------
// Each decoder reads back exactly what the encoder wrote.
// ---------------------------------------------------------------------

/// Splits knowledge of a concatenation at a position into knowledge of
/// its two parts.
pub proof fn lemma_concat_at(s: Seq<u8>, i: int, x: Seq<u8>, y: Seq<u8>)
    requires
        0 <= i,
        i + x.len() + y.len() <= s.len(),
        s.subrange(i, i + x.len() + y.len()) =~= x + y,
    ensures
        s.subrange(i, i + x.len()) =~= x,
        s.subrange(i + x.len(), i + x.len() + y.len()) =~= y,
{
    let w = s.subrange(i, i + x.len() + y.len());
    assert forall|k: int| 0 <= k < x.len() implies s.subrange(i, i + x.len())[k] == x[k] by {
        assert(w[k] == (x + y)[k]);
    }
    assert forall|k: int| 0 <= k < y.len() implies s.subrange(
        i + x.len(),
        i + x.len() + y.len(),
    )[k] == y[k] by {
        assert(w[x.len() + k] == (x + y)[x.len() + k]);
    }
}

/// `dec_u64` reads back an encoded `u64`.
pub proof fn lemma_dec_u64_at(s: Seq<u8>, i: int, v: u64)
    requires
        0 <= i,
        i + 8 <= s.len(),
        s.subrange(i, i + 8) =~= enc_u64(v),
    ensures
        dec_u64(s, i) == Some((v, i + 8)),
{
    lemma_auto_spec_u64_to_from_le_bytes();
}

/// `dec_byte` reads back one byte.
pub proof fn lemma_dec_byte_at(s: Seq<u8>, i: int, v: u8)
    requires
        0 <= i,
        i + 1 <= s.len(),
        s.subrange(i, i + 1) =~= seq![v],
    ensures
        dec_byte(s, i) == Some((v, i + 1)),
{
    assert(s[i] == s.subrange(i, i + 1)[0]);
}

/// `dec_bytes` reads back an encoded byte string.
pub proof fn lemma_dec_bytes_at(s: Seq<u8>, i: int, b: Seq<u8>)
    requires
        0 <= i,
        b.len() <= u64::MAX,
        i + 8 + b.len() <= s.len(),
        s.subrange(i, i + 8 + b.len()) =~= enc_bytes(b),
    ensures
        dec_bytes(s, i) == Some((b, i + 8 + b.len())),
{
    lemma_auto_spec_u64_to_from_le_bytes();
    let lb = enc_u64(b.len() as u64);
    assert(lb.len() == 8);
    lemma_concat_at(s, i, lb, b);
    lemma_dec_u64_at(s, i, b.len() as u64);
}

/// `dec_opt_u64` reads back an encoded optional capacity.
pub proof fn lemma_dec_opt_u64_at(s: Seq<u8>, i: int, c: Option<u64>)
    requires
        0 <= i,
        i + enc_opt_u64(c).len() <= s.len(),
        s.subrange(i, i + enc_opt_u64(c).len()) =~= enc_opt_u64(c),
    ensures
        dec_opt_u64(s, i) == Some((c, i + enc_opt_u64(c).len())),
{
    lemma_auto_spec_u64_to_from_le_bytes();
    match c {
        None => {
            lemma_dec_byte_at(s, i, 0u8);
        },
        Some(v) => {
            assert(enc_opt_u64(c) =~= seq![1u8] + enc_u64(v));
            lemma_concat_at(s, i, seq![1u8], enc_u64(v));
            lemma_dec_byte_at(s, i, 1u8);
            lemma_dec_u64_at(s, i + 1, v);
        },
    }
}

/// `dec_bytes_list` reads back an encoded list of byte strings.
pub proof fn lemma_dec_bytes_list_at(s: Seq<u8>, i: int, l: Seq<Seq<u8>>)
    requires
        0 <= i,
        forall|k: int| 0 <= k < l.len() ==> (#[trigger] l[k]).len() <= u64::MAX,
        i + enc_bytes_list(l).len() <= s.len(),
        s.subrange(i, i + enc_bytes_list(l).len()) =~= enc_bytes_list(l),
    ensures
        dec_bytes_list(s, i, l.len()) == Some((l, i + enc_bytes_list(l).len())),
    decreases l.len(),
{
    if l.len() == 0 {
        assert(l =~= Seq::<Seq<u8>>::empty());
    } else {
        let e0 = enc_bytes(l[0]);
        let rest = enc_bytes_list(l.drop_first());
        assert(enc_bytes_list(l) == e0 + rest);
        lemma_concat_at(s, i, e0, rest);
        assert(e0.len() == 8 + l[0].len()) by {
            lemma_auto_spec_u64_to_from_le_bytes();
        }
        lemma_dec_bytes_at(s, i, l[0]);
        let j = i + e0.len();
        assert forall|k: int| 0 <= k < l.drop_first().len() implies (#[trigger] l.drop_first()[k]).len()
            <= u64::MAX by {
            assert(l.drop_first()[k] == l[k + 1]);
        }
        lemma_dec_bytes_list_at(s, j, l.drop_first());
        assert(seq![l[0]] + l.drop_first() =~= l);
    }
}

/// `dec_role` reads back an encoded role.
pub proof fn lemma_dec_role_at(s: Seq<u8>, i: int, r: RoleV)
    requires
        0 <= i,
        role_bounded(r),
        i + enc_role(r).len() <= s.len(),
        s.subrange(i, i + enc_role(r).len()) =~= enc_role(r),
    ensures
        dec_role(s, i) == Some((r, i + enc_role(r).len())),
{
    lemma_auto_spec_u64_to_from_le_bytes();
    let a = enc_bytes(r.zone);
    let b = enc_opt_u64(r.capacity);
    let c = enc_u64(r.tags.len() as u64);
    let d = enc_bytes_list(r.tags);
    assert(enc_role(r) == a + b + c + d);
    assert(s.subrange(i, i + a.len() + (b.len() + c.len() + d.len())) =~= a + (b + c + d)) by {
        assert(a + b + c + d =~= a + (b + c + d));
    }
    lemma_concat_at(s, i, a, b + c + d);
    let i1 = i + a.len();
    assert(s.subrange(i1, i1 + b.len() + (c.len() + d.len())) =~= b + (c + d)) by {
        assert(b + c + d =~= b + (c + d));
    }
    lemma_concat_at(s, i1, b, c + d);
    let i2 = i1 + b.len();
    lemma_concat_at(s, i2, c, d);
    let i3 = i2 + c.len();
    lemma_dec_bytes_at(s, i, r.zone);
    lemma_dec_opt_u64_at(s, i1, r.capacity);
    lemma_dec_u64_at(s, i2, r.tags.len() as u64);
    lemma_dec_bytes_list_at(s, i3, r.tags);
    assert(dec_role(s, i) == Some((RoleV { zone: r.zone, capacity: r.capacity, tags: r.tags }, i3
        + d.len())));
    assert(RoleV { zone: r.zone, capacity: r.capacity, tags: r.tags } =~= r);
}

/// `dec_opt_role` reads back an encoded optional role.
pub proof fn lemma_dec_opt_role_at(s: Seq<u8>, i: int, r: Option<RoleV>)
    requires
        0 <= i,
        opt_role_bounded(r),
        i + enc_opt_role(r).len() <= s.len(),
        s.subrange(i, i + enc_opt_role(r).len()) =~= enc_opt_role(r),
    ensures
        dec_opt_role(s, i) == Some((r, i + enc_opt_role(r).len())),
{
    match r {
        None => {
            lemma_dec_byte_at(s, i, 0u8);
        },
        Some(v) => {
            assert(enc_opt_role(r) =~= seq![1u8] + enc_role(v));
            lemma_concat_at(s, i, seq![1u8], enc_role(v));
            lemma_dec_byte_at(s, i, 1u8);
            lemma_dec_role_at(s, i + 1, v);
        },
    }
}

/// The canonical encoding of an optional role determines the role: the
/// merge tie-break may compare encodings in place of values.
pub proof fn lemma_enc_opt_role_injective(a: Option<RoleV>, b: Option<RoleV>)
    requires
        opt_role_bounded(a),
        opt_role_bounded(b),
        enc_opt_role(a) == enc_opt_role(b),
    ensures
        a == b,
{
    let s = enc_opt_role(a);
    assert(s.subrange(0, s.len() as int) =~= s);
    lemma_dec_opt_role_at(s, 0, a);
    lemma_dec_opt_role_at(s, 0, b);
}

/// Reads a table line.
pub open spec fn dec_entry(s: Seq<u8>, i: int) -> Option<(EntryV, int)> {
    if 0 <= i && i + 32 <= s.len() {
        match dec_u64(s, i + 32) {
            None => None,
            Some((tag, j)) => match dec_opt_role(s, j) {
                None => None,
                Some((role, k)) => Some((EntryV { node: s.subrange(i, i + 32), tag, role }, k)),
            },
        }
    } else {
        None
    }
}

/// Reads `n` table lines.
pub open spec fn dec_entry_seq(s: Seq<u8>, i: int, n: nat) -> Option<(Seq<EntryV>, int)>
    decreases n,
{
    if n == 0 {
        Some((Seq::empty(), i))
    } else {
        match dec_entry(s, i) {
            None => None,
            Some((e, j)) => match dec_entry_seq(s, j, (n - 1) as nat) {
                None => None,
                Some((l, k)) => Some((seq![e] + l, k)),
            },
        }
    }
}

/// Reads a whole table.
pub open spec fn dec_entry_list(s: Seq<u8>, i: int) -> Option<(Seq<EntryV>, int)> {
    match dec_u64(s, i) {
        None => None,
        Some((n, j)) => dec_entry_seq(s, j, n as nat),
    }
}

/// `dec_entry` reads back an encoded table line.
pub proof fn lemma_dec_entry_at(s: Seq<u8>, i: int, e: EntryV)
    requires
        0 <= i,
        entry_bounded(e),
        i + enc_entry(e).len() <= s.len(),
        s.subrange(i, i + enc_entry(e).len()) =~= enc_entry(e),
    ensures
        dec_entry(s, i) == Some((e, i + enc_entry(e).len())),
{
    lemma_auto_spec_u64_to_from_le_bytes();
    let a = e.node;
    let b = enc_u64(e.tag);
    let c = enc_opt_role(e.role);
    assert(enc_entry(e) == a + b + c);
    assert(s.subrange(i, i + a.len() + (b.len() + c.len())) =~= a + (b + c)) by {
        assert(a + b + c =~= a + (b + c));
    }
    lemma_concat_at(s, i, a, b + c);
    let i1 = i + a.len();
    lemma_concat_at(s, i1, b, c);
    let i2 = i1 + b.len();
    lemma_dec_u64_at(s, i1, e.tag);
    lemma_dec_opt_role_at(s, i2, e.role);
    assert(s.subrange(i, i + 32) =~= e.node);
    assert(EntryV { node: s.subrange(i, i + 32), tag: e.tag, role: e.role } =~= e);
}

/// `dec_entry_seq` reads back encoded table lines.
pub proof fn lemma_dec_entry_seq_at(s: Seq<u8>, i: int, l: Seq<EntryV>)
    requires
        0 <= i,
        forall|k: int| 0 <= k < l.len() ==> entry_bounded(#[trigger] l[k]),
        i + enc_entry_seq(l).len() <= s.len(),
        s.subrange(i, i + enc_entry_seq(l).len()) =~= enc_entry_seq(l),
    ensures
        dec_entry_seq(s, i, l.len()) == Some((l, i + enc_entry_seq(l).len())),
    decreases l.len(),
{
    if l.len() == 0 {
        assert(l =~= Seq::<EntryV>::empty());
    } else {
        let e0 = enc_entry(l[0]);
        let rest = enc_entry_seq(l.drop_first());
        assert(enc_entry_seq(l) == e0 + rest);
        lemma_concat_at(s, i, e0, rest);
        lemma_dec_entry_at(s, i, l[0]);
        assert forall|k: int| 0 <= k < l.drop_first().len() implies entry_bounded(
            #[trigger] l.drop_first()[k],
        ) by {
            assert(l.drop_first()[k] == l[k + 1]);
        }
        lemma_dec_entry_seq_at(s, i + e0.len(), l.drop_first());
        assert(seq![l[0]] + l.drop_first() =~= l);
    }
}

/// `dec_entry_list` reads back an encoded table.
pub proof fn lemma_dec_entry_list_at(s: Seq<u8>, i: int, l: Seq<EntryV>)
    requires
        0 <= i,
        entries_bounded(l),
        i + enc_entry_list(l).len() <= s.len(),
        s.subrange(i, i + enc_entry_list(l).len()) =~= enc_entry_list(l),
    ensures
        dec_entry_list(s, i) == Some((l, i + enc_entry_list(l).len())),
{
    lemma_auto_spec_u64_to_from_le_bytes();
    let c = enc_u64(l.len() as u64);
    assert(c.len() == 8);
    assert(enc_entry_list(l) == c + enc_entry_seq(l));
    lemma_concat_at(s, i, c, enc_entry_seq(l));
    lemma_dec_u64_at(s, i, l.len() as u64);
    lemma_dec_entry_seq_at(s, i + 8, l);
}

/// The canonical table encoding determines the table: two tables that
/// encode alike are alike, so comparing encodings (or, trusting the
/// digest, their hashes) compares the tables themselves.
pub proof fn lemma_enc_entry_list_injective(a: Seq<EntryV>, b: Seq<EntryV>)
    requires
        entries_bounded(a),
        entries_bounded(b),
        enc_entry_list(a) == enc_entry_list(b),
    ensures
        a == b,
{
    let s = enc_entry_list(a);
    assert(s.subrange(0, s.len() as int) =~= s);
    lemma_dec_entry_list_at(s, 0, a);
    lemma_dec_entry_list_at(s, 0, b);
}

// ---------------------------------------------------------------------
// Appending to a list appends to its encoding.
// ---------------------------------------------------------------------

/// Encoding one more byte string appends its encoding.
pub proof fn lemma_enc_bytes_list_push(l: Seq<Seq<u8>>, t: Seq<u8>)
    ensures
        enc_bytes_list(l.push(t)) =~= enc_bytes_list(l) + enc_bytes(t),
    decreases l.len(),
{
    let p = l.push(t);
    assert(enc_bytes_list(p) == enc_bytes(p[0]) + enc_bytes_list(p.drop_first()));
    if l.len() == 0 {
        assert(p[0] =~= t);
        assert(p.drop_first() =~= Seq::<Seq<u8>>::empty());
        assert(enc_bytes_list(p.drop_first()) == Seq::<u8>::empty());
    } else {
        assert(p[0] =~= l[0]);
        assert(p.drop_first() =~= l.drop_first().push(t));
        lemma_enc_bytes_list_push(l.drop_first(), t);
        assert(enc_bytes_list(l) == enc_bytes(l[0]) + enc_bytes_list(l.drop_first()));
    }
}

/// Encoding one more entry appends its encoding.
pub proof fn lemma_enc_entry_seq_push(l: Seq<EntryV>, e: EntryV)
    ensures
        enc_entry_seq(l.push(e)) =~= enc_entry_seq(l) + enc_entry(e),
    decreases l.len(),
{
    let p = l.push(e);
    assert(enc_entry_seq(p) == enc_entry(p[0]) + enc_entry_seq(p.drop_first()));
    if l.len() == 0 {
        assert(p[0] == e);
        assert(p.drop_first() =~= Seq::<EntryV>::empty());
        assert(enc_entry_seq(p.drop_first()) == Seq::<u8>::empty());
    } else {
        assert(p[0] == l[0]);
        assert(p.drop_first() =~= l.drop_first().push(e));
        lemma_enc_entry_seq_push(l.drop_first(), e);
        assert(enc_entry_seq(l) == enc_entry(l[0]) + enc_entry_seq(l.drop_first()));
    }
}

// ---------------------------------------------------------------------
// Executable encoders, appending into an output vector.
// ---------------------------------------------------------------------

/// Appends the eight little-endian bytes of `x`.
pub fn enc_u64_into(out: &mut Vec<u8>, x: u64)
    ensures
        final(out)@ == old(out)@ + enc_u64(x),
{
    let mut bs = u64_to_le_bytes(x);
    out.append(&mut bs);
}

/// Appends the length-prefixed byte string `b`.
pub fn enc_bytes_into(out: &mut Vec<u8>, b: &Vec<u8>)
    ensures
        final(out)@ == old(out)@ + enc_bytes(b@),
{
    enc_u64_into(out, b.len() as u64);
    let ghost base = out@;
    let mut i: usize = 0;
    while i < b.len()
        invariant
            i <= b@.len(),
            out@ == base + b@.subrange(0, i as int),
        decreases b@.len() - i,
    {
        out.push(b[i]);
        proof {
            assert(base + b@.subrange(0, i + 1) =~= (base + b@.subrange(0, i as int)).push(
                b@[i as int],
            ));
        }
        i = i + 1;
    }
    proof {
        assert(b@.subrange(0, b@.len() as int) =~= b@);
    }
}

/// Appends the tagged optional capacity.
pub fn enc_opt_u64_into(out: &mut Vec<u8>, c: &Option<u64>)
    ensures
        final(out)@ == old(out)@ + enc_opt_u64(*c),
{
    match c {
        None => {
            out.push(0u8);
            proof {
                assert(old(out)@ + enc_opt_u64(None::<u64>) =~= old(out)@.push(0u8));
            }
        },
        Some(v) => {
            out.push(1u8);
            enc_u64_into(out, *v);
            proof {
                assert(old(out)@ + enc_opt_u64(Some(*v)) =~= old(out)@.push(1u8) + enc_u64(*v));
            }
        },
    }
}

/// Appends the canonical encoding of a role.
pub fn enc_role_into(out: &mut Vec<u8>, r: &NodeRole)
    ensures
        final(out)@ == old(out)@ + enc_role(r@),
{
    enc_bytes_into(out, &r.zone);
    enc_opt_u64_into(out, &r.capacity);
    enc_u64_into(out, r.tags.len() as u64);
    let ghost base = out@;
    let mut i: usize = 0;
    while i < r.tags.len()
        invariant
            i <= r.tags@.len(),
            r@.tags.len() == r.tags@.len(),
            forall|k: int| 0 <= k < r.tags@.len() ==> r@.tags[k] == (#[trigger] r.tags@[k])@,
            out@ == base + enc_bytes_list(r@.tags.subrange(0, i as int)),
        decreases r.tags@.len() - i,
    {
        proof {
            assert(enc_bytes_list(r@.tags.subrange(0, 0)) =~= Seq::<u8>::empty());
            assert(base + enc_bytes_list(r@.tags.subrange(0, 0)) =~= base);
        }
        enc_bytes_into(out, &r.tags[i]);
        proof {
            assert(r@.tags.subrange(0, i + 1) =~= r@.tags.subrange(0, i as int).push(
                r@.tags[i as int],
            ));
            lemma_enc_bytes_list_push(r@.tags.subrange(0, i as int), r@.tags[i as int]);
        }
        i = i + 1;
    }
    proof {
        if r.tags@.len() == 0 {
            assert(enc_bytes_list(r@.tags.subrange(0, 0)) =~= Seq::<u8>::empty());
        }
        assert(r@.tags.subrange(0, r@.tags.len() as int) =~= r@.tags);
        assert(old(out)@ + enc_role(r@) =~= old(out)@ + enc_bytes(r@.zone) + enc_opt_u64(
            r@.capacity,
        ) + enc_u64(r@.tags.len() as u64) + enc_bytes_list(r@.tags));
    }
}

/// Appends the tagged optional role.
pub fn enc_opt_role_into(out: &mut Vec<u8>, r: &Option<NodeRole>)
    ensures
        final(out)@ == old(out)@ + enc_opt_role(crate::layout::opt_role_v(*r)),
{
    match r {
        None => {
            out.push(0u8);
            proof {
                assert(old(out)@ + enc_opt_role(None::<RoleV>) =~= old(out)@.push(0u8));
            }
        },
        Some(v) => {
            out.push(1u8);
            enc_role_into(out, v);
            proof {
                assert(old(out)@ + enc_opt_role(Some(v@)) =~= old(out)@.push(1u8) + enc_role(v@));
            }
        },
    }
}

/// Appends the canonical encoding of a table line.
pub fn enc_entry_into(out: &mut Vec<u8>, e: &RoleEntry)
    ensures
        final(out)@ == old(out)@ + enc_entry(e@),
{
    let ghost base = out@;
    let mut i: usize = 0;
    while i < 32
        invariant
            i <= 32,
            out@ == base + e.node@.subrange(0, i as int),
        decreases 32 - i,
    {
        out.push(e.node.b[i]);
        proof {
            assert(base + e.node@.subrange(0, i + 1) =~= (base + e.node@.subrange(0, i as int)).push(
                e.node@[i as int],
            ));
        }
        i = i + 1;
    }
    proof {
        assert(e.node@.subrange(0, 32) =~= e.node@);
    }
    enc_u64_into(out, e.tag);
    enc_opt_role_into(out, &e.role);
    proof {
        assert(old(out)@ + enc_entry(e@) =~= old(out)@ + e.node@ + enc_u64(e.tag) + enc_opt_role(
            e@.role,
        ));
    }
}

/// Encodes a whole role table.
pub fn enc_entries(l: &Vec<RoleEntry>) -> (r: Vec<u8>)
    ensures
        r@ == enc_entry_list(entries_v(l@)),
{
    let mut out: Vec<u8> = Vec::new();
    enc_u64_into(&mut out, l.len() as u64);
    let ghost base = out@;
    let mut i: usize = 0;
    while i < l.len()
        invariant
            i <= l@.len(),
            out@ == base + enc_entry_seq(entries_v(l@).subrange(0, i as int)),
        decreases l@.len() - i,
    {
        proof {
            assert(enc_entry_seq(entries_v(l@).subrange(0, 0)) =~= Seq::<u8>::empty());
        }
        enc_entry_into(&mut out, &l[i]);
        proof {
            assert(entries_v(l@).subrange(0, i + 1) =~= entries_v(l@).subrange(0, i as int).push(
                entries_v(l@)[i as int],
            ));
            lemma_enc_entry_seq_push(entries_v(l@).subrange(0, i as int), entries_v(l@)[i as int]);
            assert(entries_v(l@)[i as int] == l@[i as int]@);
        }
        i = i + 1;
    }
    proof {
        if l@.len() == 0 {
            assert(enc_entry_seq(entries_v(l@).subrange(0, 0)) =~= Seq::<u8>::empty());
        }
        assert(entries_v(l@).subrange(0, entries_v(l@).len() as int) =~= entries_v(l@));
        assert(entries_v(l@).len() == l@.len());
    }
    out
}

/// Sha-256 of the canonical encoding of a role table: the staging hash
/// and the roles hash both come from here.
pub fn table_hash(l: &Vec<RoleEntry>) -> (r: HashVal)
    ensures
        r@ == sha256_of(enc_entry_list(entries_v(l@))),
{
    let bytes = enc_entries(l);
    sha256(bytes.as_slice())
}

} // verus!
