//! Byte strings: lexicographic order, big-endian integers and the split of a
//! slash-separated path into its first component and the rest.

use vstd::prelude::*;
use vstd::slice::slice_subrange;

verus! {

/// The path separator, `/`.
pub const SLASH: u8 = 47;

/// Result of comparing two byte strings.
#[derive(Clone, Copy, Debug, PartialEq, Eq)]
pub enum Order {
    Less,
    Equal,
    Greater,
}

/// Strict lexicographic order on byte strings.
pub open spec fn bytes_lt(a: Seq<u8>, b: Seq<u8>) -> bool
    decreases a.len(),
{
    if b.len() == 0 {
        false
    } else if a.len() == 0 {
        true
    } else if a[0] != b[0] {
        a[0] < b[0]
    } else {
        bytes_lt(a.drop_first(), b.drop_first())
    }
}

/// No byte string is smaller than itself.
pub proof fn lemma_bytes_lt_irreflexive(a: Seq<u8>)
    ensures
        !bytes_lt(a, a),
    decreases a.len(),
{
    if a.len() > 0 {
        lemma_bytes_lt_irreflexive(a.drop_first());
    }
}

/// Of two byte strings at most one is smaller than the other, and then they
/// differ.
pub proof fn lemma_bytes_lt_asymmetric(a: Seq<u8>, b: Seq<u8>)
    requires
        bytes_lt(a, b),
    ensures
        !bytes_lt(b, a),
        a != b,
    decreases a.len(),
{
    lemma_bytes_lt_irreflexive(a);
    if a.len() > 0 && b.len() > 0 && a[0] == b[0] {
        lemma_bytes_lt_asymmetric(a.drop_first(), b.drop_first());
    }
}

/// The order of byte strings is transitive.
pub proof fn lemma_bytes_lt_transitive(a: Seq<u8>, b: Seq<u8>, c: Seq<u8>)
    requires
        bytes_lt(a, b),
        bytes_lt(b, c),
    ensures
        bytes_lt(a, c),
    decreases a.len(),
{
    if a.len() > 0 && a[0] == b[0] && b[0] == c[0] {
        lemma_bytes_lt_transitive(a.drop_first(), b.drop_first(), c.drop_first());
    }
}

/// Any two byte strings are equal or ordered one way.
pub proof fn lemma_bytes_lt_total(a: Seq<u8>, b: Seq<u8>)
    ensures
        bytes_lt(a, b) || a == b || bytes_lt(b, a),
    decreases a.len(),
{
    if a.len() == 0 || b.len() == 0 {
        if a.len() == 0 && b.len() == 0 {
            assert(a =~= b);
        }
    } else if a[0] == b[0] {
        lemma_bytes_lt_total(a.drop_first(), b.drop_first());
        if a.drop_first() == b.drop_first() {
            assert(a =~= seq![a[0]] + a.drop_first());
            assert(b =~= seq![b[0]] + b.drop_first());
        }
    }
}

/// Compares two byte strings lexicographically.
pub fn compare_bytes(a: &[u8], b: &[u8]) -> (r: Order)
    ensures
        r is Less <==> bytes_lt(a@, b@),
        r is Equal <==> a@ == b@,
        r is Greater <==> bytes_lt(b@, a@),
{
    let mut i: usize = 0;
    proof {
        assert(a@.skip(0) =~= a@);
        assert(b@.skip(0) =~= b@);
        assert(a@.subrange(0, 0) =~= b@.subrange(0, 0));
    }
    while i < a.len() && i < b.len()
        invariant
            i <= a.len(),
            i <= b.len(),
            a@.subrange(0, i as int) == b@.subrange(0, i as int),
            bytes_lt(a@, b@) == bytes_lt(a@.skip(i as int), b@.skip(i as int)),
            bytes_lt(b@, a@) == bytes_lt(b@.skip(i as int), a@.skip(i as int)),
        decreases a.len() - i,
    {
        let x = a[i];
        let y = b[i];
        proof {
            assert(a@.skip(i as int).drop_first() =~= a@.skip(i + 1));
            assert(b@.skip(i as int).drop_first() =~= b@.skip(i + 1));
            assert(a@.skip(i as int)[0] == x);
            assert(b@.skip(i as int)[0] == y);
        }
        if x < y {
            proof {
                lemma_bytes_lt_asymmetric(a@, b@);
            }
            return Order::Less;
        }
        if x > y {
            proof {
                lemma_bytes_lt_asymmetric(b@, a@);
            }
            return Order::Greater;
        }
        proof {
            assert(a@.subrange(0, i + 1) =~= a@.subrange(0, i as int).push(x));
            assert(b@.subrange(0, i + 1) =~= b@.subrange(0, i as int).push(y));
        }
        i += 1;
    }
    proof {
        assert(a@.skip(i as int).len() == a.len() - i);
        assert(b@.skip(i as int).len() == b.len() - i);
    }
    if i < b.len() {
        proof {
            lemma_bytes_lt_asymmetric(a@, b@);
        }
        Order::Less
    } else if i < a.len() {
        proof {
            lemma_bytes_lt_asymmetric(b@, a@);
        }
        Order::Greater
    } else {
        proof {
            assert(a@ =~= a@.subrange(0, i as int));
            assert(b@ =~= b@.subrange(0, i as int));
            lemma_bytes_lt_irreflexive(a@);
        }
        Order::Equal
    }
}

/// Whether two byte strings hold the same bytes.
pub fn bytes_equal(a: &[u8], b: &[u8]) -> (r: bool)
    ensures
        r <==> a@ == b@,
{
    match compare_bytes(a, b) {
        Order::Equal => true,
        _ => false,
    }
}

/// An owned copy of a byte string.
pub fn copy_bytes(a: &[u8]) -> (r: Vec<u8>)
    ensures
        r@ == a@,
{
    let mut out: Vec<u8> = Vec::new();
    let mut i: usize = 0;
    while i < a.len()
        invariant
            i <= a.len(),
            out@ == a@.subrange(0, i as int),
        decreases a.len() - i,
    {
        out.push(a[i]);
        proof {
            assert(a@.subrange(0, i + 1) =~= a@.subrange(0, i as int).push(a@[i as int]));
        }
        i += 1;
    }
    proof {
        assert(a@.subrange(0, i as int) =~= a@);
    }
    out
}

/// Appends `a` to `out`.
pub fn push_bytes(out: &mut Vec<u8>, a: &[u8])
    ensures
        final(out)@ == old(out)@ + a@,
{
    let mut i: usize = 0;
    while i < a.len()
        invariant
            i <= a.len(),
            out@ == old(out)@ + a@.subrange(0, i as int),
        decreases a.len() - i,
    {
        out.push(a[i]);
        proof {
            assert(a@.subrange(0, i + 1) =~= a@.subrange(0, i as int).push(a@[i as int]));
            assert(out@ =~= old(out)@ + a@.subrange(0, i + 1));
        }
        i += 1;
    }
    proof {
        assert(a@.subrange(0, i as int) =~= a@);
    }
}

/// The big-endian 32-bit integer stored at `at`.
pub open spec fn be_u32_at(d: Seq<u8>, at: int) -> nat {
    (((d[at] * 256 + d[at + 1]) * 256 + d[at + 2]) * 256 + d[at + 3]) as nat
}

/// The four bytes that store `x`, most significant first.
pub open spec fn be_u32_bytes(x: u32) -> Seq<u8> {
    seq![
        (x / 256 / 256 / 256) as u8,
        (x / 256 / 256 % 256) as u8,
        (x / 256 % 256) as u8,
        (x % 256) as u8,
    ]
}

/// The four bytes of an integer store that integer.
pub proof fn lemma_be_u32_round_trip(x: u32)
    ensures
        be_u32_bytes(x).len() == 4,
        be_u32_at(be_u32_bytes(x), 0) == x,
{
    let q1 = x / 256;
    let q2 = q1 / 256;
    let q3 = q2 / 256;
    assert(x == q1 * 256 + x % 256);
    assert(q1 == q2 * 256 + q1 % 256);
    assert(q2 == q3 * 256 + q2 % 256);
    assert(q3 < 256);
    let b = be_u32_bytes(x);
    assert(b[0] == q3);
    assert(b[1] == q2 % 256);
    assert(b[2] == q1 % 256);
    assert(b[3] == x % 256);
}

/// Reads the big-endian 32-bit integer stored at `at`.
pub fn read_be_u32(d: &[u8], at: usize) -> (r: u32)
    requires
        at + 4 <= d.len(),
    ensures
        r == be_u32_at(d@, at as int),
{
    let b0: u32 = d[at] as u32;
    let b1: u32 = d[at + 1] as u32;
    let b2: u32 = d[at + 2] as u32;
    let b3: u32 = d[at + 3] as u32;
    ((b0 * 256 + b1) * 256 + b2) * 256 + b3
}

/// Appends the four bytes of `x`, most significant first.
pub fn push_be_u32(out: &mut Vec<u8>, x: u32)
    ensures
        final(out)@ == old(out)@ + be_u32_bytes(x),
{
    out.push((x / 256 / 256 / 256) as u8);
    out.push((x / 256 / 256 % 256) as u8);
    out.push((x / 256 % 256) as u8);
    out.push((x % 256) as u8);
    proof {
        assert(out@ =~= old(out)@ + be_u32_bytes(x));
    }
}

/// The unsigned number with the same 32 bits as `x`.
pub open spec fn i32_bits(x: i32) -> u32 {
    if x < 0 {
        (x + 0x1_0000_0000) as u32
    } else {
        x as u32
    }
}

/// The big-endian signed 32-bit integer stored at `at`.
pub open spec fn be_i32_at(d: Seq<u8>, at: int) -> int {
    let u = be_u32_at(d, at);
    if u >= 0x8000_0000 {
        u - 0x1_0000_0000
    } else {
        u as int
    }
}

/// The four bytes that store `x`, most significant first.
pub open spec fn be_i32_bytes(x: i32) -> Seq<u8> {
    be_u32_bytes(i32_bits(x))
}

/// The four bytes of a signed integer store that integer.
pub proof fn lemma_be_i32_round_trip(x: i32)
    ensures
        be_i32_bytes(x).len() == 4,
        be_i32_at(be_i32_bytes(x), 0) == x,
{
    lemma_be_u32_round_trip(i32_bits(x));
}

/// Reads the big-endian signed 32-bit integer stored at `at`.
pub fn read_be_i32(d: &[u8], at: usize) -> (r: i32)
    requires
        at + 4 <= d.len(),
    ensures
        r == be_i32_at(d@, at as int),
{
    let u = read_be_u32(d, at);
    if u >= 0x8000_0000 {
        (u as i64 - 0x1_0000_0000) as i32
    } else {
        u as i32
    }
}

/// Appends the four bytes of `x`, most significant first.
pub fn push_be_i32(out: &mut Vec<u8>, x: i32)
    ensures
        final(out)@ == old(out)@ + be_i32_bytes(x),
{
    let u: u32 = if x < 0 {
        (x as i64 + 0x1_0000_0000) as u32
    } else {
        x as u32
    };
    push_be_u32(out, u);
}

/// Index of the first byte `b` of `p` at or after `from`, or the length of
/// `p` where there is none.
pub open spec fn byte_index(p: Seq<u8>, b: u8, from: int) -> int
    decreases p.len() - from,
{
    if from >= p.len() {
        p.len() as int
    } else if p[from] == b {
        from
    } else {
        byte_index(p, b, from + 1)
    }
}

/// The index that `byte_index` gives lies in the byte string or at its end,
/// holds the byte where it lies in the string, and no byte before it is the
/// byte.
pub proof fn lemma_byte_index(p: Seq<u8>, b: u8, from: int)
    requires
        0 <= from <= p.len(),
    ensures
        from <= byte_index(p, b, from) <= p.len(),
        byte_index(p, b, from) < p.len() ==> p[byte_index(p, b, from)] == b,
        forall|i: int| from <= i < byte_index(p, b, from) ==> p[i] != b,
    decreases p.len() - from,
{
    if from < p.len() && p[from] != b {
        lemma_byte_index(p, b, from + 1);
    }
}

/// Any index that holds `b` behind bytes that are not `b` is the first.
pub proof fn lemma_byte_index_is(p: Seq<u8>, b: u8, k: int)
    requires
        0 <= k <= p.len(),
        forall|i: int| 0 <= i < k ==> p[i] != b,
        k < p.len() ==> p[k] == b,
    ensures
        byte_index(p, b, 0) == k,
{
    lemma_byte_index(p, b, 0);
    let j = byte_index(p, b, 0);
    if j < k {
        assert(p[j] != b);
    }
}

/// Where the first byte `b` of `p` is: the length of `p` where there is
/// none.
pub fn find_byte(p: &[u8], b: u8) -> (r: usize)
    ensures
        r == byte_index(p@, b, 0),
        r <= p@.len(),
{
    let mut i: usize = 0;
    while i < p.len() && p[i] != b
        invariant
            i <= p.len(),
            byte_index(p@, b, 0) == byte_index(p@, b, i as int),
        decreases p.len() - i,
    {
        i += 1;
    }
    i
}

/// No byte of `s` is a path separator.
pub open spec fn slash_free(s: Seq<u8>) -> bool {
    forall|i: int| 0 <= i < s.len() ==> s[i] != SLASH
}

/// Index of the first separator of `p` at or after `from`, or the length of
/// `p` where there is none.
pub open spec fn slash_index(p: Seq<u8>, from: int) -> int
    decreases p.len() - from,
{
    if from >= p.len() {
        p.len() as int
    } else if p[from] == SLASH {
        from
    } else {
        slash_index(p, from + 1)
    }
}

/// The part of `p` before its first separator: all of `p` where it has none.
pub open spec fn first_component(p: Seq<u8>) -> Seq<u8> {
    p.subrange(0, slash_index(p, 0))
}

/// Whether `p` has a separator, and so more than one component.
pub open spec fn has_rest(p: Seq<u8>) -> bool {
    slash_index(p, 0) < p.len()
}

/// The part of `p` after its first separator.
pub open spec fn rest_of_path(p: Seq<u8>) -> Seq<u8> {
    p.subrange(slash_index(p, 0) + 1, p.len() as int)
}

/// `name/rest`.
pub open spec fn join_path(name: Seq<u8>, rest: Seq<u8>) -> Seq<u8> {
    name + seq![SLASH] + rest
}

/// The index that `slash_index` gives lies in the path or at its end, holds a
/// separator where it lies in the path, and no byte before it is a separator.
pub proof fn lemma_slash_index_bounds(p: Seq<u8>, from: int)
    requires
        0 <= from <= p.len(),
    ensures
        from <= slash_index(p, from) <= p.len(),
        slash_index(p, from) < p.len() ==> p[slash_index(p, from)] == SLASH,
        forall|i: int| from <= i < slash_index(p, from) ==> p[i] != SLASH,
    decreases p.len() - from,
{
    if from < p.len() && p[from] != SLASH {
        lemma_slash_index_bounds(p, from + 1);
    }
}

/// A path is its first component, followed by a separator and the rest
/// where it has one.
pub proof fn lemma_split_join(p: Seq<u8>)
    ensures
        slash_free(first_component(p)),
        has_rest(p) ==> p == join_path(first_component(p), rest_of_path(p)),
        has_rest(p) ==> rest_of_path(p).len() < p.len(),
        !has_rest(p) ==> p == first_component(p),
{
    lemma_slash_index_bounds(p, 0);
    if has_rest(p) {
        assert(p =~= join_path(first_component(p), rest_of_path(p)));
    } else {
        assert(p =~= first_component(p));
    }
}

/// The first separator of `name/rest` is the one after `name`, where `name`
/// holds none.
pub proof fn lemma_join_split(name: Seq<u8>, rest: Seq<u8>)
    requires
        slash_free(name),
    ensures
        has_rest(join_path(name, rest)),
        first_component(join_path(name, rest)) == name,
        rest_of_path(join_path(name, rest)) == rest,
{
    let p = join_path(name, rest);
    lemma_slash_index_bounds(p, 0);
    let k = slash_index(p, 0);
    assert(p[name.len() as int] == SLASH);
    if k < name.len() {
        assert(p[k] == name[k]);
    }
    assert(k == name.len());
    assert(first_component(p) =~= name);
    assert(rest_of_path(p) =~= rest);
}

/// A name without separator is a path of one component.
pub proof fn lemma_single_component(name: Seq<u8>)
    requires
        slash_free(name),
    ensures
        !has_rest(name),
        first_component(name) == name,
{
    lemma_slash_index_bounds(name, 0);
    assert(first_component(name) =~= name);
}

/// Splits a path at its first separator.
pub fn split_first_component(path: &[u8]) -> (r: (&[u8], Option<&[u8]>))
    ensures
        r.0@ == first_component(path@),
        r.1 is Some <==> has_rest(path@),
        r.1 is Some ==> r.1.unwrap()@ == rest_of_path(path@),
{
    let mut i: usize = 0;
    while i < path.len() && path[i] != SLASH
        invariant
            i <= path.len(),
            slash_index(path@, 0) == slash_index(path@, i as int),
        decreases path.len() - i,
    {
        i += 1;
    }
    let first = slice_subrange(path, 0, i);
    if i < path.len() {
        let rest = slice_subrange(path, i + 1, path.len());
        (first, Some(rest))
    } else {
        (first, None)
    }
}

} // verus!
