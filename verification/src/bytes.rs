//! Byte strings: comparison, copying and big-endian numbers.

use vstd::prelude::*;
use vstd::slice::slice_to_vec;

verus! {

/// The number that the bytes spell with the most significant byte first.
pub open spec fn be_nat(s: Seq<u8>) -> nat
    decreases s.len(),
{
    if s.len() == 0 {
        0
    } else {
        be_nat(s.drop_last()) * 256 + s.last() as nat
    }
}

/// The `n` low bytes of `x`, most significant byte first.
pub open spec fn be_seq(x: nat, n: nat) -> Seq<u8>
    decreases n,
{
    if n == 0 {
        Seq::empty()
    } else {
        be_seq(x / 256, (n - 1) as nat).push((x % 256) as u8)
    }
}

/// The `n` zero bytes.
pub open spec fn zero_seq(n: nat) -> Seq<u8> {
    Seq::new(n, |i: int| 0u8)
}

/// The views of a vector of byte strings.
pub open spec fn views(v: Seq<Vec<u8>>) -> Seq<Seq<u8>> {
    Seq::new(v.len(), |i: int| v[i]@)
}

/// Do the two byte strings hold the same bytes?
pub fn bytes_eq(a: &[u8], b: &[u8]) -> (r: bool)
    ensures
        r == (a@ == b@),
{
    if a.len() != b.len() {
        return false;
    }
    let mut i: usize = 0;
    while i < a.len()
        invariant
            i <= a.len(),
            a.len() == b.len(),
            forall|j: int| 0 <= j < i ==> a@[j] == b@[j],
        decreases a.len() - i,
    {
        if a[i] != b[i] {
            return false;
        }
        i += 1;
    }
    assert(a@ =~= b@);
    true
}

/// A copy of the bytes.
pub fn copy_bytes(a: &[u8]) -> (r: Vec<u8>)
    ensures
        r@ == a@,
{
    slice_to_vec(a)
}

/// Appends the bytes of `b` to `a`.
pub fn append_bytes(a: &mut Vec<u8>, b: &[u8])
    ensures
        final(a)@ == old(a)@ + b@,
{
    a.extend_from_slice(b);
    assert(a@ =~= old(a)@ + b@);
}

/// A copy of each byte string.
pub fn copy_all(v: &Vec<Vec<u8>>) -> (r: Vec<Vec<u8>>)
    ensures
        views(r@) == views(v@),
{
    let mut r: Vec<Vec<u8>> = Vec::new();
    let mut i: usize = 0;
    while i < v.len()
        invariant
            i <= v.len(),
            r.len() == i,
            forall|j: int| 0 <= j < i ==> r@[j]@ == v@[j]@,
        decreases v.len() - i,
    {
        r.push(copy_bytes(v[i].as_slice()));
        i += 1;
    }
    assert(views(r@) =~= views(v@));
    r
}

/// `n` zero bytes.
pub fn zeros(n: usize) -> (r: Vec<u8>)
    ensures
        r@ == zero_seq(n as nat),
{
    let r: Vec<u8> = vec![0u8; n];
    assert(r@ =~= zero_seq(n as nat));
    r
}

/// The bytes of `s` from `from` up to `to`.
pub fn sub_bytes(s: &[u8], from: usize, to: usize) -> (r: Vec<u8>)
    requires
        from <= to <= s@.len(),
    ensures
        r@ == s@.subrange(from as int, to as int),
{
    slice_to_vec(vstd::slice::slice_subrange(s, from, to))
}

/// The first four bytes read as a big-endian number.
pub fn read_be_u32(s: &[u8]) -> (r: u32)
    requires
        s@.len() >= 4,
    ensures
        r as nat == be_nat(s@.subrange(0, 4)),
{
    let r: u32 = ((s[0] as u32 * 256 + s[1] as u32) * 256 + s[2] as u32) * 256 + s[3] as u32;
    proof {
        let t = s@.subrange(0, 4);
        reveal_with_fuel(be_nat, 5);
        assert(t.drop_last().last() == s@[2]);
        assert(t.drop_last().drop_last().last() == s@[1]);
        assert(t.drop_last().drop_last().drop_last().last() == s@[0]);
    }
    r
}

/// The number of an eight-byte big-endian field.
pub fn read_be_u64(s: &[u8]) -> (r: u64)
    requires
        s@.len() == 8,
    ensures
        r as nat == be_nat(s@),
{
    let hi: u64 = ((s[0] as u64 * 256 + s[1] as u64) * 256 + s[2] as u64) * 256 + s[3] as u64;
    let lo: u64 = ((s[4] as u64 * 256 + s[5] as u64) * 256 + s[6] as u64) * 256 + s[7] as u64;
    proof {
        let t = s@;
        reveal_with_fuel(be_nat, 9);
        assert(t.drop_last().last() == s@[6]);
        assert(t.drop_last().drop_last().last() == s@[5]);
        assert(t.drop_last().drop_last().drop_last().last() == s@[4]);
        assert(t.drop_last().drop_last().drop_last().drop_last().last() == s@[3]);
        assert(t.drop_last().drop_last().drop_last().drop_last().drop_last().last() == s@[2]);
        assert(t.drop_last().drop_last().drop_last().drop_last().drop_last().drop_last().last()
            == s@[1]);
        assert(
        t.drop_last().drop_last().drop_last().drop_last().drop_last().drop_last().drop_last().last()
            == s@[0]);
    }
    hi * 0x1_0000_0000 + lo
}

/// The eight bytes of a number, most significant byte first.
pub fn be_bytes_u64(x: u64) -> (r: Vec<u8>)
    ensures
        r@ == be_seq(x as nat, 8),
        r@.len() == 8,
        be_nat(r@) == x as nat,
{
    let mut r: Vec<u8> = Vec::new();
    let b7: u8 = (x % 256) as u8;
    let x6: u64 = x / 256;
    let b6: u8 = (x6 % 256) as u8;
    let x5: u64 = x6 / 256;
    let b5: u8 = (x5 % 256) as u8;
    let x4: u64 = x5 / 256;
    let b4: u8 = (x4 % 256) as u8;
    let x3: u64 = x4 / 256;
    let b3: u8 = (x3 % 256) as u8;
    let x2: u64 = x3 / 256;
    let b2: u8 = (x2 % 256) as u8;
    let x1: u64 = x2 / 256;
    let b1: u8 = (x1 % 256) as u8;
    let x0: u64 = x1 / 256;
    assert(x0 < 256);
    r.push(x0 as u8);
    r.push(b1);
    r.push(b2);
    r.push(b3);
    r.push(b4);
    r.push(b5);
    r.push(b6);
    r.push(b7);
    proof {
        let t = r@;
        reveal_with_fuel(be_nat, 9);
        assert(t.drop_last().last() == b6);
        assert(t.drop_last().drop_last().last() == b5);
        assert(t.drop_last().drop_last().drop_last().last() == b4);
        assert(t.drop_last().drop_last().drop_last().drop_last().last() == b3);
        assert(t.drop_last().drop_last().drop_last().drop_last().drop_last().last() == b2);
        assert(t.drop_last().drop_last().drop_last().drop_last().drop_last().drop_last().last()
            == b1);
        assert(
        t.drop_last().drop_last().drop_last().drop_last().drop_last().drop_last().drop_last().last()
            == x0 as u8);
        reveal_with_fuel(be_seq, 9);
        assert(r@ =~= be_seq(x as nat, 8));
    }
    r
}

} // verus!
