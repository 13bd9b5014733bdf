//! Natural numbers of any size, as little-endian 32-bit limbs: enough to
//! multiply by small factors and to compare.

use vstd::prelude::*;

verus! {

/// The base of one limb.
pub open spec fn limb_base() -> nat {
    0x1_0000_0000
}

/// The weight of limb `i`: `limb_base()` to the power `i`.
pub open spec fn place(i: nat) -> nat
    decreases i,
{
    if i == 0 {
        1
    } else {
        place((i - 1) as nat) * limb_base()
    }
}

/// The number that the limbs stand for.
pub open spec fn value(s: Seq<u32>) -> nat
    decreases s.len(),
{
    if s.len() == 0 {
        0
    } else {
        value(s.drop_last()) + s.last() as nat * place((s.len() - 1) as nat)
    }
}

proof fn lemma_place_positive(i: nat)
    ensures
        place(i) >= 1,
    decreases i,
{
    if i > 0 {
        lemma_place_positive((i - 1) as nat);
        assert(place((i - 1) as nat) * limb_base() >= 1) by (nonlinear_arith)
            requires
                place((i - 1) as nat) >= 1,
        ;
    }
}

/// The limbs of `s` stand for less than the weight of the next limb.
proof fn lemma_value_bound(s: Seq<u32>)
    ensures
        value(s) < place(s.len()),
    decreases s.len(),
{
    if s.len() > 0 {
        let p = s.drop_last();
        lemma_value_bound(p);
        let w = place(p.len());
        let x = s.last() as nat;
        assert(value(p) + x * w < w * limb_base()) by (nonlinear_arith)
            requires
                value(p) < w,
                x < limb_base(),
        ;
    }
}

/// Equal limbs from `k` upwards: the difference lies in the limbs below `k`.
proof fn lemma_equal_above(a: Seq<u32>, b: Seq<u32>, k: int)
    requires
        a.len() == b.len(),
        0 <= k <= a.len(),
        forall|j: int| k <= j < a.len() ==> a[j] == b[j],
    ensures
        value(a) - value(b) == value(a.take(k)) - value(b.take(k)),
    decreases a.len(),
{
    if a.len() == k {
        assert(a.take(k) =~= a);
        assert(b.take(k) =~= b);
    } else {
        let (pa, pb) = (a.drop_last(), b.drop_last());
        lemma_equal_above(pa, pb, k);
        assert(pa.take(k) =~= a.take(k));
        assert(pb.take(k) =~= b.take(k));
    }
}

/// Equal-length numbers whose top differing limb is `i` compare as that limb.
proof fn lemma_top_limb_decides(a: Seq<u32>, b: Seq<u32>, i: int)
    requires
        a.len() == b.len(),
        0 <= i < a.len(),
        a[i] != b[i],
        forall|j: int| i < j < a.len() ==> a[j] == b[j],
    ensures
        (value(a) > value(b)) == (a[i] > b[i]),
        value(a) != value(b),
{
    lemma_equal_above(a, b, i + 1);
    let (ta, tb) = (a.take(i + 1), b.take(i + 1));
    assert(ta.drop_last() =~= a.take(i));
    assert(tb.drop_last() =~= b.take(i));
    lemma_value_bound(a.take(i));
    lemma_value_bound(b.take(i));
    let w = place(i as nat);
    let (x, y) = (a[i] as nat, b[i] as nat);
    let (va, vb) = (value(a.take(i)), value(b.take(i)));
    assert(value(ta) == va + x * w);
    assert(value(tb) == vb + y * w);
    if x > y {
        assert(va + x * w > vb + y * w) by (nonlinear_arith)
            requires
                x > y,
                vb < w,
        ;
    } else {
        assert(vb + y * w > va + x * w) by (nonlinear_arith)
            requires
                y > x,
                va < w,
        ;
    }
}

/// The limbs of `a` times `m`, one limb longer than `a`.
pub fn mul_small(a: &Vec<u32>, m: u64) -> (r: Vec<u32>)
    requires
        m <= limb_base(),
    ensures
        value(r@) == value(a@) * m,
        r@.len() == a@.len() + 1,
{
    let mut r: Vec<u32> = Vec::new();
    let mut carry: u64 = 0;
    let mut i: usize = 0;
    assert(a@.take(0) =~= Seq::<u32>::empty());
    assert(r@ =~= Seq::<u32>::empty());
    assert(value(a@.take(0)) == 0 && value(r@) == 0);
    while i < a.len()
        invariant
            m <= limb_base(),
            0 <= i <= a.len(),
            r@.len() == i,
            carry < limb_base(),
            value(r@) + carry * place(i as nat) == value(a@.take(i as int)) * m,
        decreases a.len() - i,
    {
        let x = a[i] as u64;
        assert(x * m <= 0xffff_ffff * 0x1_0000_0000) by (nonlinear_arith)
            requires
                x <= 0xffff_ffff,
                m <= 0x1_0000_0000,
        ;
        let t: u64 = x * m + carry;
        let lo = t % 0x1_0000_0000;
        let hi = t / 0x1_0000_0000;
        let ghost w = place(i as nat);
        let ghost old_r = r@;
        r.push(lo as u32);
        proof {
            assert(r@.drop_last() =~= old_r);
            assert(a@.take(i + 1).drop_last() =~= a@.take(i as int));
            assert(value(r@) == value(old_r) + lo * w);
            assert(value(a@.take(i + 1)) == value(a@.take(i as int)) + x * w);
            assert(t == lo + hi * limb_base());
            assert(place((i + 1) as nat) == w * limb_base());
            assert(lo * w + hi * (w * limb_base()) == (x * m + carry) * w) by (nonlinear_arith)
                requires
                    t == lo + hi * limb_base(),
                    t == x * m + carry,
            ;
            let v = value(a@.take(i as int));
            let vr = value(old_r);
            assert(vr + lo * w + hi * (w * limb_base()) == (v + x * w) * m) by (nonlinear_arith)
                requires
                    vr + carry * w == v * m,
                    lo * w + hi * (w * limb_base()) == (x * m + carry) * w,
            ;
        }
        carry = hi;
        i += 1;
    }
    let ghost old_r = r@;
    r.push(carry as u32);
    assert(r@.drop_last() =~= old_r);
    assert(a@.take(a.len() as int) =~= a@);
    r
}

/// Whether the number of `a` exceeds that of `b`, two limb sequences of one
/// length.
pub fn greater(a: &Vec<u32>, b: &Vec<u32>) -> (r: bool)
    requires
        a@.len() == b@.len(),
    ensures
        r == (value(a@) > value(b@)),
{
    let mut i: usize = a.len();
    while i > 0
        invariant
            a@.len() == b@.len(),
            0 <= i <= a.len(),
            forall|j: int| i <= j < a.len() ==> a@[j] == b@[j],
        decreases i,
    {
        i -= 1;
        if a[i] != b[i] {
            proof {
                lemma_top_limb_decides(a@, b@, i as int);
            }
            return a[i] > b[i];
        }
    }
    assert(a@ =~= b@);
    false
}

} // verus!
