use vstd::prelude::*;

verus! {

/// The radix of the limbs: two to the sixty-fourth power.
pub open spec fn base() -> nat {
    0x1_0000_0000_0000_0000
}

/// The place value of limb `n`: the radix to the power `n`.
pub open spec fn weight(n: nat) -> nat
    decreases n,
{
    if n == 0 {
        1
    } else {
        base() * weight((n - 1) as nat)
    }
}

/// The number that a little-endian sequence of limbs denotes.
pub open spec fn limbs_value(limbs: Seq<u64>) -> nat
    decreases limbs.len(),
{
    if limbs.len() == 0 {
        0
    } else {
        limbs_value(limbs.drop_last()) + (limbs.last() as nat) * weight((limbs.len() - 1) as nat)
    }
}

/// Limb `i` of a sequence that is read as if zeros followed its end.
pub open spec fn limb_at(limbs: Seq<u64>, i: int) -> u64 {
    if 0 <= i < limbs.len() {
        limbs[i]
    } else {
        0
    }
}

/// The sequence extended by zero limbs to the length `n`.
pub open spec fn padded(limbs: Seq<u64>, n: nat) -> Seq<u64> {
    Seq::new(n, |i: int| limb_at(limbs, i))
}

/// `n` zero limbs.
pub open spec fn zeros(n: nat) -> Seq<u64> {
    Seq::new(n, |i: int| 0u64)
}

/// The result of comparing two numbers.
#[derive(Clone, Copy, Debug, PartialEq, Eq, Structural)]
pub enum Order {
    Less,
    Equal,
    Greater,
}

/// What comparing `a` with `b` yields.
pub open spec fn order_of(a: int, b: int) -> Order {
    if a < b {
        Order::Less
    } else if a == b {
        Order::Equal
    } else {
        Order::Greater
    }
}

proof fn lemma_weight_positive(n: nat)
    ensures
        weight(n) > 0,
    decreases n,
{
    if n > 0 {
        lemma_weight_positive((n - 1) as nat);
        let w = weight((n - 1) as nat);
        assert(base() * w > 0) by (nonlinear_arith)
            requires
                w > 0,
                base() > 0,
        ;
    }
}

proof fn lemma_weight_adds(i: nat, j: nat)
    ensures
        weight(i + j) == weight(i) * weight(j),
    decreases i,
{
    if i == 0 {
        assert(1 * weight(j) == weight(j)) by (nonlinear_arith);
    } else {
        lemma_weight_adds((i - 1) as nat, j);
        let a = weight((i - 1) as nat);
        let b = weight(j);
        assert(base() * (a * b) == (base() * a) * b) by (nonlinear_arith);
    }
}

proof fn lemma_value_below_weight(limbs: Seq<u64>)
    ensures
        limbs_value(limbs) < weight(limbs.len()),
    decreases limbs.len(),
{
    if limbs.len() > 0 {
        lemma_value_below_weight(limbs.drop_last());
        let w = weight((limbs.len() - 1) as nat);
        let x = limbs.last() as nat;
        let v = limbs_value(limbs.drop_last());
        assert(v + x * w < base() * w) by (nonlinear_arith)
            requires
                v < w,
                x < base(),
        ;
    }
}

proof fn lemma_value_step(limbs: Seq<u64>, i: int)
    requires
        0 <= i < limbs.len(),
    ensures
        limbs_value(limbs.take(i + 1)) == limbs_value(limbs.take(i)) + (limbs[i] as nat) * weight(
            i as nat,
        ),
{
    assert(limbs.take(i + 1).drop_last() =~= limbs.take(i));
}

proof fn lemma_padded_value(limbs: Seq<u64>, n: nat)
    requires
        n >= limbs.len(),
    ensures
        limbs_value(padded(limbs, n)) == limbs_value(limbs),
    decreases n,
{
    if n == limbs.len() {
        assert(padded(limbs, n) =~= limbs);
    } else {
        lemma_padded_value(limbs, (n - 1) as nat);
        assert(padded(limbs, n).drop_last() =~= padded(limbs, (n - 1) as nat));
        assert(0 * weight((n - 1) as nat) == 0) by (nonlinear_arith);
    }
}

proof fn lemma_shifted_value(k: nat, limbs: Seq<u64>)
    ensures
        limbs_value(zeros(k) + limbs) == weight(k) * limbs_value(limbs),
    decreases limbs.len(),
{
    let all = zeros(k) + limbs;
    if limbs.len() == 0 {
        assert(all =~= zeros(k));
        lemma_zeros_value(k);
        assert(weight(k) * 0 == 0) by (nonlinear_arith);
    } else {
        lemma_shifted_value(k, limbs.drop_last());
        assert(all.drop_last() =~= zeros(k) + limbs.drop_last());
        let n = (limbs.len() - 1) as nat;
        lemma_weight_adds(k, n);
        let x = limbs.last() as nat;
        let v = limbs_value(limbs.drop_last());
        let wk = weight(k);
        let wn = weight(n);
        assert(wk * v + x * (wk * wn) == wk * (v + x * wn)) by (nonlinear_arith);
    }
}

proof fn lemma_zeros_value(k: nat)
    ensures
        limbs_value(zeros(k)) == 0,
    decreases k,
{
    if k > 0 {
        lemma_zeros_value((k - 1) as nat);
        assert(zeros(k).drop_last() =~= zeros((k - 1) as nat));
        assert(0 * weight((k - 1) as nat) == 0) by (nonlinear_arith);
    }
}

/// Two sequences of one length that agree from limb `i` upwards compare as
/// their prefixes of length `i` do.
proof fn lemma_shared_top(x: Seq<u64>, y: Seq<u64>, i: int)
    requires
        x.len() == y.len(),
        0 <= i <= x.len(),
        forall|j: int| i <= j < x.len() ==> x[j] == y[j],
    ensures
        limbs_value(x) - limbs_value(y) == limbs_value(x.take(i)) - limbs_value(y.take(i)),
    decreases x.len() - i,
{
    if i == x.len() {
        assert(x.take(i) =~= x);
        assert(y.take(i) =~= y);
    } else {
        lemma_shared_top(x, y, i + 1);
        lemma_value_step(x, i);
        lemma_value_step(y, i);
    }
}

/// The limb at the top of two sequences of one length decides their order
/// where it differs.
proof fn lemma_top_limb_decides(x: Seq<u64>, y: Seq<u64>)
    requires
        x.len() == y.len(),
        x.len() > 0,
        x.last() < y.last(),
    ensures
        limbs_value(x) < limbs_value(y),
{
    lemma_value_below_weight(x.drop_last());
    let w = weight((x.len() - 1) as nat);
    let a = x.last() as nat;
    let b = y.last() as nat;
    let v = limbs_value(x.drop_last());
    assert(v + a * w < b * w) by (nonlinear_arith)
        requires
            v < w,
            a < b,
    ;
}

proof fn lemma_mul_step(out: nat, carry: nat, w: nat, prefix: nat, limb: nat, m: nat, lo: nat, hi: nat)
    requires
        out + carry * w == prefix * m,
        limb * m + carry == hi * base() + lo,
    ensures
        out + lo * w + hi * (base() * w) == (prefix + limb * w) * m,
{
    assert(out + lo * w + hi * (base() * w) == (prefix + limb * w) * m) by (nonlinear_arith)
        requires
            out + carry * w == prefix * m,
            limb * m + carry == hi * base() + lo,
    ;
}

proof fn lemma_add_step(out: nat, carry: nat, w: nat, pa: nat, pb: nat, a: nat, b: nat, lo: nat, hi: nat)
    requires
        out + carry * w == pa + pb,
        a + b + carry == hi * base() + lo,
    ensures
        out + lo * w + hi * (base() * w) == (pa + a * w) + (pb + b * w),
{
    assert(out + lo * w + hi * (base() * w) == (pa + a * w) + (pb + b * w)) by (nonlinear_arith)
        requires
            out + carry * w == pa + pb,
            a + b + carry == hi * base() + lo,
    ;
}

/// A natural number of any size, held as little-endian 64-bit limbs.
#[derive(Debug)]
pub struct BigNat {
    limbs: Vec<u64>,
}

impl View for BigNat {
    type V = nat;

    /// The number that the value denotes.
    closed spec fn view(&self) -> nat {
        limbs_value(self.limbs@)
    }
}

impl Clone for BigNat {
    fn clone(&self) -> (copy: BigNat)
        ensures
            copy@ == self@,
    {
        BigNat { limbs: self.limbs.clone() }
    }
}

impl BigNat {
    /// The number zero.
    pub fn zero() -> (r: BigNat)
        ensures
            r@ == 0,
    {
        BigNat { limbs: Vec::new() }
    }

    /// The number `v`.
    pub fn from_u64(v: u64) -> (r: BigNat)
        ensures
            r@ == v,
    {
        let mut limbs: Vec<u64> = Vec::new();
        limbs.push(v);
        proof {
            reveal_with_fuel(limbs_value, 2);
            assert(limbs@.drop_last() =~= Seq::<u64>::empty());
            assert((v as nat) * weight(0) == v) by (nonlinear_arith)
                requires
                    weight(0) == 1,
            ;
        }
        BigNat { limbs }
    }

    /// The number `v`.
    pub fn from_u128(v: u128) -> (r: BigNat)
        ensures
            r@ == v,
    {
        let lo: u64 = (v % 0x1_0000_0000_0000_0000u128) as u64;
        let hi: u64 = (v / 0x1_0000_0000_0000_0000u128) as u64;
        let mut limbs: Vec<u64> = Vec::new();
        limbs.push(lo);
        limbs.push(hi);
        proof {
            reveal_with_fuel(limbs_value, 3);
            reveal_with_fuel(weight, 2);
            let one = limbs@.drop_last();
            assert(one.drop_last() =~= Seq::<u64>::empty());
            assert(one.last() == lo);
            assert((lo as nat) * weight(0) == lo) by (nonlinear_arith)
                requires
                    weight(0) == 1,
            ;
            assert((hi as nat) * weight(1) == hi * base()) by (nonlinear_arith)
                requires
                    weight(1) == base(),
            ;
        }
        BigNat { limbs }
    }

    /// The limbs of the number, the least significant one first.
    pub fn limbs(&self) -> (copy: Vec<u64>)
        ensures
            limbs_value(copy@) == self@,
    {
        self.limbs.clone()
    }

    /// The number itself where it fits in 128 bits.
    pub fn to_u128(&self) -> (r: Option<u128>)
        ensures
            r matches Some(v) ==> v == self@,
            r.is_none() <==> self@ > u128::MAX,
    {
        let n: usize = self.limbs.len();
        let mut i: usize = n;
        while i > 2
            invariant
                n == self.limbs@.len(),
                i <= n,
                forall|j: int| i <= j < n ==> self.limbs@[j] == 0,
            decreases i,
        {
            i = i - 1;
            if self.limbs[i] != 0 {
                proof {
                    let s = self.limbs@;
                    let top = s.take(i + 1);
                    lemma_shared_top(s, padded(top, n as nat), i + 1);
                    assert(padded(top, n as nat).take(i + 1) =~= top);
                    lemma_padded_value(top, n as nat);
                    lemma_weight_adds(2, (i - 2) as nat);
                    lemma_weight_positive((i - 2) as nat);
                    reveal_with_fuel(weight, 3);
                    let x = s[i as int] as nat;
                    let w = weight((i - 2) as nat);
                    let v = limbs_value(top.drop_last());
                    assert(top.last() == s[i as int]);
                    assert(v + x * (weight(2) * w) >= weight(2)) by (nonlinear_arith)
                        requires
                            x >= 1,
                            w >= 1,
                            weight(2) >= 0,
                    ;
                    assert(weight(2) == base() * base()) by (nonlinear_arith)
                        requires
                            weight(2) == base() * (base() * 1),
                    ;
                }
                return None;
            }
        }
        let lo: u64 = if n > 0 {
            self.limbs[0]
        } else {
            0
        };
        let hi: u64 = if n > 1 {
            self.limbs[1]
        } else {
            0
        };
        proof {
            let s = self.limbs@;
            if n >= 2 {
                lemma_shared_top(s, padded(s.take(2), n as nat), 2);
                assert(padded(s.take(2), n as nat).take(2) =~= s.take(2));
                lemma_padded_value(s.take(2), n as nat);
                assert(s.take(2) =~= padded(s, 2));
            } else {
                lemma_padded_value(s, 2);
            }
            let two = padded(s, 2);
            reveal_with_fuel(limbs_value, 3);
            reveal_with_fuel(weight, 2);
            assert(two.drop_last().drop_last() =~= Seq::<u64>::empty());
            assert(two.drop_last().last() == lo);
            assert(two.last() == hi);
            assert((lo as nat) * weight(0) == lo) by (nonlinear_arith)
                requires
                    weight(0) == 1,
            ;
            assert((hi as nat) * weight(1) == hi * base()) by (nonlinear_arith)
                requires
                    weight(1) == base(),
            ;
        }
        Some((hi as u128) * 0x1_0000_0000_0000_0000u128 + (lo as u128))
    }

    /// Whether the number is zero.
    pub fn is_zero(&self) -> (b: bool)
        ensures
            b == (self@ == 0),
    {
        let zero = BigNat::zero();
        self.compare(&zero) == Order::Equal
    }

    /// The order of the number and `other`.
    pub fn compare(&self, other: &BigNat) -> (o: Order)
        ensures
            o == order_of(self@ as int, other@ as int),
    {
        let n: usize = if self.limbs.len() >= other.limbs.len() {
            self.limbs.len()
        } else {
            other.limbs.len()
        };
        let ghost x = padded(self.limbs@, n as nat);
        let ghost y = padded(other.limbs@, n as nat);
        proof {
            lemma_padded_value(self.limbs@, n as nat);
            lemma_padded_value(other.limbs@, n as nat);
        }
        let mut i: usize = n;
        while i > 0
            invariant
                i <= n,
                n >= self.limbs@.len(),
                n >= other.limbs@.len(),
                x == padded(self.limbs@, n as nat),
                y == padded(other.limbs@, n as nat),
                limbs_value(x) == self@,
                limbs_value(y) == other@,
                forall|j: int| i <= j < n ==> x[j] == y[j],
            decreases i,
        {
            i = i - 1;
            let a: u64 = if i < self.limbs.len() {
                self.limbs[i]
            } else {
                0
            };
            let b: u64 = if i < other.limbs.len() {
                other.limbs[i]
            } else {
                0
            };
            if a != b {
                proof {
                    lemma_shared_top(x, y, i + 1);
                    assert(x.take(i + 1).last() == a);
                    assert(y.take(i + 1).last() == b);
                    if a < b {
                        lemma_top_limb_decides(x.take(i + 1), y.take(i + 1));
                    } else {
                        lemma_top_limb_decides(y.take(i + 1), x.take(i + 1));
                    }
                }
                return if a < b {
                    Order::Less
                } else {
                    Order::Greater
                };
            }
        }
        proof {
            assert(x =~= y);
        }
        Order::Equal
    }

    /// Whether the number is less than `other`.
    pub fn less_than(&self, other: &BigNat) -> (b: bool)
        ensures
            b == (self@ < other@),
    {
        self.compare(other) == Order::Less
    }

    /// The sum of the number and `other`.
    pub fn add(&self, other: &BigNat) -> (r: BigNat)
        ensures
            r@ == self@ + other@,
    {
        let n: usize = if self.limbs.len() >= other.limbs.len() {
            self.limbs.len()
        } else {
            other.limbs.len()
        };
        let ghost x = padded(self.limbs@, n as nat);
        let ghost y = padded(other.limbs@, n as nat);
        let mut out: Vec<u64> = Vec::new();
        let mut carry: u64 = 0;
        let mut i: usize = 0;
        while i < n
            invariant
                i <= n,
                n >= self.limbs@.len(),
                n >= other.limbs@.len(),
                x == padded(self.limbs@, n as nat),
                y == padded(other.limbs@, n as nat),
                out@.len() == i,
                carry <= 1,
                limbs_value(out@) + carry * weight(i as nat) == limbs_value(x.take(i as int))
                    + limbs_value(y.take(i as int)),
            decreases n - i,
        {
            let a: u64 = if i < self.limbs.len() {
                self.limbs[i]
            } else {
                0
            };
            let b: u64 = if i < other.limbs.len() {
                other.limbs[i]
            } else {
                0
            };
            let t: u128 = (a as u128) + (b as u128) + (carry as u128);
            let lo: u64 = (t % 0x1_0000_0000_0000_0000u128) as u64;
            let hi: u64 = (t / 0x1_0000_0000_0000_0000u128) as u64;
            proof {
                lemma_value_step(x, i as int);
                lemma_value_step(y, i as int);
                lemma_add_step(
                    limbs_value(out@),
                    carry as nat,
                    weight(i as nat),
                    limbs_value(x.take(i as int)),
                    limbs_value(y.take(i as int)),
                    a as nat,
                    b as nat,
                    lo as nat,
                    hi as nat,
                );
                assert(out@.push(lo).drop_last() =~= out@);
            }
            out.push(lo);
            carry = hi;
            i = i + 1;
        }
        proof {
            assert(x.take(n as int) =~= x);
            assert(y.take(n as int) =~= y);
            lemma_padded_value(self.limbs@, n as nat);
            lemma_padded_value(other.limbs@, n as nat);
            assert(out@.push(carry).drop_last() =~= out@);
        }
        out.push(carry);
        BigNat { limbs: out }
    }

    /// The product of the number and the single limb `m`.
    pub fn mul_small(&self, m: u64) -> (r: BigNat)
        ensures
            r@ == self@ * m,
    {
        let n: usize = self.limbs.len();
        let mut out: Vec<u64> = Vec::new();
        let mut carry: u64 = 0;
        let mut i: usize = 0;
        proof {
            assert(self.limbs@.take(0) =~= Seq::<u64>::empty());
            assert(0 * weight(0) == 0) by (nonlinear_arith);
            assert(0 * (m as nat) == 0) by (nonlinear_arith);
        }
        while i < n
            invariant
                i <= n,
                n == self.limbs@.len(),
                out@.len() == i,
                limbs_value(out@) + carry * weight(i as nat) == limbs_value(
                    self.limbs@.take(i as int),
                ) * m,
            decreases n - i,
        {
            let a: u64 = self.limbs[i];
            proof {
                assert((a as nat) * (m as nat) + (carry as nat) <= 0xffff_ffff_ffff_ffff
                    * 0xffff_ffff_ffff_ffff + 0xffff_ffff_ffff_ffff) by (nonlinear_arith)
                    requires
                        a <= 0xffff_ffff_ffff_ffff,
                        m <= 0xffff_ffff_ffff_ffff,
                        carry <= 0xffff_ffff_ffff_ffff,
                ;
            }
            let t: u128 = (a as u128) * (m as u128) + (carry as u128);
            let lo: u64 = (t % 0x1_0000_0000_0000_0000u128) as u64;
            let hi: u64 = (t / 0x1_0000_0000_0000_0000u128) as u64;
            proof {
                lemma_value_step(self.limbs@, i as int);
                lemma_mul_step(
                    limbs_value(out@),
                    carry as nat,
                    weight(i as nat),
                    limbs_value(self.limbs@.take(i as int)),
                    a as nat,
                    m as nat,
                    lo as nat,
                    hi as nat,
                );
                assert(out@.push(lo).drop_last() =~= out@);
            }
            out.push(lo);
            carry = hi;
            i = i + 1;
        }
        proof {
            assert(self.limbs@.take(n as int) =~= self.limbs@);
            assert(out@.push(carry).drop_last() =~= out@);
        }
        out.push(carry);
        BigNat { limbs: out }
    }

    /// The number multiplied by the radix to the power `k`.
    fn shifted(&self, k: usize) -> (r: BigNat)
        ensures
            r@ == weight(k as nat) * self@,
    {
        let mut out: Vec<u64> = Vec::new();
        let mut i: usize = 0;
        while i < k
            invariant
                i <= k,
                out@ == zeros(i as nat),
            decreases k - i,
        {
            out.push(0);
            assert(out@ =~= zeros((i + 1) as nat));
            i = i + 1;
        }
        let n: usize = self.limbs.len();
        let mut j: usize = 0;
        while j < n
            invariant
                j <= n,
                n == self.limbs@.len(),
                out@ == zeros(k as nat) + self.limbs@.take(j as int),
            decreases n - j,
        {
            out.push(self.limbs[j]);
            assert(out@ =~= zeros(k as nat) + self.limbs@.take(j + 1));
            j = j + 1;
        }
        proof {
            assert(self.limbs@.take(n as int) =~= self.limbs@);
            lemma_shifted_value(k as nat, self.limbs@);
        }
        BigNat { limbs: out }
    }

    /// The product of the number and `other`.
    pub fn mul(&self, other: &BigNat) -> (r: BigNat)
        ensures
            r@ == self@ * other@,
    {
        let n: usize = other.limbs.len();
        let mut acc = BigNat::zero();
        let mut i: usize = 0;
        proof {
            assert(other.limbs@.take(0) =~= Seq::<u64>::empty());
            assert(self@ * 0 == 0) by (nonlinear_arith);
        }
        while i < n
            invariant
                i <= n,
                n == other.limbs@.len(),
                acc@ == self@ * limbs_value(other.limbs@.take(i as int)),
            decreases n - i,
        {
            let part = self.mul_small(other.limbs[i]).shifted(i);
            proof {
                lemma_value_step(other.limbs@, i as int);
                let a = self@;
                let p = limbs_value(other.limbs@.take(i as int));
                let x = other.limbs@[i as int] as nat;
                let w = weight(i as nat);
                assert(a * p + w * (a * x) == a * (p + x * w)) by (nonlinear_arith);
            }
            acc = acc.add(&part);
            i = i + 1;
        }
        proof {
            assert(other.limbs@.take(n as int) =~= other.limbs@);
        }
        acc
    }
}

} // verus!
