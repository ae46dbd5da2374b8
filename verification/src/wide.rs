//! Natural numbers of any size, as far as sums of products need them.

use vstd::prelude::*;

verus! {

/// One more than the largest limb.
pub open spec fn limb_base() -> nat {
    0x1_0000_0000_0000_0000
}

/// The number that limbs denote, least significant limb first.
pub open spec fn limbs_value(limbs: Seq<u64>) -> nat
    decreases limbs.len(),
{
    if limbs.len() == 0 {
        0
    } else {
        limbs[0] as nat + limb_base() * limbs_value(limbs.drop_first())
    }
}

/// `limb_base()` to the power of `n`.
pub open spec fn base_pow(n: nat) -> nat
    decreases n,
{
    if n == 0 {
        1
    } else {
        limb_base() * base_pow((n - 1) as nat)
    }
}

proof fn lemma_push_limb(limbs: Seq<u64>, top: u64)
    ensures
        limbs_value(limbs.push(top)) == limbs_value(limbs) + base_pow(limbs.len()) * top,
    decreases limbs.len(),
{
    if limbs.len() == 0 {
        assert(limbs.push(top).drop_first() =~= Seq::<u64>::empty());
        assert(limbs_value(limbs.push(top).drop_first()) == 0);
        assert(base_pow(0) * top == top) by (nonlinear_arith)
            requires
                base_pow(0) == 1,
        ;
    } else {
        assert(limbs.push(top).drop_first() =~= limbs.drop_first().push(top));
        lemma_push_limb(limbs.drop_first(), top);
        let b = limb_base() as int;
        let v = limbs_value(limbs.drop_first()) as int;
        let p = base_pow((limbs.len() - 1) as nat) as int;
        let t = top as int;
        assert(b * (v + p * t) == b * v + (b * p) * t) by (nonlinear_arith);
        assert(base_pow(limbs.len()) == b * p);
        assert(limbs.push(top)[0] == limbs[0]);
        assert(limbs_value(limbs.push(top)) == limbs[0] + b * (v + p * t));
    }
}

proof fn lemma_value_bound(limbs: Seq<u64>)
    ensures
        limbs_value(limbs) < base_pow(limbs.len()),
    decreases limbs.len(),
{
    if limbs.len() > 0 {
        lemma_value_bound(limbs.drop_first());
        let b = limb_base() as int;
        let v = limbs_value(limbs.drop_first()) as int;
        let p = base_pow((limbs.len() - 1) as nat) as int;
        assert(b * v + b <= b * p) by (nonlinear_arith)
            requires
                v + 1 <= p,
                b > 0,
        ;
    }
}

proof fn lemma_split_value(limbs: Seq<u64>, k: int)
    requires
        0 <= k <= limbs.len(),
    ensures
        limbs_value(limbs) == limbs_value(limbs.take(k)) + base_pow(k as nat) * limbs_value(
            limbs.skip(k),
        ),
    decreases k,
{
    if k == 0 {
        assert(limbs.skip(0) =~= limbs);
        assert(base_pow(0) * limbs_value(limbs) == limbs_value(limbs)) by (nonlinear_arith)
            requires
                base_pow(0) == 1,
        ;
    } else {
        lemma_split_value(limbs.drop_first(), k - 1);
        assert(limbs.take(k).drop_first() =~= limbs.drop_first().take(k - 1));
        assert(limbs.drop_first().skip(k - 1) =~= limbs.skip(k));
        let b = limb_base() as int;
        let low = limbs_value(limbs.drop_first().take(k - 1)) as int;
        let p = base_pow((k - 1) as nat) as int;
        let high = limbs_value(limbs.skip(k)) as int;
        assert(b * (low + p * high) == b * low + (b * p) * high) by (nonlinear_arith);
    }
}

/// A natural number of any size.
pub struct Wide {
    limbs: Vec<u64>,
}

impl Wide {
    /// The number that is held.
    pub closed spec fn value(&self) -> nat {
        limbs_value(self.limbs@)
    }

    /// The number of one limb.
    pub fn of(n: u64) -> (r: Wide)
        ensures
            r.value() == n,
    {
        let mut limbs: Vec<u64> = Vec::new();
        limbs.push(n);
        proof {
            assert(limbs@.drop_first() =~= Seq::<u64>::empty());
            assert(limbs_value(limbs@.drop_first()) == 0);
        }
        Wide { limbs }
    }

    fn limb(&self, i: usize) -> (r: u64)
        ensures
            r == (if i < self.limbs@.len() {
                self.limbs@[i as int]
            } else {
                0
            }),
    {
        if i < self.limbs.len() {
            self.limbs[i]
        } else {
            0
        }
    }

    /// The sum of two numbers.
    pub fn plus(&self, other: &Wide) -> (r: Wide)
        ensures
            r.value() == self.value() + other.value(),
    {
        let n = if self.limbs.len() < other.limbs.len() {
            other.limbs.len()
        } else {
            self.limbs.len()
        };
        let mut out: Vec<u64> = Vec::new();
        let mut carry: u64 = 0;
        let mut i: usize = 0;
        let ghost a = padded(self.limbs@, n as nat);
        let ghost b = padded(other.limbs@, n as nat);
        proof {
            lemma_padded(self.limbs@, n as nat);
            lemma_padded(other.limbs@, n as nat);
            assert(a.take(0) =~= Seq::<u64>::empty());
            assert(b.take(0) =~= Seq::<u64>::empty());
        }
        while i < n
            invariant
                i <= n,
                n >= self.limbs@.len(),
                n >= other.limbs@.len(),
                a == padded(self.limbs@, n as nat),
                b == padded(other.limbs@, n as nat),
                carry <= 1,
                out@.len() == i,
                limbs_value(out@) + base_pow(i as nat) * carry == limbs_value(a.take(i as int))
                    + limbs_value(b.take(i as int)),
            decreases n - i,
        {
            let x = self.limb(i);
            let y = other.limb(i);
            let sum: u128 = x as u128 + y as u128 + carry as u128;
            let low: u64 = (sum % 0x1_0000_0000_0000_0000u128) as u64;
            let next: u64 = (sum / 0x1_0000_0000_0000_0000u128) as u64;
            proof {
                assert(a.take(i + 1) =~= a.take(i as int).push(x));
                assert(b.take(i + 1) =~= b.take(i as int).push(y));
                lemma_push_limb(a.take(i as int), x);
                lemma_push_limb(b.take(i as int), y);
                lemma_push_limb(out@, low);
                let p = base_pow(i as nat) as int;
                assert(x + y + carry == low + limb_base() * next);
                let h = limb_base() as int;
                let (xi, yi, ci, li, ni) = (x as int, y as int, carry as int, low as int, next as int);
                assert(p * xi + p * yi + p * ci == p * li + (h * p) * ni) by (nonlinear_arith)
                    requires
                        xi + yi + ci == li + h * ni,
                ;
            }
            out.push(low);
            carry = next;
            i += 1;
        }
        proof {
            lemma_push_limb(out@, carry);
            assert(a.take(n as int) =~= a);
            assert(b.take(n as int) =~= b);
        }
        out.push(carry);
        Wide { limbs: out }
    }

    /// The product with a number of one limb.
    pub fn times(&self, factor: u64) -> (r: Wide)
        ensures
            r.value() == self.value() * factor,
    {
        let n = self.limbs.len();
        let mut out: Vec<u64> = Vec::new();
        let mut carry: u64 = 0;
        let mut i: usize = 0;
        let ghost a = self.limbs@;
        assert(a.take(0) =~= Seq::<u64>::empty());
        assert(0 * factor == 0) by (nonlinear_arith);
        while i < n
            invariant
                i <= n,
                n == self.limbs@.len(),
                a == self.limbs@,
                out@.len() == i,
                limbs_value(out@) + base_pow(i as nat) * carry == limbs_value(a.take(i as int))
                    * factor,
            decreases n - i,
        {
            let x = self.limbs[i];
            assert(x * factor + carry <= 0xffff_ffff_ffff_ffff_ffff_ffff_ffff_ffff) by (nonlinear_arith)
                requires
                    x <= 0xffff_ffff_ffff_ffff,
                    factor <= 0xffff_ffff_ffff_ffff,
                    carry <= 0xffff_ffff_ffff_ffff,
            ;
            assert(0 <= x * factor) by (nonlinear_arith);
            let sum: u128 = x as u128 * factor as u128 + carry as u128;
            let low: u64 = (sum % 0x1_0000_0000_0000_0000u128) as u64;
            let next: u64 = (sum / 0x1_0000_0000_0000_0000u128) as u64;
            proof {
                assert(sum / 0x1_0000_0000_0000_0000u128 <= 0xffff_ffff_ffff_ffff);
                assert(a.take(i + 1) =~= a.take(i as int).push(x));
                lemma_push_limb(a.take(i as int), x);
                lemma_push_limb(out@, low);
                let p = base_pow(i as nat) as int;
                let h = limb_base() as int;
                let v = limbs_value(a.take(i as int)) as int;
                let (xi, fi, ci, li, ni) = (
                    x as int,
                    factor as int,
                    carry as int,
                    low as int,
                    next as int,
                );
                assert(xi * fi + ci == li + h * ni);
                let w = limbs_value(out@) as int;
                assert(w + p * li + (h * p) * ni == (v + p * xi) * fi) by (nonlinear_arith)
                    requires
                        xi * fi + ci == li + h * ni,
                        w + p * ci == v * fi,
                ;
            }
            out.push(low);
            carry = next;
            i += 1;
        }
        proof {
            lemma_push_limb(out@, carry);
            assert(a.take(n as int) =~= a);
        }
        out.push(carry);
        Wide { limbs: out }
    }

    /// Whether this number is larger than the other.
    pub fn exceeds(&self, other: &Wide) -> (r: bool)
        ensures
            r == (self.value() > other.value()),
    {
        let n = if self.limbs.len() < other.limbs.len() {
            other.limbs.len()
        } else {
            self.limbs.len()
        };
        let ghost a = padded(self.limbs@, n as nat);
        let ghost b = padded(other.limbs@, n as nat);
        proof {
            lemma_padded(self.limbs@, n as nat);
            lemma_padded(other.limbs@, n as nat);
        }
        let mut i: usize = n;
        while i > 0
            invariant
                i <= n,
                n >= self.limbs@.len(),
                n >= other.limbs@.len(),
                a == padded(self.limbs@, n as nat),
                b == padded(other.limbs@, n as nat),
                a.len() == n,
                b.len() == n,
                a.skip(i as int) =~= b.skip(i as int),
                limbs_value(a) == self.value(),
                limbs_value(b) == other.value(),
            decreases i,
        {
            i -= 1;
            let x = self.limb(i);
            let y = other.limb(i);
            if x != y {
                proof {
                    lemma_first_difference(a, b, i as int);
                }
                return x > y;
            }
            assert(a.skip(i as int) =~= seq![x] + a.skip(i + 1));
            assert(b.skip(i as int) =~= seq![y] + b.skip(i + 1));
        }
        assert(a =~= b) by {
            assert(a.skip(0) =~= a);
            assert(b.skip(0) =~= b);
        }
        false
    }
}

spec fn padded(limbs: Seq<u64>, n: nat) -> Seq<u64> {
    Seq::new(
        n,
        |i: int|
            if i < limbs.len() {
                limbs[i]
            } else {
                0
            },
    )
}

proof fn lemma_padded(limbs: Seq<u64>, n: nat)
    requires
        limbs.len() <= n,
    ensures
        limbs_value(padded(limbs, n)) == limbs_value(limbs),
    decreases n,
{
    if limbs.len() == n {
        assert(padded(limbs, n) =~= limbs);
    } else {
        lemma_padded(limbs, (n - 1) as nat);
        assert(padded(limbs, n) =~= padded(limbs, (n - 1) as nat).push(0));
        lemma_push_limb(padded(limbs, (n - 1) as nat), 0);
    }
}

proof fn lemma_first_difference(a: Seq<u64>, b: Seq<u64>, i: int)
    requires
        a.len() == b.len(),
        0 <= i < a.len(),
        a.skip(i + 1) == b.skip(i + 1),
        a[i] != b[i],
    ensures
        (limbs_value(a) > limbs_value(b)) == (a[i] > b[i]),
{
    if a[i] > b[i] {
        lemma_larger_limb(a, b, i);
    } else {
        lemma_larger_limb(b, a, i);
    }
}

proof fn lemma_larger_limb(a: Seq<u64>, b: Seq<u64>, i: int)
    requires
        a.len() == b.len(),
        0 <= i < a.len(),
        a.skip(i + 1) == b.skip(i + 1),
        a[i] > b[i],
    ensures
        limbs_value(a) > limbs_value(b),
{
    lemma_split_value(a, i + 1);
    lemma_split_value(b, i + 1);
    assert(a.take(i + 1) =~= a.take(i).push(a[i]));
    assert(b.take(i + 1) =~= b.take(i).push(b[i]));
    lemma_push_limb(a.take(i), a[i]);
    lemma_push_limb(b.take(i), b[i]);
    lemma_value_bound(b.take(i));
    let p = base_pow(i as nat) as int;
    let (x, y) = (a[i] as int, b[i] as int);
    assert(p * y + p <= p * x) by (nonlinear_arith)
        requires
            y + 1 <= x,
            p >= 0,
    ;
}

} // verus!
