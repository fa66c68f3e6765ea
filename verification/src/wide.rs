//! Whole numbers of up to 512 bits, wide enough for the products of amounts.

use vstd::prelude::*;

verus! {

/// The number of limbs of a wide number.
pub const LIMBS: usize = 8;

/// What a limb counts in: 2^64.
pub const BASE: u128 = 0x1_0000_0000_0000_0000;

/// `BASE` to the power `i`.
pub open spec fn pow_base(i: nat) -> int
    decreases i,
{
    if i == 0 {
        1
    } else {
        BASE * pow_base((i - 1) as nat)
    }
}

/// The number that the limbs stand for, the lowest limb first.
pub open spec fn value_of(limbs: Seq<u64>) -> int
    decreases limbs.len(),
{
    if limbs.len() == 0 {
        0
    } else {
        value_of(limbs.drop_last()) + limbs.last() * pow_base((limbs.len() - 1) as nat)
    }
}

/// A power of the base is at least one.
pub proof fn lemma_pow_base_positive(i: nat)
    ensures
        pow_base(i) >= 1,
    decreases i,
{
    if i > 0 {
        lemma_pow_base_positive((i - 1) as nat);
        assert(BASE * pow_base((i - 1) as nat) >= 1) by (nonlinear_arith)
            requires
                pow_base((i - 1) as nat) >= 1,
        ;
    }
}

/// The powers of the base up to the number of limbs.
pub proof fn lemma_pow_base_values()
    ensures
        pow_base(3) == 0x1_0000_0000_0000_0000_0000_0000_0000_0000_0000_0000_0000_0000int,
        pow_base(6) == pow_base(3) * pow_base(3),
        pow_base(7) == BASE * pow_base(6),
        pow_base(8) == BASE * pow_base(7),
{
    reveal_with_fuel(pow_base, 4);
    assert(pow_base(6) == BASE * (BASE * (BASE * pow_base(3))));
    assert(BASE * (BASE * (BASE * pow_base(3))) == pow_base(3) * pow_base(3)) by (nonlinear_arith)
        requires
            pow_base(3) == BASE * (BASE * BASE),
    ;
}

/// The limbs stand for a number below the power of the base that their
/// number gives.
pub proof fn lemma_value_bound(limbs: Seq<u64>)
    ensures
        0 <= value_of(limbs) < pow_base(limbs.len()),
    decreases limbs.len(),
{
    if limbs.len() > 0 {
        let n = (limbs.len() - 1) as nat;
        lemma_value_bound(limbs.drop_last());
        lemma_pow_base_positive(n);
        let p = pow_base(n);
        let top = limbs.last();
        assert(0 <= top * p <= (BASE - 1) * p) by (nonlinear_arith)
            requires
                0 <= top <= BASE - 1,
                p >= 1,
        ;
        assert(BASE * p == (BASE - 1) * p + p) by (nonlinear_arith);
    }
}

/// The value of the first limbs of a number and one more.
pub proof fn lemma_value_take(limbs: Seq<u64>, i: int)
    requires
        0 <= i < limbs.len(),
    ensures
        value_of(limbs.take(i + 1)) == value_of(limbs.take(i)) + limbs[i] * pow_base(i as nat),
{
    assert(limbs.take(i + 1).drop_last() == limbs.take(i));
}

/// A wide number: a whole number from zero up to 2^512.
pub struct Wide {
    limbs: Vec<u64>,
}

impl View for Wide {
    type V = int;

    closed spec fn view(&self) -> int {
        value_of(self.limbs@)
    }
}

impl Wide {
    #[verifier::type_invariant]
    spec fn inv(self) -> bool {
        self.limbs@.len() == LIMBS
    }

    /// A wide number is a whole number from zero up to 2^512.
    pub fn bounds(&self)
        ensures
            0 <= self@ < pow_base(LIMBS as nat),
    {
        proof {
            use_type_invariant(self);
            lemma_value_bound(self.limbs@);
        }
    }

    /// The number `x`.
    pub fn new(x: u128) -> (r: Wide)
        ensures
            r@ == x,
    {
        let low: u64 = (x % BASE) as u64;
        let high: u64 = (x / BASE) as u64;
        let mut limbs: Vec<u64> = Vec::new();
        limbs.push(low);
        proof {
            assert(limbs@.drop_last() == Seq::<u64>::empty());
            assert(low * pow_base(0) == low) by (nonlinear_arith)
                requires
                    pow_base(0) == 1,
            ;
            assert(value_of(Seq::<u64>::empty()) == 0);
            assert(limbs@.last() == low);
            assert(value_of(limbs@) == low);
        }
        let ghost first = limbs@;
        limbs.push(high);
        proof {
            assert(limbs@.drop_last() == first);
            assert(pow_base(1) == BASE * pow_base(0));
            assert(high * pow_base(1) == high * BASE) by (nonlinear_arith)
                requires
                    pow_base(1) == BASE,
            ;
            assert(limbs@.last() == high);
            assert(value_of(limbs@) == value_of(first) + high * pow_base(1));
            assert(value_of(limbs@) == low + high * BASE);
        }
        let mut i: usize = 2;
        while i < LIMBS
            invariant
                2 <= i <= LIMBS,
                limbs.len() == i,
                value_of(limbs@) == x,
            decreases LIMBS - i,
        {
            let ghost before = limbs@;
            limbs.push(0);
            proof {
                assert(limbs@.drop_last() == before);
                assert(0 * pow_base(i as nat) == 0) by (nonlinear_arith);
            }
            i = i + 1;
        }
        Wide { limbs }
    }

    /// The product of the number and a limb, where that is a wide number.
    fn times_limb(&self, k: u64) -> (r: Option<Wide>)
        ensures
            r is Some <==> self@ * k < pow_base(LIMBS as nat),
            r matches Some(w) ==> w@ == self@ * k,
    {
        proof {
            use_type_invariant(self);
        }
        let mut out: Vec<u64> = Vec::new();
        let mut carry: u128 = 0;
        let mut i: usize = 0;
        assert(self.limbs@.take(0) == Seq::<u64>::empty());
        assert(value_of(self.limbs@.take(0)) * k == 0) by (nonlinear_arith)
            requires
                value_of(self.limbs@.take(0)) == 0,
        ;
        while i < LIMBS
            invariant
                self.limbs@.len() == LIMBS,
                i <= LIMBS,
                out.len() == i,
                carry < BASE,
                value_of(out@) + carry * pow_base(i as nat) == value_of(self.limbs@.take(i as int))
                    * k,
            decreases LIMBS - i,
        {
            let limb = self.limbs[i];
            assert(limb * k <= (BASE - 1) * (BASE - 1)) by (nonlinear_arith)
                requires
                    0 <= limb <= BASE - 1,
                    0 <= k <= BASE - 1,
            ;
            let t: u128 = (limb as u128) * (k as u128) + carry;
            let low: u64 = (t % BASE) as u64;
            let high: u128 = t / BASE;
            proof {
                let p = pow_base(i as nat);
                let sofar = value_of(self.limbs@.take(i as int));
                lemma_value_take(self.limbs@, i as int);
                assert(out@.push(low).drop_last() == out@);
                assert(t == high * BASE + low);
                assert(value_of(out@) + low * p + high * (BASE * p) == (sofar + limb * p) * k)
                    by (nonlinear_arith)
                    requires
                        value_of(out@) + carry * p == sofar * k,
                        limb * k + carry == high * BASE + low,
                ;
            }
            out.push(low);
            carry = high;
            i = i + 1;
        }
        proof {
            assert(self.limbs@.take(LIMBS as int) == self.limbs@);
            lemma_value_bound(out@);
            lemma_pow_base_positive(LIMBS as nat);
            let p = pow_base(LIMBS as nat);
            if carry != 0 {
                assert(carry * p >= p) by (nonlinear_arith)
                    requires
                        carry >= 1,
                        p >= 1,
                ;
            } else {
                assert(carry * p == 0) by (nonlinear_arith)
                    requires
                        carry == 0,
                ;
            }
        }
        if carry != 0 {
            None
        } else {
            Some(Wide { limbs: out })
        }
    }

    /// The sum of the two numbers, where that is a wide number.
    pub fn plus(&self, other: &Wide) -> (r: Option<Wide>)
        ensures
            r is Some <==> self@ + other@ < pow_base(LIMBS as nat),
            r matches Some(w) ==> w@ == self@ + other@,
    {
        proof {
            use_type_invariant(self);
            use_type_invariant(other);
        }
        let mut out: Vec<u64> = Vec::new();
        let mut carry: u128 = 0;
        let mut i: usize = 0;
        assert(self.limbs@.take(0) == Seq::<u64>::empty());
        assert(other.limbs@.take(0) == Seq::<u64>::empty());
        while i < LIMBS
            invariant
                self.limbs@.len() == LIMBS,
                other.limbs@.len() == LIMBS,
                i <= LIMBS,
                out.len() == i,
                carry <= 1,
                value_of(out@) + carry * pow_base(i as nat) == value_of(self.limbs@.take(i as int))
                    + value_of(other.limbs@.take(i as int)),
            decreases LIMBS - i,
        {
            let a = self.limbs[i];
            let b = other.limbs[i];
            let t: u128 = (a as u128) + (b as u128) + carry;
            let low: u64 = (t % BASE) as u64;
            let high: u128 = t / BASE;
            proof {
                let p = pow_base(i as nat);
                lemma_value_take(self.limbs@, i as int);
                lemma_value_take(other.limbs@, i as int);
                assert(out@.push(low).drop_last() == out@);
                assert(t == high * BASE + low);
                assert(low * p + high * (BASE * p) == (a + b + carry) * p) by (nonlinear_arith)
                    requires
                        a + b + carry == high * BASE + low,
                ;
                assert((a + b + carry) * p == a * p + b * p + carry * p) by (nonlinear_arith);
            }
            out.push(low);
            carry = high;
            i = i + 1;
        }
        proof {
            assert(self.limbs@.take(LIMBS as int) == self.limbs@);
            assert(other.limbs@.take(LIMBS as int) == other.limbs@);
            lemma_value_bound(out@);
            lemma_pow_base_positive(LIMBS as nat);
            let p = pow_base(LIMBS as nat);
            if carry != 0 {
                assert(carry * p >= p) by (nonlinear_arith)
                    requires
                        carry >= 1,
                        p >= 1,
                ;
            } else {
                assert(carry * p == 0) by (nonlinear_arith)
                    requires
                        carry == 0,
                ;
            }
        }
        if carry != 0 {
            None
        } else {
            Some(Wide { limbs: out })
        }
    }

    /// The number times the base, where that is a wide number.
    fn times_base(&self) -> (r: Option<Wide>)
        ensures
            r is Some <==> self@ * BASE < pow_base(LIMBS as nat),
            r matches Some(w) ==> w@ == self@ * BASE,
    {
        proof {
            use_type_invariant(self);
        }
        let mut out: Vec<u64> = Vec::new();
        out.push(0);
        let mut i: usize = 0;
        proof {
            reveal_with_fuel(value_of, 2);
            assert(out@.drop_last() == Seq::<u64>::empty());
            assert(self.limbs@.take(0) == Seq::<u64>::empty());
        }
        while i < LIMBS - 1
            invariant
                self.limbs@.len() == LIMBS,
                i <= LIMBS - 1,
                out.len() == i + 1,
                value_of(out@) == value_of(self.limbs@.take(i as int)) * BASE,
            decreases LIMBS - i,
        {
            let limb = self.limbs[i];
            proof {
                let p = pow_base(i as nat);
                lemma_value_take(self.limbs@, i as int);
                assert(out@.push(limb).drop_last() == out@);
                assert((value_of(self.limbs@.take(i as int)) + limb * p) * BASE == value_of(
                    self.limbs@.take(i as int),
                ) * BASE + limb * (BASE * p)) by (nonlinear_arith);
            }
            out.push(limb);
            i = i + 1;
        }
        let top = self.limbs[LIMBS - 1];
        proof {
            let low = value_of(self.limbs@.take(LIMBS - 1));
            let p = pow_base((LIMBS - 1) as nat);
            lemma_value_take(self.limbs@, LIMBS - 1);
            assert(self.limbs@.take(LIMBS as int) == self.limbs@);
            lemma_value_bound(out@);
            lemma_pow_base_positive((LIMBS - 1) as nat);
            assert((low + top * p) * BASE == low * BASE + top * (BASE * p)) by (nonlinear_arith);
            if top != 0 {
                assert(top * (BASE * p) >= BASE * p) by (nonlinear_arith)
                    requires
                        top >= 1,
                        BASE * p >= 1,
                ;
                assert(low * BASE >= 0) by (nonlinear_arith)
                    requires
                        low >= 0,
                ;
                lemma_value_bound(self.limbs@.take(LIMBS - 1));
            } else {
                assert(top * (BASE * p) == 0) by (nonlinear_arith)
                    requires
                        top == 0,
                ;
            }
        }
        if top != 0 {
            None
        } else {
            Some(Wide { limbs: out })
        }
    }

    /// The product of the number and `k`, where that is a wide number.
    pub fn times(&self, k: u128) -> (r: Option<Wide>)
        ensures
            r is Some <==> self@ * k < pow_base(LIMBS as nat),
            r matches Some(w) ==> w@ == self@ * k,
    {
        let low: u64 = (k % BASE) as u64;
        let high: u64 = (k / BASE) as u64;
        proof {
            lemma_value_bound(self.limbs@);
            assert(self@ * k == self@ * low + (self@ * high) * BASE) by (nonlinear_arith)
                requires
                    k == high * BASE + low,
            ;
            assert(self@ * low >= 0 && self@ * high >= 0) by (nonlinear_arith)
                requires
                    self@ >= 0,
                    low >= 0,
                    high >= 0,
            ;
            assert((self@ * high) * BASE >= self@ * high) by (nonlinear_arith)
                requires
                    self@ * high >= 0,
            ;
        }
        let first = self.times_limb(low);
        let second = self.times_limb(high);
        match (first, second) {
            (Some(first), Some(second)) => match second.times_base() {
                Some(shifted) => first.plus(&shifted),
                None => None,
            },
            _ => None,
        }
    }

    /// Whether the number is not above the other.
    pub fn le(&self, other: &Wide) -> (r: bool)
        ensures
            r == (self@ <= other@),
    {
        proof {
            use_type_invariant(self);
            use_type_invariant(other);
        }
        let mut i: usize = LIMBS;
        assert(self.limbs@.take(LIMBS as int) == self.limbs@);
        assert(other.limbs@.take(LIMBS as int) == other.limbs@);
        while i > 0
            invariant
                self.limbs@.len() == LIMBS,
                other.limbs@.len() == LIMBS,
                i <= LIMBS,
                (self@ <= other@) == (value_of(self.limbs@.take(i as int)) <= value_of(
                    other.limbs@.take(i as int),
                )),
            decreases i,
        {
            i = i - 1;
            let a = self.limbs[i];
            let b = other.limbs[i];
            proof {
                let p = pow_base(i as nat);
                lemma_value_take(self.limbs@, i as int);
                lemma_value_take(other.limbs@, i as int);
                lemma_value_bound(self.limbs@.take(i as int));
                lemma_value_bound(other.limbs@.take(i as int));
                if a < b {
                    assert(b * p >= (a + 1) * p) by (nonlinear_arith)
                        requires
                            b >= a + 1,
                            p >= 0,
                    ;
                    assert((a + 1) * p == a * p + p) by (nonlinear_arith);
                } else if a > b {
                    assert(a * p >= (b + 1) * p) by (nonlinear_arith)
                        requires
                            a >= b + 1,
                            p >= 0,
                    ;
                    assert((b + 1) * p == b * p + p) by (nonlinear_arith);
                }
            }
            if a < b {
                return true;
            }
            if a > b {
                return false;
            }
        }
        proof {
            assert(self.limbs@.take(0) == Seq::<u64>::empty());
            assert(other.limbs@.take(0) == Seq::<u64>::empty());
        }
        true
    }
}

} // verus!
