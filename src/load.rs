//! Load factors and fill ratios as exact fractions.
use vstd::prelude::*;

verus! {

/// A growth threshold `numerator / denominator`: a table grows once its
/// ratio of occupied slots to slots reaches it.
#[derive(Clone, Copy, Debug)]
pub struct LoadFactor {
    numerator: u32,
    denominator: u32,
}

impl LoadFactor {
    /// The fraction's denominator is positive.
    pub open spec fn valid(self) -> bool {
        self.den() > 0
    }

    pub closed spec fn num(self) -> nat {
        self.numerator as nat
    }

    pub closed spec fn den(self) -> nat {
        self.denominator as nat
    }

    /// Whether `count / slots` has reached the threshold.
    pub open spec fn reached(self, count: nat, slots: nat) -> bool {
        count * self.den() >= self.num() * slots
    }

    /// Whether `count / slots` exceeds the threshold by less than one entry,
    /// `(count - 1) / slots < numerator / denominator`.
    pub open spec fn within(self, count: nat, slots: nat) -> bool {
        count * self.den() < self.num() * slots + self.den()
    }

    /// The capacity an insert works with: `capacity`, or `base` when the
    /// table had none, doubled when `count` has reached the threshold.
    pub open spec fn grown(self, count: nat, capacity: nat, base: nat) -> nat {
        let c = if capacity == 0 {
            base
        } else {
            capacity
        };
        if self.reached(count, c) {
            2 * c
        } else {
            c
        }
    }

    /// A table within one entry of the threshold stays so across an insert
    /// that adds at most one occupied slot after the growth check, provided
    /// the threshold allows at least one entry in the capacity it starts
    /// from.
    pub proof fn lemma_stays_within(self, count: nat, capacity: nat, base: nat, new_count: nat)
        requires
            self.valid(),
            capacity == 0 ==> count == 0,
            self.within(count, capacity),
            self.num() * (if capacity == 0 {
                base
            } else {
                capacity
            }) >= self.den(),
            new_count <= count + 1,
        ensures
            self.within(new_count, self.grown(count, capacity, base)),
    {
        let c = if capacity == 0 {
            base
        } else {
            capacity
        };
        let n = self.num();
        let d = self.den();
        assert(count * d < n * c + d) by (nonlinear_arith)
            requires
                capacity == 0 ==> count == 0,
                capacity != 0 ==> c == capacity,
                count * d < n * capacity + d,
                d > 0,
        ;
        assert(new_count * d <= count * d + d) by (nonlinear_arith)
            requires
                new_count <= count + 1,
        ;
        if !self.reached(count, c) {
        } else {
            assert(n * c + d <= n * (2 * c)) by (nonlinear_arith)
                requires
                    n * c >= d,
            ;
        }
    }

    pub fn new(numerator: u32, denominator: u32) -> (r: LoadFactor)
        requires
            denominator > 0,
        ensures
            r.valid(),
            r.num() == numerator,
            r.den() == denominator,
    {
        LoadFactor { numerator, denominator }
    }

    pub fn numerator(&self) -> (r: u32)
        ensures
            r == self.num(),
    {
        self.numerator
    }

    pub fn denominator(&self) -> (r: u32)
        ensures
            r == self.den(),
    {
        self.denominator
    }

    /// Tests whether `count / slots` has reached the threshold.
    pub fn is_reached(&self, count: usize, slots: usize) -> (r: bool)
        ensures
            r == self.reached(count as nat, slots as nat),
    {
        let c = count as u128;
        let d = self.denominator as u128;
        let n = self.numerator as u128;
        let s = slots as u128;
        proof {
            lemma_product_fits(c, d);
            lemma_product_fits(s, n);
        }
        c * d >= n * s
    }
}

proof fn lemma_product_fits(a: u128, b: u128)
    requires
        a <= u64::MAX,
        b <= u32::MAX,
    ensures
        a * b <= u128::MAX,
{
    assert(a * b <= (u64::MAX as u128) * (u32::MAX as u128)) by (nonlinear_arith)
        requires
            a <= u64::MAX,
            b <= u32::MAX,
    ;
}

/// A fill ratio `numerator / denominator`, with a positive denominator.
#[derive(Clone, Copy, Debug, PartialEq, Eq, Structural)]
pub struct Ratio {
    pub numerator: usize,
    pub denominator: usize,
}

impl Ratio {
    /// The ratio of `count` entries to `slots` slots, zero where there are no slots.
    pub fn of(count: usize, slots: usize) -> (r: Ratio)
        ensures
            r.denominator > 0,
            slots > 0 ==> r.numerator == count && r.denominator == slots,
            slots == 0 ==> r.numerator == 0 && r.denominator == 1,
    {
        if slots == 0 {
            Ratio { numerator: 0, denominator: 1 }
        } else {
            Ratio { numerator: count, denominator: slots }
        }
    }
}

} // verus!
