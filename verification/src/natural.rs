//! Natural numbers of any size.
//!
//! A score is a product of fractions, and two scores are compared by cross
//! multiplication. The products outgrow every machine integer, so they are
//! formed here, limb by limb, and compared exactly.

use vstd::prelude::*;

verus! {

/// The value of one unit in the limb above: 2 to the power of 64.
pub open spec fn base() -> nat {
    0x1_0000_0000_0000_0000
}

/// The value of one unit in limb `place`.
pub open spec fn weight(place: nat) -> nat
    decreases place,
{
    if place == 0 {
        1
    } else {
        base() * weight((place - 1) as nat)
    }
}

/// The number that `limbs` spell, least significant limb first.
pub open spec fn limbs_value(limbs: Seq<u64>) -> nat
    decreases limbs.len(),
{
    if limbs.len() == 0 {
        0
    } else {
        limbs_value(limbs.drop_last()) + limbs.last() as nat * weight((limbs.len() - 1) as nat)
    }
}

/// The product of the numbers in `factors`; 1 where there are none.
pub open spec fn product(factors: Seq<u64>) -> nat
    decreases factors.len(),
{
    if factors.len() == 0 {
        1
    } else {
        product(factors.drop_last()) * factors.last() as nat
    }
}

/// `limbs` made `len` long with zeros on top.
pub open spec fn padded(limbs: Seq<u64>, len: nat) -> Seq<u64> {
    Seq::new(
        len,
        |j: int|
            if j < limbs.len() {
                limbs[j]
            } else {
                0u64
            },
    )
}

/// A number of `n` limbs is below the weight of limb `n`.
proof fn lemma_value_bound(limbs: Seq<u64>)
    ensures
        limbs_value(limbs) < weight(limbs.len()),
    decreases limbs.len(),
{
    if limbs.len() > 0 {
        lemma_value_bound(limbs.drop_last());
        let low = limbs_value(limbs.drop_last());
        let top = limbs.last() as nat;
        let unit = weight((limbs.len() - 1) as nat);
        assert(low + top * unit < base() * unit) by (nonlinear_arith)
            requires
                low < unit,
                top < base(),
        ;
    }
}

/// Zeros on top do not change the number.
proof fn lemma_padded_value(limbs: Seq<u64>, len: nat)
    requires
        len >= limbs.len(),
    ensures
        limbs_value(padded(limbs, len)) == limbs_value(limbs),
    decreases len,
{
    if len == limbs.len() {
        assert(padded(limbs, len) =~= limbs);
    } else {
        let shorter = padded(limbs, (len - 1) as nat);
        assert(padded(limbs, len).drop_last() =~= shorter);
        assert(padded(limbs, len).last() == 0);
        lemma_padded_value(limbs, (len - 1) as nat);
        assert(0 * weight((len - 1) as nat) == 0) by (nonlinear_arith);
    }
}

/// Of two numbers of equal length that agree above limb `place`, the one
/// with the smaller limb there is the smaller.
proof fn lemma_limb_decides(a: Seq<u64>, b: Seq<u64>, place: int)
    requires
        a.len() == b.len(),
        0 <= place < a.len(),
        forall|j: int| place < j < a.len() ==> a[j] == b[j],
        a[place] < b[place],
    ensures
        limbs_value(a) < limbs_value(b),
    decreases a.len(),
{
    let unit = weight((a.len() - 1) as nat);
    if place == a.len() - 1 {
        lemma_value_bound(a.drop_last());
        let low = limbs_value(a.drop_last());
        let top_a = a.last() as nat;
        let top_b = b.last() as nat;
        assert(a[place] == a.last() && b[place] == b.last());
        assert(low + top_a * unit < top_b * unit) by (nonlinear_arith)
            requires
                low < unit,
                top_a < top_b,
        ;
    } else {
        assert forall|j: int| place < j < a.drop_last().len() implies a.drop_last()[j]
            == b.drop_last()[j] by {
            assert(a.drop_last()[j] == a[j] && b.drop_last()[j] == b[j]);
        }
        lemma_limb_decides(a.drop_last(), b.drop_last(), place);
        assert(a[a.len() - 1] == b[a.len() - 1]);
        assert(a.last() == b.last());
    }
}

proof fn lemma_product_push(factors: Seq<u64>, next: u64)
    ensures
        product(factors.push(next)) == product(factors) * next as nat,
{
    assert(factors.push(next).drop_last() =~= factors);
}

/// A natural number held as limbs of 64 bits, least significant first.
pub struct Natural {
    limbs: Vec<u64>,
}

impl Natural {
    /// The number that is held.
    pub closed spec fn value(&self) -> nat {
        limbs_value(self.limbs@)
    }

    /// The number 1.
    pub fn one() -> (r: Natural)
        ensures
            r.value() == 1,
    {
        let mut limbs: Vec<u64> = Vec::new();
        limbs.push(1u64);
        proof {
            assert(limbs@.drop_last() =~= Seq::<u64>::empty());
            assert(limbs_value(limbs@.drop_last()) == 0);
            assert(limbs@.last() == 1);
            assert(weight(0) == 1);
        }
        Natural { limbs }
    }

    /// The number times `factor`.
    pub fn times(&self, factor: u64) -> (r: Natural)
        ensures
            r.value() == self.value() * factor as nat,
    {
        let mut out: Vec<u64> = Vec::new();
        let mut carry: u64 = 0;
        let mut index: usize = 0;
        proof {
            assert(self.limbs@.take(0) =~= Seq::<u64>::empty());
            assert(0 * weight(0) == 0) by (nonlinear_arith);
            assert(0 * (factor as nat) == 0) by (nonlinear_arith);
        }
        while index < self.limbs.len()
            invariant
                index <= self.limbs.len(),
                out@.len() == index,
                limbs_value(out@) + carry as nat * weight(index as nat) == limbs_value(
                    self.limbs@.take(index as int),
                ) * factor as nat,
            decreases self.limbs.len() - index,
        {
            let limb: u64 = self.limbs[index];
            assert(limb as u128 * factor as u128 + carry as u128 <= u128::MAX) by (nonlinear_arith)
                requires
                    limb <= u64::MAX,
                    factor <= u64::MAX,
                    carry <= u64::MAX,
            ;
            let total: u128 = (limb as u128) * (factor as u128) + (carry as u128);
            let low: u64 = (total % 0x1_0000_0000_0000_0000u128) as u64;
            let high: u64 = (total / 0x1_0000_0000_0000_0000u128) as u64;
            proof {
                let held = limbs_value(out@);
                let unit = weight(index as nat);
                let done = limbs_value(self.limbs@.take(index as int));
                let upto = self.limbs@.take(index as int + 1);
                assert(upto.drop_last() =~= self.limbs@.take(index as int));
                assert(upto.last() == limb);
                assert(out@.push(low).drop_last() =~= out@);
                assert(weight((index + 1) as nat) == base() * unit);
                assert(low as nat + high as nat * base() == limb as nat * factor as nat
                    + carry as nat);
                assert(held + low as nat * unit + high as nat * (base() * unit) == (done
                    + limb as nat * unit) * factor as nat) by (nonlinear_arith)
                    requires
                        held + carry as nat * unit == done * factor as nat,
                        low as nat + high as nat * base() == limb as nat * factor as nat
                            + carry as nat,
                ;
            }
            out.push(low);
            carry = high;
            index += 1;
        }
        proof {
            assert(self.limbs@.take(index as int) =~= self.limbs@);
            assert(out@.push(carry).drop_last() =~= out@);
        }
        out.push(carry);
        Natural { limbs: out }
    }

    /// The product of all the numbers in `first` and in `second`.
    pub fn product_of(first: &Vec<u64>, second: &Vec<u64>) -> (r: Natural)
        ensures
            r.value() == product(first@) * product(second@),
    {
        let mut result = Natural::one();
        let mut index: usize = 0;
        assert(first@.take(0) =~= Seq::<u64>::empty());
        while index < first.len()
            invariant
                index <= first.len(),
                result.value() == product(first@.take(index as int)),
            decreases first.len() - index,
        {
            proof {
                lemma_product_push(first@.take(index as int), first[index as int]);
                assert(first@.take(index as int).push(first[index as int]) =~= first@.take(
                    index as int + 1,
                ));
            }
            result = result.times(first[index]);
            index += 1;
        }
        assert(first@.take(index as int) =~= first@);
        let mut index: usize = 0;
        assert(second@.take(0) =~= Seq::<u64>::empty());
        assert(product(first@) * 1 == product(first@)) by (nonlinear_arith);
        while index < second.len()
            invariant
                index <= second.len(),
                result.value() == product(first@) * product(second@.take(index as int)),
            decreases second.len() - index,
        {
            proof {
                let upto = second@.take(index as int);
                let next = second[index as int];
                lemma_product_push(upto, next);
                assert(upto.push(next) =~= second@.take(index as int + 1));
                assert(product(first@) * product(upto) * next as nat == product(first@) * (product(
                    upto,
                ) * next as nat)) by (nonlinear_arith);
            }
            result = result.times(second[index]);
            index += 1;
        }
        assert(second@.take(index as int) =~= second@);
        result
    }

    /// Whether this number is greater than `other`.
    pub fn exceeds(&self, other: &Natural) -> (r: bool)
        ensures
            r == (self.value() > other.value()),
    {
        let longest: usize = if self.limbs.len() > other.limbs.len() {
            self.limbs.len()
        } else {
            other.limbs.len()
        };
        let ghost mine = padded(self.limbs@, longest as nat);
        let ghost theirs = padded(other.limbs@, longest as nat);
        proof {
            lemma_padded_value(self.limbs@, longest as nat);
            lemma_padded_value(other.limbs@, longest as nat);
        }
        let mut index: usize = longest;
        while index > 0
            invariant
                index <= longest,
                longest >= self.limbs.len(),
                longest >= other.limbs.len(),
                mine == padded(self.limbs@, longest as nat),
                theirs == padded(other.limbs@, longest as nat),
                limbs_value(mine) == self.value(),
                limbs_value(theirs) == other.value(),
                forall|j: int| index <= j < longest ==> mine[j] == theirs[j],
            decreases index,
        {
            index -= 1;
            let left: u64 = if index < self.limbs.len() {
                self.limbs[index]
            } else {
                0
            };
            let right: u64 = if index < other.limbs.len() {
                other.limbs[index]
            } else {
                0
            };
            assert(left == mine[index as int] && right == theirs[index as int]);
            if left > right {
                proof {
                    lemma_limb_decides(theirs, mine, index as int);
                }
                return true;
            }
            if left < right {
                proof {
                    lemma_limb_decides(mine, theirs, index as int);
                }
                return false;
            }
        }
        assert(mine =~= theirs);
        false
    }
}

} // verus!
