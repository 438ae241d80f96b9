//! Natural numbers of any size, for exact comparisons.

use vstd::arithmetic::power2::{lemma_pow2_adds, lemma_pow2_pos, pow2};
use vstd::prelude::*;

use crate::float::round::{lemma_powers, power_of_two};

verus! {

/// A limb, or zero beyond the highest one.
pub open spec fn limb(limbs: Seq<u32>, index: int) -> nat {
    if 0 <= index < limbs.len() {
        limbs[index] as nat
    } else {
        0
    }
}

/// The number that the lowest `count` limbs write in base 2^32.
pub open spec fn low_part(limbs: Seq<u32>, count: nat) -> nat
    decreases count,
{
    if count == 0 {
        0
    } else {
        low_part(limbs, (count - 1) as nat) + limb(limbs, count - 1) * pow2(
            (32 * (count - 1)) as nat,
        )
    }
}

/// A natural number in base 2^32, lowest limb first.
pub struct Natural {
    limbs: Vec<u32>,
}

impl View for Natural {
    type V = nat;

    closed spec fn view(&self) -> nat {
        low_part(self.limbs@, self.limbs@.len())
    }
}

/// The low limbs stay below the weight of the next one.
proof fn lemma_low_part_bound(limbs: Seq<u32>, count: nat)
    ensures
        low_part(limbs, count) < pow2(32 * count),
    decreases count,
{
    lemma_powers();
    if count > 0 {
        let less = (count - 1) as nat;
        lemma_low_part_bound(limbs, less);
        lemma_pow2_adds(32 * less, 32);
        lemma_pow2_pos(32 * less);
        vstd::arithmetic::power2::lemma2_to64();
        assert(limb(limbs, count - 1) <= 0xffff_ffff);
        assert(limb(limbs, count - 1) * pow2(32 * less) <= 0xffff_ffff * pow2(32 * less))
            by (nonlinear_arith)
            requires
                limb(limbs, count - 1) <= 0xffff_ffff,
        ;
        assert(32 * count == 32 * less + 32);
        assert(pow2(32 * less) * pow2(32) == pow2(32 * less) * 0x1_0000_0000);
    }
}

/// Limbs beyond the highest one add nothing.
proof fn lemma_low_part_beyond(limbs: Seq<u32>, count: nat)
    requires
        count >= limbs.len(),
    ensures
        low_part(limbs, count) == low_part(limbs, limbs.len()),
    decreases count,
{
    if count > limbs.len() {
        lemma_low_part_beyond(limbs, (count - 1) as nat);
        assert(0 * pow2((32 * (count - 1)) as nat) == 0);
    }
}

/// The low limbs depend on nothing else.
proof fn lemma_low_part_same(left: Seq<u32>, right: Seq<u32>, count: nat)
    requires
        forall|i: int| 0 <= i < count ==> limb(left, i) == limb(right, i),
    ensures
        low_part(left, count) == low_part(right, count),
    decreases count,
{
    if count > 0 {
        lemma_low_part_same(left, right, (count - 1) as nat);
    }
}

/// One more limb on top.
proof fn lemma_low_part_push(limbs: Seq<u32>, top: u32)
    ensures
        low_part(limbs.push(top), limbs.len() + 1) == low_part(limbs, limbs.len()) + top * pow2(
            32 * limbs.len(),
        ),
{
    lemma_low_part_same(limbs, limbs.push(top), limbs.len());
}

impl Natural {
    /// A small number.
    pub fn from_u64(value: u64) -> (result: Natural)
        ensures
            result@ == value,
    {
        let mut limbs: Vec<u32> = Vec::new();
        limbs.push((value % 0x1_0000_0000) as u32);
        limbs.push((value / 0x1_0000_0000) as u32);
        proof {
            vstd::arithmetic::power2::lemma2_to64();
            reveal_with_fuel(low_part, 3);
            assert(limb(limbs@, 1) * pow2(32) == limb(limbs@, 1) * 0x1_0000_0000);
            assert(limb(limbs@, 0) * pow2(0) == limb(limbs@, 0));
        }
        Natural { limbs }
    }

    /// The number times a small one, plus another.
    pub fn scaled(&self, factor: u64, addend: u64) -> (result: Natural)
        ensures
            result@ == self@ * factor + addend,
    {
        let mut limbs: Vec<u32> = Vec::new();
        let mut carry: u64 = addend;
        let mut index: usize = 0;
        let ghost source = self.limbs@;
        proof {
            vstd::arithmetic::power2::lemma2_to64();
            assert(carry * pow2(0) == carry);
            assert(0 * factor == 0);
        }
        while index < self.limbs.len()
            invariant
                index <= self.limbs.len(),
                source == self.limbs@,
                limbs@.len() == index,
                low_part(limbs@, index as nat) + carry * pow2((32 * index) as nat) == low_part(
                    source,
                    index as nat,
                ) * factor + addend,
            decreases self.limbs.len() - index,
        {
            let here: u32 = self.limbs[index];
            proof {
                assert(here * factor <= 0xffff_ffff * 0xffff_ffff_ffff_ffff) by (nonlinear_arith)
                    requires
                        here <= 0xffff_ffff,
                        factor <= 0xffff_ffff_ffff_ffff,
                ;
            }
            let step: u128 = here as u128 * factor as u128 + carry as u128;
            let low: u32 = (step % 0x1_0000_0000) as u32;
            let next: u64 = (step / 0x1_0000_0000) as u64;
            proof {
                vstd::arithmetic::power2::lemma2_to64();
                let weight = pow2((32 * index) as nat);
                lemma_pow2_adds((32 * index) as nat, 32);
                assert(32 * (index + 1) == 32 * index + 32);
                let above = pow2((32 * (index + 1)) as nat);
                assert(step == low + 0x1_0000_0000 * next);
                lemma_low_part_push(limbs@, low);
                assert(low_part(source, (index + 1) as nat) == low_part(source, index as nat)
                    + here * weight);
                let prefix = low_part(source, index as nat);
                let built = low_part(limbs@, index as nat);
                assert((built + low * weight) + next * above == (prefix + here * weight) * factor
                    + addend) by (nonlinear_arith)
                    requires
                        built + carry * weight == prefix * factor + addend,
                        low + 0x1_0000_0000 * next == here * factor + carry,
                        above == weight * 0x1_0000_0000,
                ;
            }
            limbs.push(low);
            carry = next;
            index = index + 1;
        }
        let first: u32 = (carry % 0x1_0000_0000) as u32;
        let second: u32 = (carry / 0x1_0000_0000) as u32;
        proof {
            vstd::arithmetic::power2::lemma2_to64();
            let length = index as nat;
            lemma_low_part_push(limbs@, first);
            lemma_low_part_push(limbs@.push(first), second);
            lemma_pow2_adds(32 * length, 32);
            assert(32 * (length + 1) == 32 * length + 32);
            let weight = pow2(32 * length);
            let above = pow2(32 * (length + 1));
            assert(carry == first + 0x1_0000_0000 * second);
            assert(first * weight + second * above == carry * weight) by (nonlinear_arith)
                requires
                    carry == first + 0x1_0000_0000 * second,
                    above == weight * 0x1_0000_0000,
            ;
        }
        limbs.push(first);
        limbs.push(second);
        Natural { limbs }
    }

    /// The number times a power of two.
    pub fn shifted(&self, places: u32) -> (result: Natural)
        ensures
            result@ == self@ * pow2(places as nat),
    {
        let whole: u32 = places / 32;
        let part: u32 = places % 32;
        let mut limbs: Vec<u32> = Vec::new();
        let mut count: u32 = 0;
        while count < whole
            invariant
                count <= whole,
                limbs@ == Seq::new(count as nat, |i: int| 0u32),
            decreases whole - count,
        {
            limbs.push(0);
            count = count + 1;
            proof {
                assert(limbs@ =~= Seq::new(count as nat, |i: int| 0u32));
            }
        }
        let ghost zeros = limbs@;
        let mut index: usize = 0;
        while index < self.limbs.len()
            invariant
                index <= self.limbs.len(),
                limbs@ == zeros + self.limbs@.take(index as int),
            decreases self.limbs.len() - index,
        {
            limbs.push(self.limbs[index]);
            index = index + 1;
            proof {
                assert(limbs@ =~= zeros + self.limbs@.take(index as int));
            }
        }
        proof {
            assert(self.limbs@.take(self.limbs@.len() as int) =~= self.limbs@);
            lemma_zeros_below(self.limbs@, whole as nat, self.limbs@.len());
            lemma_pow2_adds((32 * whole) as nat, part as nat);
            vstd::arithmetic::power2::lemma_pow2_strictly_increases(part as nat, 32);
            vstd::arithmetic::power2::lemma2_to64();
        }
        let factor: u64 = power_of_two(part) as u64;
        let moved: Natural = Natural { limbs };
        let result: Natural = moved.scaled(factor, 0);
        proof {
            assert(result@ == self@ * pow2(places as nat)) by (nonlinear_arith)
                requires
                    result@ == moved@ * factor,
                    moved@ == pow2((32 * whole) as nat) * self@,
                    factor == pow2(part as nat),
                    pow2(places as nat) == pow2((32 * whole) as nat) * pow2(part as nat),
            ;
        }
        result
    }

    fn limb_at(&self, index: usize) -> (result: u32)
        ensures
            result == limb(self.limbs@, index as int),
    {
        if index < self.limbs.len() {
            self.limbs[index]
        } else {
            0
        }
    }

    /// Whether the number is above another, and whether it equals it.
    pub fn against(&self, other: &Natural) -> (result: (bool, bool))
        ensures
            result.0 == (self@ > other@),
            result.1 == (self@ == other@),
    {
        let length: usize = if self.limbs.len() >= other.limbs.len() {
            self.limbs.len()
        } else {
            other.limbs.len()
        };
        let ghost left = self.limbs@;
        let ghost right = other.limbs@;
        proof {
            lemma_low_part_beyond(left, length as nat);
            lemma_low_part_beyond(right, length as nat);
        }
        let mut index: usize = length;
        while index > 0
            invariant
                index <= length,
                left == self.limbs@,
                right == other.limbs@,
                self@ == low_part(left, length as nat),
                other@ == low_part(right, length as nat),
                low_part(left, length as nat) - low_part(left, index as nat) == low_part(
                    right,
                    length as nat,
                ) - low_part(right, index as nat),
            decreases index,
        {
            let first: u32 = self.limb_at(index - 1);
            let second: u32 = other.limb_at(index - 1);
            proof {
                let less = (index - 1) as nat;
                lemma_low_part_bound(left, less);
                lemma_low_part_bound(right, less);
                let weight = pow2(32 * less);
                if first > second {
                    assert(first * weight >= second * weight + weight) by (nonlinear_arith)
                        requires
                            first >= second + 1,
                    ;
                } else if first < second {
                    assert(second * weight >= first * weight + weight) by (nonlinear_arith)
                        requires
                            second >= first + 1,
                    ;
                }
            }
            if first > second {
                return (true, false);
            }
            if first < second {
                return (false, false);
            }
            index = index - 1;
        }
        (false, true)
    }
}

/// Zero limbs below move a number up.
proof fn lemma_zeros_below(limbs: Seq<u32>, zeros: nat, count: nat)
    requires
        count <= limbs.len(),
    ensures
        low_part(Seq::new(zeros, |i: int| 0u32) + limbs, zeros + count) == pow2(32 * zeros)
            * low_part(limbs, count),
    decreases count,
{
    let all = Seq::new(zeros, |i: int| 0u32) + limbs;
    if count == 0 {
        lemma_zeros_are_zero(all, zeros);
        assert(pow2(32 * zeros) * 0 == 0);
    } else {
        let less = (count - 1) as nat;
        lemma_zeros_below(limbs, zeros, less);
        lemma_pow2_adds(32 * zeros, 32 * less);
        assert(32 * (zeros + less) == 32 * zeros + 32 * less);
        assert(limb(all, (zeros + less) as int) == limb(limbs, less as int));
        let weight = pow2(32 * less);
        let up = pow2(32 * zeros);
        let top = limb(limbs, less as int);
        assert(up * low_part(limbs, less) + top * (up * weight) == up * (low_part(limbs, less)
            + top * weight)) by (nonlinear_arith);
        assert((zeros + count - 1) as nat == zeros + less);
    }
}

proof fn lemma_zeros_are_zero(limbs: Seq<u32>, count: nat)
    requires
        forall|i: int| 0 <= i < count ==> limb(limbs, i) == 0,
    ensures
        low_part(limbs, count) == 0,
    decreases count,
{
    if count > 0 {
        lemma_zeros_are_zero(limbs, (count - 1) as nat);
        assert(0 * pow2((32 * (count - 1)) as nat) == 0);
    }
}

} // verus!
