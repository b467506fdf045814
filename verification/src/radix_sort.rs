//! Radix sort of unsigned numbers by their decimal digits, lowest digit first.

use crate::order::{ascending, Ordered};
use crate::sequences::{lemma_empty_prefix, lemma_permutation_contains, lemma_push_multiset, permutation};
use vstd::prelude::*;

verus! {

/// The decimal digit of `value` at the place worth `unit`.
pub open spec fn digit(value: u64, unit: int) -> int {
    (value as int / unit) % 10
}

/// The items are in ascending order of their remainders by `unit`: of what
/// their digits below the place worth `unit` say.
pub open spec fn sorted_below(s: Seq<u64>, unit: int) -> bool {
    forall|i: int, j: int| 0 <= i <= j < s.len() ==> (s[i] as int) % unit <= (s[j] as int) % unit
}

/// The bucket of digit `d`: the items of `s` whose digit at `unit` is `d`, in
/// the order in which they stand in `s`.
pub open spec fn bucket(s: Seq<u64>, unit: int, d: int) -> Seq<u64>
    decreases s.len(),
{
    if s.len() == 0 {
        Seq::empty()
    } else {
        let rest = bucket(s.drop_last(), unit, d);
        if digit(s.last(), unit) == d {
            rest.push(s.last())
        } else {
            rest
        }
    }
}

/// The buckets of the digits below `d`, one behind the other, digit 0 first.
pub open spec fn buckets_below(s: Seq<u64>, unit: int, d: int) -> Seq<u64>
    decreases d,
{
    if d <= 0 {
        Seq::empty()
    } else {
        buckets_below(s, unit, d - 1) + bucket(s, unit, d - 1)
    }
}

/// The digits of a number below the place worth `10 * unit` are its digit at
/// `unit` and its digits below `unit`.
pub proof fn lemma_digit_split(value: int, unit: int)
    requires
        value >= 0,
        unit > 0,
    ensures
        value % (10 * unit) == ((value / unit) % 10) * unit + value % unit,
        0 <= (value / unit) % 10 <= 9,
        0 <= value % unit < unit,
{
    let q = value / unit;
    let r = value % unit;
    vstd::arithmetic::div_mod::lemma_fundamental_div_mod(value, unit);
    vstd::arithmetic::div_mod::lemma_mod_bound(value, unit);
    vstd::arithmetic::div_mod::lemma_div_pos_is_pos(value, unit);
    let high = q / 10;
    let low = q % 10;
    assert(q == 10 * high + low);
    assert(value == high * (10 * unit) + (low * unit + r)) by (nonlinear_arith)
        requires
            value == unit * q + r,
            q == 10 * high + low,
    ;
    assert(0 <= low * unit + r < 10 * unit) by (nonlinear_arith)
        requires
            0 <= low <= 9,
            0 <= r < unit,
    ;
    vstd::arithmetic::div_mod::lemma_fundamental_div_mod_converse(
        value,
        10 * unit,
        high,
        low * unit + r,
    );
}

/// A number with the smaller digit at `unit` has the smaller remainder by
/// `10 * unit`; with equal digits the remainders by `unit` decide.
pub proof fn lemma_digit_orders(a: u64, b: u64, unit: int)
    requires
        unit > 0,
        digit(a, unit) < digit(b, unit) || (digit(a, unit) == digit(b, unit) && (a as int) % unit
            <= (b as int) % unit),
    ensures
        (a as int) % (10 * unit) <= (b as int) % (10 * unit),
{
    lemma_digit_split(a as int, unit);
    lemma_digit_split(b as int, unit);
    let da = digit(a, unit);
    let db = digit(b, unit);
    if da < db {
        assert(da * unit + unit <= db * unit) by (nonlinear_arith)
            requires
                da < db,
                unit > 0,
        ;
    }
}

/// One pass: the items are distributed into ten buckets by their digit at
/// `unit`, and the buckets are laid one behind the other, digit 0 first. If
/// the items came in ascending order of their digits below `unit`, they
/// leave in ascending order of their digits below `10 * unit`.
pub fn distribute(array: &Vec<u64>, unit: u64) -> (out: Vec<u64>)
    requires
        unit >= 1,
        sorted_below(array@, unit as int),
    ensures
        out@ == buckets_below(array@, unit as int, 10),
        permutation(out@, array@),
        out@.len() == array@.len(),
        sorted_below(out@, 10 * unit),
{
    broadcast use vstd::multiset::group_multiset_axioms;

    let n = array.len();
    let ghost all = array@.to_multiset();
    let mut out: Vec<u64> = Vec::new();
    let ghost mut from: Seq<int> = Seq::empty();
    let mut d: u64 = 0;
    proof {
        lemma_empty_prefix(out@);
        assert(out@ =~= out@.subrange(0, 0));
        assert(out@.to_multiset() =~= all.filter(|v: u64| digit(v, unit as int) < 0));
    }
    while d < 10
        invariant
            d <= 10,
            unit >= 1,
            n == array@.len(),
            all == array@.to_multiset(),
            out@.len() == from.len(),
            forall|a: int| 0 <= a < out@.len() ==> 0 <= #[trigger] from[a] < n && out@[a] == array@[from[a]],
            forall|a: int| 0 <= a < out@.len() ==> digit(#[trigger] out@[a], unit as int) < d,
            forall|a: int, b: int|
                0 <= a < b < out@.len() ==> digit(#[trigger] out@[a], unit as int) < digit(
                    #[trigger] out@[b],
                    unit as int,
                ) || (digit(out@[a], unit as int) == digit(out@[b], unit as int) && from[a]
                    < from[b]),
            out@.to_multiset() == all.filter(|v: u64| digit(v, unit as int) < d),
            out@ == buckets_below(array@, unit as int, d as int),
        decreases 10 - d,
    {
        let ghost before = out@.to_multiset();
        let ghost laid = out@;
        let mut i: usize = 0;
        proof {
            lemma_empty_prefix(array@);
            assert(out@ =~= laid + bucket(array@.subrange(0, 0), unit as int, d as int));
            assert(out@.to_multiset() =~= before.add(
                array@.subrange(0, 0).to_multiset().filter(|v: u64| digit(v, unit as int) == d),
            ));
        }
        while i < n
            invariant
                i <= n,
                d < 10,
                unit >= 1,
                n == array@.len(),
                out@.len() == from.len(),
                forall|a: int|
                    0 <= a < out@.len() ==> 0 <= #[trigger] from[a] < n && out@[a] == array@[from[a]],
                forall|a: int|
                    0 <= a < out@.len() ==> digit(#[trigger] out@[a], unit as int) < d || (digit(
                        out@[a],
                        unit as int,
                    ) == d && from[a] < i),
                forall|a: int, b: int|
                    0 <= a < b < out@.len() ==> digit(#[trigger] out@[a], unit as int) < digit(
                        #[trigger] out@[b],
                        unit as int,
                    ) || (digit(out@[a], unit as int) == digit(out@[b], unit as int) && from[a]
                        < from[b]),
                out@.to_multiset() == before.add(
                    array@.subrange(0, i as int).to_multiset().filter(
                        |v: u64| digit(v, unit as int) == d,
                    ),
                ),
                laid == buckets_below(array@, unit as int, d as int),
                out@ == laid + bucket(array@.subrange(0, i as int), unit as int, d as int),
            decreases n - i,
        {
            let item = array[i];
            let ghost filled = bucket(array@.subrange(0, i as int), unit as int, d as int);
            proof {
                lemma_push_multiset(array@.subrange(0, i as int), item);
                assert(array@.subrange(0, i + 1) =~= array@.subrange(0, i as int).push(item));
                assert(array@.subrange(0, i + 1).drop_last() =~= array@.subrange(0, i as int));
                assert(laid + filled.push(item) =~= (laid + filled).push(item));
            }
            if (item / unit) % 10 == d {
                proof {
                    lemma_push_multiset(out@, item);
                    from = from.push(i as int);
                }
                out.push(item);
                proof {
                    assert(out@.to_multiset() =~= before.add(
                        array@.subrange(0, i + 1).to_multiset().filter(
                            |v: u64| digit(v, unit as int) == d,
                        ),
                    ));
                }
            } else {
                proof {
                    assert(out@.to_multiset() =~= before.add(
                        array@.subrange(0, i + 1).to_multiset().filter(
                            |v: u64| digit(v, unit as int) == d,
                        ),
                    ));
                }
            }
            i = i + 1;
        }
        proof {
            assert(array@.subrange(0, n as int) =~= array@);
            assert(out@.to_multiset() =~= all.filter(|v: u64| digit(v, unit as int) < d + 1));
            assert(out@ == buckets_below(array@, unit as int, d + 1));
        }
        d = d + 1;
    }
    proof {
        assert(out@.to_multiset() =~= all) by {
            assert forall|v: u64| digit(v, unit as int) < 10 by {
                lemma_digit_split(v as int, unit as int);
            }
        }
        out@.to_multiset_ensures();
        array@.to_multiset_ensures();
        assert forall|a: int, b: int| 0 <= a <= b < out@.len() implies (out@[a] as int) % (10
            * unit) <= (out@[b] as int) % (10 * unit) by {
            if a < b {
                if digit(out@[a], unit as int) == digit(out@[b], unit as int) {
                    assert(from[a] < from[b]);
                    assert((array@[from[a]] as int) % (unit as int) <= (array@[from[b]] as int) % (
                    unit as int));
                }
                lemma_digit_orders(out@[a], out@[b], unit as int);
            }
        }
    }
    out
}

/// Sorts the numbers ascending: pass by pass, from the lowest decimal digit
/// up, the numbers are distributed by that digit and laid out again, digit 0
/// first. The passes end when the next digit is beyond the greatest number.
pub fn radix_sort(array: &mut Vec<u64>)
    ensures
        ascending(final(array)@),
        permutation(final(array)@, old(array)@),
        final(array)@.len() == old(array)@.len(),
{
    let n = array.len();
    let mut greatest: u64 = 0;
    let mut k: usize = 0;
    while k < n
        invariant
            k <= n,
            n == array@.len(),
            forall|i: int| 0 <= i < k ==> array@[i] <= greatest,
        decreases n - k,
    {
        if array[k] > greatest {
            greatest = array[k];
        }
        k = k + 1;
    }
    let mut unit: u64 = 1;
    assert(sorted_below(array@, 1));
    while greatest >= unit
        invariant
            unit >= 1,
            array@.len() == old(array)@.len(),
            permutation(array@, old(array)@),
            sorted_below(array@, unit as int),
            forall|i: int| 0 <= i < array@.len() ==> array@[i] <= greatest,
        decreases u64::MAX - unit,
    {
        let ghost before = array@;
        let out = distribute(array, unit);
        *array = out;
        proof {
            assert forall|i: int| 0 <= i < array@.len() implies array@[i] <= greatest by {
                let j = lemma_permutation_contains(array@, before, i);
            }
        }
        if unit > u64::MAX / 10 {
            proof {
                assert forall|i: int, j: int| 0 <= i <= j < array@.len() implies array@[i].rank()
                    <= array@[j].rank() by {
                    assert((array@[i] as int) % (10 * unit) <= (array@[j] as int) % (10 * unit));
                    vstd::arithmetic::div_mod::lemma_small_mod(array@[i] as nat, (10 * unit) as nat);
                    vstd::arithmetic::div_mod::lemma_small_mod(array@[j] as nat, (10 * unit) as nat);
                }
            }
            return ;
        }
        unit = unit * 10;
    }
    proof {
        assert forall|i: int, j: int| 0 <= i <= j < array@.len() implies array@[i].rank()
            <= array@[j].rank() by {
            assert((array@[i] as int) % (unit as int) <= (array@[j] as int) % (unit as int));
            vstd::arithmetic::div_mod::lemma_small_mod(array@[i] as nat, unit as nat);
            vstd::arithmetic::div_mod::lemma_small_mod(array@[j] as nat, unit as nat);
        }
    }
}

} // verus!
