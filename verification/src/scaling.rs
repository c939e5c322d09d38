//! Rescaling a histogram so that its frequencies sum to a power of two.
use crate::frequencies::{sum_of, SymbolFrequencies};
use crate::uniform::total_frequency;
use vstd::arithmetic::div_mod::{lemma_fundamental_div_mod, lemma_mod_bound};
use vstd::arithmetic::power2::pow2;
use vstd::prelude::*;

verus! {

/// Symbol `a` comes before symbol `b` when symbols are ranked by
/// frequency, lowest first, and by value among equals.
pub open spec fn lighter(freqs: Seq<u32>, a: int, b: int) -> bool {
    freqs[a] < freqs[b] || (freqs[a] == freqs[b] && a < b)
}

/// `order` lists all 256 symbols, lightest first.
pub open spec fn is_ranking(freqs: Seq<u32>, order: Seq<usize>) -> bool {
    &&& order.len() == 256
    &&& forall|i: int| 0 <= i < 256 ==> #[trigger] order[i] < 256
    &&& forall|i: int, j: int|
        0 <= i < j < 256 ==> lighter(freqs, #[trigger] order[i] as int, #[trigger] order[j] as int)
    &&& forall|t: int| 0 <= t < 256 ==> #[trigger] listed(order, t)
}

/// Symbol `t` occurs in `order`.
pub open spec fn listed(order: Seq<usize>, t: int) -> bool {
    exists|i: int| 0 <= i < 256 && #[trigger] order[i] == t
}

/// The sum of the entries of `values` at the first `upto` symbols of
/// `order`.
pub open spec fn picked(values: Seq<u32>, order: Seq<usize>, upto: int) -> int
    decreases upto,
{
    if upto <= 0 {
        0
    } else {
        picked(values, order, upto - 1) + values[order[upto - 1] as int]
    }
}

/// One for every symbol that occurs, zero for the others.
pub open spec fn occurring(freqs: Seq<u32>) -> Seq<u32> {
    Seq::new(
        freqs.len(),
        |t: int|
            if freqs[t] > 0 {
                1u32
            } else {
                0u32
            },
    )
}

/// The number of symbols with a frequency above zero.
pub open spec fn nonzero_count(freqs: Seq<u32>) -> int {
    sum_of(occurring(freqs))
}

/// The part of `target` that a symbol of frequency `f` receives when
/// `mass` is the sum of the frequencies still to be served: its
/// proportional share rounded down, but at least one if it occurs at all.
pub open spec fn share(f: int, mass: int, target: int) -> int {
    if f > 0 && (target * f) / mass < 1 {
        1
    } else {
        (target * f) / mass
    }
}

/// `scaled` is what serving the symbols of `order` in turn gives: each
/// receives its share of what is left of `2^bits`, measured against what
/// is left of the sum of `freqs`.
pub open spec fn served_in_order(
    freqs: Seq<u32>,
    bits: nat,
    order: Seq<usize>,
    scaled: Seq<u32>,
) -> bool {
    forall|j: int|
        0 <= j < 256 ==> scaled[#[trigger] order[j] as int] == share(
            freqs[order[j] as int] as int,
            sum_of(freqs) - picked(freqs, order, j),
            pow2(bits) - picked(scaled, order, j),
        )
}

/// The sum of a histogram of zeros is zero.
pub proof fn lemma_sum_of_zeros(values: Seq<u32>)
    requires
        forall|t: int| 0 <= t < values.len() ==> values[t] == 0,
    ensures
        sum_of(values) == 0,
    decreases values.len(),
{
    if values.len() > 0 {
        lemma_sum_of_zeros(values.drop_last());
    }
}

/// Changing one entry changes the sum by the difference.
pub proof fn lemma_sum_update(values: Seq<u32>, at: int, v: u32)
    requires
        0 <= at < values.len(),
    ensures
        sum_of(values.update(at, v)) == sum_of(values) - values[at] + v,
    decreases values.len(),
{
    let changed = values.update(at, v);
    if at == values.len() - 1 {
        assert(changed.drop_last() =~= values.drop_last());
    } else {
        assert(changed.drop_last() =~= values.drop_last().update(at, v));
        lemma_sum_update(values.drop_last(), at, v);
    }
}

/// A pick is not affected by a change at a symbol that was not picked.
pub proof fn lemma_picked_update(values: Seq<u32>, order: Seq<usize>, upto: int, at: int, v: u32)
    requires
        0 <= upto <= order.len(),
        0 <= at < values.len(),
        forall|i: int| 0 <= i < upto ==> order[i] != at && order[i] < values.len(),
    ensures
        picked(values.update(at, v), order, upto) == picked(values, order, upto),
    decreases upto,
{
    if upto > 0 {
        lemma_picked_update(values, order, upto - 1, at, v);
        assert(order[upto - 1] != at && order[upto - 1] < values.len());
    }
}

/// The symbols of a ranking are all different.
pub proof fn lemma_ranking_distinct(freqs: Seq<u32>, order: Seq<usize>)
    requires
        is_ranking(freqs, order),
    ensures
        forall|i: int, j: int|
            0 <= i < 256 && 0 <= j < 256 && i != j ==> #[trigger] order[i] != #[trigger] order[j],
{
    assert forall|i: int, j: int| 0 <= i < 256 && 0 <= j < 256 && i != j implies #[trigger] order[i]
        != #[trigger] order[j] by {
        if i < j {
            assert(lighter(freqs, order[i] as int, order[j] as int));
        } else {
            assert(lighter(freqs, order[j] as int, order[i] as int));
        }
    }
}

/// `values` with the first `upto` symbols of `order` set to zero.
spec fn unpicked(values: Seq<u32>, order: Seq<usize>, upto: int) -> Seq<u32>
    decreases upto,
{
    if upto <= 0 {
        values
    } else {
        unpicked(values, order, upto - 1).update(order[upto - 1] as int, 0)
    }
}

proof fn lemma_unpicked(freqs: Seq<u32>, values: Seq<u32>, order: Seq<usize>, upto: int)
    requires
        is_ranking(freqs, order),
        values.len() == 256,
        0 <= upto <= 256,
    ensures
        unpicked(values, order, upto).len() == 256,
        forall|i: int|
            0 <= i < 256 ==> unpicked(values, order, upto)[#[trigger] order[i] as int] == if i
                < upto {
                0u32
            } else {
                values[order[i] as int]
            },
        sum_of(unpicked(values, order, upto)) + picked(values, order, upto) == sum_of(values),
    decreases upto,
{
    if upto > 0 {
        lemma_unpicked(freqs, values, order, upto - 1);
        lemma_ranking_distinct(freqs, order);
        let before = unpicked(values, order, upto - 1);
        let at = order[upto - 1] as int;
        lemma_sum_update(before, at, 0);
        assert(before[at] == values[at]);
    }
}

/// Summing along a ranking gives the sum of all entries.
pub proof fn lemma_picked_all(freqs: Seq<u32>, values: Seq<u32>, order: Seq<usize>)
    requires
        is_ranking(freqs, order),
        values.len() == 256,
    ensures
        picked(values, order, 256) == sum_of(values),
{
    lemma_unpicked(freqs, values, order, 256);
    let rest = unpicked(values, order, 256);
    assert forall|t: int| 0 <= t < rest.len() implies rest[t] == 0 by {
        assert(listed(order, t));
        let i = choose|i: int| 0 <= i < 256 && #[trigger] order[i] == t;
        assert(rest[order[i] as int] == 0);
    }
    lemma_sum_of_zeros(rest);
}

/// What is left of the sum from position `from` on lies between the
/// entry at `from`, counted once for every position left, and the same
/// count of the last entry; it is at least the last entry.
pub proof fn lemma_rest_of_mass(freqs: Seq<u32>, order: Seq<usize>, from: int)
    requires
        is_ranking(freqs, order),
        freqs.len() == 256,
        0 <= from < 256,
    ensures
        (256 - from) * freqs[order[from] as int] <= picked(freqs, order, 256) - picked(
            freqs,
            order,
            from,
        ) <= (256 - from) * freqs[order[255] as int],
        freqs[order[255] as int] <= picked(freqs, order, 256) - picked(freqs, order, from),
        freqs[order[from] as int] > 0 ==> picked(occurring(freqs), order, 256) - picked(
            occurring(freqs),
            order,
            from,
        ) == 256 - from,
    decreases 256 - from,
{
    let here = freqs[order[from] as int] as int;
    let last = freqs[order[255] as int] as int;
    assert(picked(freqs, order, from + 1) == picked(freqs, order, from) + here);
    assert(picked(occurring(freqs), order, from + 1) == picked(occurring(freqs), order, from)
        + occurring(freqs)[order[from] as int]);
    if from < 255 {
        lemma_rest_of_mass(freqs, order, from + 1);
        let next = freqs[order[from + 1] as int] as int;
        assert(lighter(freqs, order[from] as int, order[from + 1] as int));
        assert(lighter(freqs, order[from] as int, order[255] as int));
        let left = 255 - from;
        assert((left + 1) * here <= left * next + here) by (nonlinear_arith)
            requires
                here <= next,
                left >= 0,
        ;
        assert(left * last + here <= (left + 1) * last) by (nonlinear_arith)
            requires
                here <= last,
                left >= 0,
        ;
    }
}


/// All symbols, ranked by frequency: lowest first, and by value among
/// equals.
pub fn rank_symbols(frequencies: &[u32; 256]) -> (order: Vec<usize>)
    ensures
        is_ranking(frequencies@, order@),
{
    let ghost freqs = frequencies@;
    let mut order: Vec<usize> = Vec::new();
    let mut k: usize = 0;
    while k < 256
        invariant
            k <= 256,
            order@.len() == k,
            forall|p: int| 0 <= p < k ==> order@[p] == p,
        decreases 256 - k,
    {
        order.push(k);
        k = k + 1;
    }
    assert forall|t: int| 0 <= t < 256 implies #[trigger] listed(order@, t) by {
        assert(order@[t] == t);
    }
    let mut i: usize = 1;
    while i < 256
        invariant
            1 <= i <= 256,
            freqs == frequencies@,
            order@.len() == 256,
            forall|p: int| i <= p < 256 ==> order@[p] == p,
            forall|p: int| 0 <= p < i ==> #[trigger] order@[p] < i,
            forall|p: int, q: int|
                0 <= p < q < i ==> lighter(
                    freqs,
                    #[trigger] order@[p] as int,
                    #[trigger] order@[q] as int,
                ),
            forall|t: int| 0 <= t < 256 ==> #[trigger] listed(order@, t),
        decreases 256 - i,
    {
        let mut j: usize = i;
        while j > 0 && frequencies[order[j - 1]] > frequencies[order[j]]
            invariant
                0 <= j <= i < 256,
                freqs == frequencies@,
                order@.len() == 256,
                order@[j as int] == i,
                forall|p: int| i < p < 256 ==> order@[p] == p,
                forall|p: int| 0 <= p <= i && p != j ==> #[trigger] order@[p] < i,
                forall|p: int, q: int|
                    0 <= p < q <= i && p != j && q != j ==> lighter(
                        freqs,
                        #[trigger] order@[p] as int,
                        #[trigger] order@[q] as int,
                    ),
                forall|q: int| j < q <= i ==> freqs[i as int] < freqs[#[trigger] order@[q] as int],
                forall|t: int| 0 <= t < 256 ==> #[trigger] listed(order@, t),
            decreases j,
        {
            let ghost before = order@;
            let left: usize = order[j - 1];
            let right: usize = order[j];
            order.set(j - 1, right);
            order.set(j, left);
            proof {
                assert forall|t: int| 0 <= t < 256 implies #[trigger] listed(order@, t) by {
                    assert(listed(before, t));
                    let w = choose|w: int| 0 <= w < 256 && #[trigger] before[w] == t;
                    if w == j {
                        assert(order@[j - 1] == t);
                    } else if w == j - 1 {
                        assert(order@[j as int] == t);
                    } else {
                        assert(order@[w] == t);
                    }
                }
                assert forall|p: int, q: int| 0 <= p < q <= i && p != j - 1 && q != j - 1 implies lighter(
                    freqs,
                    #[trigger] order@[p] as int,
                    #[trigger] order@[q] as int,
                ) by {
                    let pb = if p == j {
                        j - 1
                    } else {
                        p
                    };
                    let qb = if q == j {
                        j - 1
                    } else {
                        q
                    };
                    assert(order@[p] == before[pb]);
                    assert(order@[q] == before[qb]);
                    assert(lighter(freqs, before[pb] as int, before[qb] as int));
                }
                assert forall|q: int| j - 1 < q <= i implies freqs[i as int] < freqs[#[trigger] order@[q] as int] by {
                    if q > j {
                        assert(order@[q] == before[q]);
                    }
                }
            }
            j = j - 1;
        }
        proof {
            assert forall|p: int, q: int| 0 <= p < q < i + 1 implies lighter(
                freqs,
                #[trigger] order@[p] as int,
                #[trigger] order@[q] as int,
            ) by {
                if p == j {
                    assert(freqs[i as int] < freqs[order@[q] as int]);
                } else if q == j {
                    assert(order@[p] < i);
                    if p < j - 1 {
                        assert(lighter(freqs, order@[p] as int, order@[j - 1] as int));
                    }
                    assert(order@[j - 1] < i);
                }
            }
        }
        i = i + 1;
    }
    order
}

/// `2^bits` as a 32-bit value.
fn power_of_two_u32(bits: u8) -> (r: u32)
    requires
        bits < 32,
    ensures
        r == pow2(bits as nat),
{
    proof {
        vstd::bits::lemma_u32_pow2_no_overflow(bits as nat);
        vstd::bits::lemma_u32_shl_is_mul(1, bits as u32);
    }
    1u32 << (bits as u32)
}

/// A proportional share never exceeds what is left of the target, and
/// leaves one for each symbol that is still to be served.
proof fn lemma_share_leaves_room(f: int, mass: int, target: int, left: int)
    requires
        1 <= f,
        left * f <= mass,
        1 <= left <= target,
    ensures
        1 <= share(f, mass, target) <= target - (left - 1),
        left == 1 && mass == f ==> share(f, mass, target) == target,
{
    let product = target * f;
    assert(0 <= product) by (nonlinear_arith)
        requires
            product == target * f,
            target >= 1,
            f >= 1,
    ;
    assert(mass >= 1) by (nonlinear_arith)
        requires
            left * f <= mass,
            left >= 1,
            f >= 1,
    ;
    lemma_fundamental_div_mod(product, mass);
    lemma_mod_bound(product, mass);
    let part = product / mass;
    let r = product % mass;
    assert(0 <= part) by (nonlinear_arith)
        requires
            product == mass * part + r,
            0 <= r < mass,
            0 <= product,
    ;
    if part >= target - left + 2 {
        let room = target - left + 2;
        assert(mass * part >= (left * f) * room) by (nonlinear_arith)
            requires
                part >= room,
                room >= 2,
                mass >= left * f,
                left >= 1,
                f >= 1,
        ;
        assert(target >= left * room) by (nonlinear_arith)
            requires
                target * f >= (left * f) * room,
                f >= 1,
        ;
        assert(left * room > target) by (nonlinear_arith)
            requires
                room == target - left + 2,
                1 <= left <= target,
        ;
        assert(false);
    }
    if left == 1 && mass == f {
        assert(part == target) by (nonlinear_arith)
            requires
                target * f == f * part + r,
                0 <= r < f,
        ;
    }
}

/// Rescales `raw` so that the frequencies sum to `2^num_bits`.
///
/// The symbols are served lightest first.  Each receives its proportional
/// share of the target that is still left, rounded down, and at least one
/// if it occurs at all.
pub fn scale_frequencies(num_bits: u8, raw: &SymbolFrequencies) -> (r: SymbolFrequencies)
    requires
        num_bits < 32,
        0 < raw.total() <= u32::MAX,
        nonzero_count(raw@) <= pow2(num_bits as nat),
    ensures
        r.total() == pow2(num_bits as nat),
        forall|s: int| 0 <= s < 256 && raw@[s] > 0 ==> r@[s] >= 1,
        forall|s: int| 0 <= s < 256 && raw@[s] == 0 ==> r@[s] == 0,
        exists|order: Seq<usize>|
            is_ranking(raw@, order) && #[trigger] served_in_order(
                raw@,
                num_bits as nat,
                order,
                r@,
            ),
{
    let ghost freqs = raw@;
    let ghost occ = occurring(freqs);
    let ghost bits = num_bits as nat;
    let ghost mass = sum_of(freqs);
    let order = rank_symbols(&raw.frequencies);
    let mut old_sum: u32 = total_frequency(&raw.frequencies);
    let mut target_sum: u32 = power_of_two_u32(num_bits);
    let mut new_frequencies: [u32; 256] = [0;256];
    proof {
        lemma_picked_all(freqs, freqs, order@);
        lemma_picked_all(freqs, occ, order@);
    }
    let mut j: usize = 0;
    while j < 256
        invariant
            j <= 256,
            freqs == raw@,
            occ == occurring(freqs),
            bits == num_bits,
            mass == sum_of(freqs),
            0 < mass <= u32::MAX,
            is_ranking(freqs, order@),
            picked(freqs, order@, 256) == mass,
            old_sum == mass - picked(freqs, order@, j as int),
            target_sum == pow2(bits) - picked(new_frequencies@, order@, j as int),
            target_sum >= picked(occ, order@, 256) - picked(occ, order@, j as int),
            j == 256 ==> target_sum == 0,
            forall|i: int|
                0 <= i < j ==> new_frequencies@[#[trigger] order@[i] as int] == share(
                    freqs[order@[i] as int] as int,
                    mass - picked(freqs, order@, i),
                    pow2(bits) - picked(new_frequencies@, order@, i),
                ),
        decreases 256 - j,
    {
        let symbol: usize = order[j];
        let freq: u32 = raw.frequencies[symbol];
        let ghost before = new_frequencies@;
        proof {
            lemma_rest_of_mass(freqs, order@, j as int);
            lemma_rest_of_mass(freqs, order@, 0);
            assert(picked(freqs, order@, 0) == 0);
            assert(freqs[order@[255] as int] > 0) by (nonlinear_arith)
                requires
                    0 < mass <= 256 * freqs[order@[255] as int],
            ;
            assert(freq <= old_sum) by (nonlinear_arith)
                requires
                    (256 - j) * freq <= old_sum,
                    j < 256,
                    freq >= 0,
            ;
            assert(target_sum * freq <= u64::MAX) by (nonlinear_arith)
                requires
                    target_sum <= u32::MAX,
                    freq <= u32::MAX,
            ;
            let product = target_sum as int * freq as int;
            assert(0 <= product <= target_sum * old_sum) by (nonlinear_arith)
                requires
                    product == target_sum * freq,
                    0 <= freq <= old_sum,
                    0 <= target_sum,
            ;
            lemma_fundamental_div_mod(product, old_sum as int);
            lemma_mod_bound(product, old_sum as int);
            assert(0 <= product / (old_sum as int) <= target_sum) by (nonlinear_arith)
                requires
                    product == old_sum * (product / (old_sum as int)) + product % (old_sum as int),
                    0 <= product % (old_sum as int) < old_sum,
                    0 <= product <= target_sum * old_sum,
                    old_sum > 0,
            ;
            assert(picked(occ, order@, j + 1) == picked(occ, order@, j as int) + occ[symbol as int]);
            assert(picked(freqs, order@, j + 1) == picked(freqs, order@, j as int) + freq);
            if freq > 0 {
                lemma_share_leaves_room(
                    freq as int,
                    old_sum as int,
                    target_sum as int,
                    256 - j,
                );
            } else {
                assert(product == 0) by (nonlinear_arith)
                    requires
                        product == target_sum * freq,
                        freq == 0,
                ;
            }
        }
        let mut new_freq: u32 = ((target_sum as u64 * freq as u64) / (old_sum as u64)) as u32;
        if new_freq < 1 && freq > 0 {
            new_freq = 1;
        }
        assert(new_freq == share(freq as int, old_sum as int, target_sum as int));
        new_frequencies[symbol] = new_freq;
        proof {
            lemma_ranking_distinct(freqs, order@);
            assert forall|i: int| 0 <= i <= j implies picked(new_frequencies@, order@, i) == picked(
                before,
                order@,
                i,
            ) by {
                assert forall|p: int| 0 <= p < i implies order@[p] != symbol && order@[p]
                    < before.len() by {
                    assert(order@[p] != order@[j as int]);
                }
                lemma_picked_update(before, order@, i, symbol as int, new_freq);
            }
            assert forall|i: int| 0 <= i < j + 1 implies new_frequencies@[#[trigger] order@[i] as int]
                == share(
                freqs[order@[i] as int] as int,
                mass - picked(freqs, order@, i),
                pow2(bits) - picked(new_frequencies@, order@, i),
            ) by {
                if i < j {
                    assert(order@[i] != order@[j as int]);
                    assert(before[order@[i] as int] == share(
                        freqs[order@[i] as int] as int,
                        mass - picked(freqs, order@, i),
                        pow2(bits) - picked(before, order@, i),
                    ));
                }
            }
            assert(picked(new_frequencies@, order@, j + 1) == picked(
                new_frequencies@,
                order@,
                j as int,
            ) + new_freq);
        }
        old_sum = old_sum - freq;
        target_sum = target_sum - new_freq;
        j = j + 1;
    }
    let r = SymbolFrequencies { frequencies: new_frequencies };
    proof {
        lemma_picked_all(freqs, r@, order@);
        assert(served_in_order(freqs, bits, order@, r@));
        assert forall|s: int| 0 <= s < 256 implies (freqs[s] > 0 ==> r@[s] >= 1) && (freqs[s] == 0
            ==> r@[s] == 0) by {
            assert(listed(order@, s));
            let i = choose|i: int| 0 <= i < 256 && #[trigger] order@[i] == s;
            assert(r@[order@[i] as int] == share(
                freqs[order@[i] as int] as int,
                mass - picked(freqs, order@, i),
                pow2(bits) - picked(r@, order@, i),
            ));
            lemma_rest_of_mass(freqs, order@, i);
            lemma_rest_of_mass(freqs, order@, 0);
            if freqs[s] == 0 {
                let target = pow2(bits) - picked(r@, order@, i);
                let left = mass - picked(freqs, order@, i);
                assert((target * 0) / left == 0) by (nonlinear_arith)
                    requires
                        left > 0,
                ;
            }
        }
    }
    r
}

} // verus!
