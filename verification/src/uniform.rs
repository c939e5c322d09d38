//! The uniform construction: every symbol receives one slot each time its
//! running accumulator crosses `M`, so that slots are interleaved in
//! proportion to the frequencies.
use crate::frequencies::{sum_of, SymbolFrequencies};
use crate::table::ANSTableUniform;
use vstd::arithmetic::div_mod::{lemma_fundamental_div_mod, lemma_fundamental_div_mod_converse};
use vstd::prelude::*;

verus! {

/// How many slots a symbol of frequency `f` has received after `i` rounds,
/// when every accumulator starts at `a`.
pub open spec fn crossings(f: int, a: int, m: int, i: int) -> int {
    (a + i * f) / m
}

/// Whether symbol `t` receives a slot in round `i`.
pub open spec fn crosses(freqs: Seq<u32>, a: int, m: int, i: int, t: int) -> bool {
    crossings(freqs[t] as int, a, m, i + 1) > crossings(freqs[t] as int, a, m, i)
}

/// The slots that the symbols below `upto` have received after `i` rounds.
pub open spec fn crossings_below(freqs: Seq<u32>, a: int, m: int, i: int, upto: int) -> int
    decreases upto,
{
    if upto <= 0 {
        0
    } else {
        crossings_below(freqs, a, m, i, upto - 1) + crossings(freqs[upto - 1] as int, a, m, i)
    }
}

/// The number of slots handed out before symbol `s` is looked at in round
/// `i`: the symbols below `s` have finished round `i`, the others have
/// finished round `i - 1`.
pub open spec fn cursor_at(freqs: Seq<u32>, a: int, m: int, i: int, s: int) -> int {
    crossings_below(freqs, a, m, i + 1, s) + crossings_below(freqs, a, m, i, 256)
        - crossings_below(freqs, a, m, i, s)
}

impl ANSTableUniform {
    /// The rows of `encode` are those of the uniform construction started
    /// at `a`: the slot that a symbol receives in a round is the number of
    /// slots handed out before it.
    pub open spec fn uniform(&self, a: int) -> bool {
        forall|i: int, t: int|
            0 <= i < self.m() && 0 <= t < 256 && #[trigger] crosses(
                self.frequencies@,
                a,
                self.m(),
                i,
                t,
            ) ==> self.encode@[t]@[crossings(self.frequencies@[t] as int, a, self.m(), i)]
                == cursor_at(self.frequencies@, a, self.m(), i, t)
    }
}

/// No entry of a histogram exceeds the sum of all entries.
pub proof fn lemma_entry_at_most_sum(freqs: Seq<u32>, t: int)
    requires
        0 <= t < freqs.len(),
    ensures
        freqs[t] <= sum_of(freqs),
        0 <= sum_of(freqs),
    decreases freqs.len(),
{
    lemma_sum_nonnegative(freqs.drop_last());
    if t < freqs.len() - 1 {
        lemma_entry_at_most_sum(freqs.drop_last(), t);
    }
}

/// Two different entries of a histogram together do not exceed the sum of
/// all entries.
pub proof fn lemma_two_entries_at_most_sum(freqs: Seq<u32>, s: int, t: int)
    requires
        0 <= s < freqs.len(),
        0 <= t < freqs.len(),
        s != t,
    ensures
        freqs[s] + freqs[t] <= sum_of(freqs),
    decreases freqs.len(),
{
    let last = freqs.len() - 1;
    if s == last {
        lemma_entry_at_most_sum(freqs.drop_last(), t);
    } else if t == last {
        lemma_entry_at_most_sum(freqs.drop_last(), s);
    } else {
        lemma_two_entries_at_most_sum(freqs.drop_last(), s, t);
    }
}

/// The sum of a histogram is never negative.
pub proof fn lemma_sum_nonnegative(freqs: Seq<u32>)
    ensures
        0 <= sum_of(freqs),
    decreases freqs.len(),
{
    if freqs.len() > 0 {
        lemma_sum_nonnegative(freqs.drop_last());
    }
}

/// The sum of a prefix is at most the sum of the whole histogram.
pub proof fn lemma_sum_prefix(freqs: Seq<u32>, len: int)
    requires
        0 <= len <= freqs.len(),
    ensures
        0 <= sum_of(freqs.take(len)) <= sum_of(freqs),
    decreases freqs.len(),
{
    if len == freqs.len() {
        assert(freqs.take(len) =~= freqs);
        lemma_sum_nonnegative(freqs);
    } else {
        assert(freqs.drop_last().take(len) =~= freqs.take(len));
        lemma_sum_prefix(freqs.drop_last(), len);
    }
}

/// One round moves an accumulator forward by the frequency, and hands out
/// a slot exactly when the accumulator reaches `m`.
pub proof fn lemma_round(f: int, a: int, m: int, i: int)
    requires
        0 <= a,
        0 <= f <= m,
        0 < m,
        0 <= i,
    ensures
        0 <= (a + i * f) % m < m,
        0 <= crossings(f, a, m, i),
        (a + i * f) % m + f >= m ==> crossings(f, a, m, i + 1) == crossings(f, a, m, i) + 1 && (a
            + (i + 1) * f) % m == (a + i * f) % m + f - m,
        (a + i * f) % m + f < m ==> crossings(f, a, m, i + 1) == crossings(f, a, m, i) && (a + (i
            + 1) * f) % m == (a + i * f) % m + f,
{
    let x = a + i * f;
    let q = x / m;
    let r = x % m;
    assert(0 <= i * f) by (nonlinear_arith)
        requires
            0 <= i,
            0 <= f,
    ;
    assert((i + 1) * f == i * f + f) by (nonlinear_arith);
    lemma_fundamental_div_mod(x, m);
    assert(0 <= r < m);
    assert(0 <= q) by (nonlinear_arith)
        requires
            x == m * q + r,
            0 <= x,
            0 <= r < m,
            0 < m,
    ;
    if r + f >= m {
        assert(x + f == (q + 1) * m + (r + f - m)) by (nonlinear_arith)
            requires
                x == m * q + r,
        ;
        lemma_fundamental_div_mod_converse(x + f, m, q + 1, r + f - m);
    } else {
        assert(x + f == q * m + (r + f)) by (nonlinear_arith)
            requires
                x == m * q + r,
        ;
        lemma_fundamental_div_mod_converse(x + f, m, q, r + f);
    }
}

/// Before the first round no symbol has a slot; after `m` rounds a symbol
/// of frequency `f` has `f` of them, and never more before that.
pub proof fn lemma_crossings_range(f: int, a: int, m: int, i: int)
    requires
        0 <= a < m,
        0 <= f,
        0 <= i <= m,
    ensures
        crossings(f, a, m, 0) == 0,
        crossings(f, a, m, m) == f,
        0 <= crossings(f, a, m, i) <= f,
{
    assert(a + 0 * f == 0 * m + a) by (nonlinear_arith);
    lemma_fundamental_div_mod_converse(a + 0 * f, m, 0, a);
    assert(a + m * f == f * m + a) by (nonlinear_arith);
    lemma_fundamental_div_mod_converse(a + m * f, m, f, a);
    let x = a + i * f;
    lemma_fundamental_div_mod(x, m);
    let q = x / m;
    let r = x % m;
    assert(0 <= q <= f) by (nonlinear_arith)
        requires
            x == m * q + r,
            0 <= r < m,
            x == a + i * f,
            0 <= a < m,
            0 <= f,
            0 <= i <= m,
    ;
}

/// Summed over the symbols below `upto`, the bounds of
/// `lemma_crossings_range`.
pub proof fn lemma_crossings_below_range(freqs: Seq<u32>, a: int, m: int, i: int, upto: int)
    requires
        0 <= a < m,
        0 <= i <= m,
        0 <= upto <= freqs.len(),
    ensures
        crossings_below(freqs, a, m, 0, upto) == 0,
        crossings_below(freqs, a, m, m, upto) == sum_of(freqs.take(upto)),
        0 <= crossings_below(freqs, a, m, i, upto) <= sum_of(freqs.take(upto)),
    decreases upto,
{
    if upto > 0 {
        lemma_crossings_below_range(freqs, a, m, i, upto - 1);
        lemma_crossings_range(freqs[upto - 1] as int, a, m, i);
        assert(freqs.take(upto).drop_last() =~= freqs.take(upto - 1));
    }
}

/// Looking at one more symbol moves the cursor by the slot that the symbol
/// received in this round, if any.
pub proof fn lemma_cursor_next(freqs: Seq<u32>, a: int, m: int, i: int, s: int)
    requires
        0 <= s < 256,
    ensures
        cursor_at(freqs, a, m, i, s + 1) == cursor_at(freqs, a, m, i, s) + crossings(
            freqs[s] as int,
            a,
            m,
            i + 1,
        ) - crossings(freqs[s] as int, a, m, i),
        cursor_at(freqs, a, m, i + 1, 0) == cursor_at(freqs, a, m, i, 256),
{
}

/// Within a round the cursor never moves back.
pub proof fn lemma_cursor_grows(freqs: Seq<u32>, a: int, m: int, i: int, s: int)
    requires
        0 <= a < m,
        0 <= i < m,
        0 <= s <= 256,
        freqs.len() == 256,
        m == sum_of(freqs),
    ensures
        0 <= cursor_at(freqs, a, m, i, s) <= cursor_at(freqs, a, m, i, 256) <= m,
{
    lemma_cursor_from_start(freqs, a, m, i, s);
    lemma_cursor_to_end(freqs, a, m, i, s);
}

proof fn lemma_cursor_from_start(freqs: Seq<u32>, a: int, m: int, i: int, s: int)
    requires
        0 <= a < m,
        0 <= i < m,
        0 <= s <= 256,
        freqs.len() == 256,
        m == sum_of(freqs),
    ensures
        0 <= cursor_at(freqs, a, m, i, 0) <= cursor_at(freqs, a, m, i, s),
    decreases s,
{
    if s > 0 {
        lemma_cursor_from_start(freqs, a, m, i, s - 1);
        lemma_cursor_next(freqs, a, m, i, s - 1);
        lemma_entry_at_most_sum(freqs, s - 1);
        lemma_round(freqs[s - 1] as int, a, m, i);
    } else {
        lemma_crossings_below_range(freqs, a, m, i, 256);
    }
}

proof fn lemma_cursor_to_end(freqs: Seq<u32>, a: int, m: int, i: int, s: int)
    requires
        0 <= a < m,
        0 <= i < m,
        0 <= s <= 256,
        freqs.len() == 256,
        m == sum_of(freqs),
    ensures
        cursor_at(freqs, a, m, i, s) <= cursor_at(freqs, a, m, i, 256) <= m,
    decreases 256 - s,
{
    if s < 256 {
        lemma_cursor_to_end(freqs, a, m, i, s + 1);
        lemma_cursor_next(freqs, a, m, i, s);
        lemma_entry_at_most_sum(freqs, s);
        lemma_round(freqs[s] as int, a, m, i);
    } else {
        lemma_crossings_below_range(freqs, a, m, i + 1, 256);
        assert(freqs.take(256) =~= freqs);
    }
}


/// The rounds that symbol `t` has finished once the symbols below `s` have
/// been looked at in round `i`.
spec fn rounds_done(i: int, s: int, t: int) -> int {
    if t < s {
        i + 1
    } else {
        i
    }
}

/// What holds of the tables under construction just before symbol `s` is
/// looked at in round `i`.
spec fn partial(
    freqs: Seq<u32>,
    a: int,
    m: int,
    enc: Seq<Vec<u32>>,
    dec: Seq<(u8, u32)>,
    i: int,
    s: int,
) -> bool {
    &&& enc.len() == 256
    &&& forall|t: int|
        0 <= t < 256 ==> (#[trigger] enc[t])@.len() == crossings(
            freqs[t] as int,
            a,
            m,
            rounds_done(i, s, t),
        )
    &&& dec.len() == cursor_at(freqs, a, m, i, s)
    &&& forall|t: int, p: int|
        0 <= t < 256 && 0 <= p < enc[t]@.len() ==> {
            &&& (#[trigger] enc[t]@[p]) < dec.len()
            &&& dec[enc[t]@[p] as int] == (t as u8, p as u32)
        }
    &&& forall|v: int|
        0 <= v < dec.len() ==> {
            let (t, p) = #[trigger] dec[v];
            p < enc[t as int]@.len() && enc[t as int]@[p as int] == v
        }
    &&& forall|t: int, p: int, q: int|
        0 <= t < 256 && 0 <= p < q < enc[t]@.len() ==> #[trigger] enc[t]@[p] < #[trigger] enc[t]@[q]
    &&& forall|j: int, t: int|
        0 <= j && 0 <= t < 256 && (j < i || (j == i && t < s)) && #[trigger] crosses(
            freqs,
            a,
            m,
            j,
            t,
        ) ==> {
            let p = crossings(freqs[t] as int, a, m, j);
            0 <= p < enc[t]@.len() && enc[t]@[p] == cursor_at(freqs, a, m, j, t)
        }
}

/// A symbol that receives no slot leaves the tables as they are.
proof fn lemma_skip(
    freqs: Seq<u32>,
    a: int,
    m: int,
    enc: Seq<Vec<u32>>,
    dec: Seq<(u8, u32)>,
    i: int,
    s: int,
)
    requires
        partial(freqs, a, m, enc, dec, i, s),
        0 <= s < 256,
        crossings(freqs[s] as int, a, m, i + 1) == crossings(freqs[s] as int, a, m, i),
    ensures
        partial(freqs, a, m, enc, dec, i, s + 1),
{
    lemma_cursor_next(freqs, a, m, i, s);
    assert forall|t: int| 0 <= t < 256 implies (#[trigger] enc[t])@.len() == crossings(
        freqs[t] as int,
        a,
        m,
        rounds_done(i, s + 1, t),
    ) by {
        assert(enc[t]@.len() == crossings(freqs[t] as int, a, m, rounds_done(i, s, t)));
    }
}

/// The end of a round is the start of the next.
proof fn lemma_next_round(
    freqs: Seq<u32>,
    a: int,
    m: int,
    enc: Seq<Vec<u32>>,
    dec: Seq<(u8, u32)>,
    i: int,
)
    requires
        partial(freqs, a, m, enc, dec, i, 256),
    ensures
        partial(freqs, a, m, enc, dec, i + 1, 0),
{
    lemma_cursor_next(freqs, a, m, i, 0);
    assert forall|t: int| 0 <= t < 256 implies (#[trigger] enc[t])@.len() == crossings(
        freqs[t] as int,
        a,
        m,
        rounds_done(i + 1, 0, t),
    ) by {
        assert(enc[t]@.len() == crossings(freqs[t] as int, a, m, rounds_done(i, 256, t)));
    }
}

/// A symbol that receives a slot takes the next free one.
proof fn lemma_push(
    freqs: Seq<u32>,
    a: int,
    m: int,
    enc: Seq<Vec<u32>>,
    dec: Seq<(u8, u32)>,
    enc2: Seq<Vec<u32>>,
    dec2: Seq<(u8, u32)>,
    i: int,
    s: int,
    c: u32,
    l: u32,
)
    requires
        partial(freqs, a, m, enc, dec, i, s),
        0 <= i,
        0 <= s < 256,
        crossings(freqs[s] as int, a, m, i + 1) == crossings(freqs[s] as int, a, m, i) + 1,
        c == dec.len(),
        l == enc[s]@.len(),
        enc2.len() == 256,
        enc2[s]@ == enc[s]@.push(c),
        forall|t: int| 0 <= t < 256 && t != s ==> enc2[t] == enc[t],
        dec2 == dec.push((s as u8, l)),
    ensures
        partial(freqs, a, m, enc2, dec2, i, s + 1),
{
    lemma_cursor_next(freqs, a, m, i, s);
    assert forall|t: int| 0 <= t < 256 implies (#[trigger] enc2[t])@.len() == crossings(
        freqs[t] as int,
        a,
        m,
        rounds_done(i, s + 1, t),
    ) by {
        assert(enc[t]@.len() == crossings(freqs[t] as int, a, m, rounds_done(i, s, t)));
    }
    assert forall|t: int, p: int| 0 <= t < 256 && 0 <= p < enc2[t]@.len() implies {
        &&& (#[trigger] enc2[t]@[p]) < dec2.len()
        &&& dec2[enc2[t]@[p] as int] == (t as u8, p as u32)
    } by {
        if t == s && p == l {
        } else {
            assert(enc2[t]@[p] == enc[t]@[p]);
        }
    }
    assert forall|v: int| 0 <= v < dec2.len() implies {
        let (t, p) = #[trigger] dec2[v];
        p < enc2[t as int]@.len() && enc2[t as int]@[p as int] == v
    } by {
        if v < dec.len() {
            let (t, p) = dec[v];
            assert(dec2[v] == dec[v]);
            assert(p < enc[t as int]@.len() && enc[t as int]@[p as int] == v);
            assert(enc2[t as int]@[p as int] == enc[t as int]@[p as int]);
        }
    }
    assert forall|t: int, p: int, q: int| 0 <= t < 256 && 0 <= p < q < enc2[t]@.len() implies #[trigger] enc2[t]@[p]
        < #[trigger] enc2[t]@[q] by {
        if t == s && q == l {
            assert(enc2[t]@[p] == enc[t]@[p]);
            assert(enc[t]@[p] < dec.len());
        } else {
            assert(enc2[t]@[p] == enc[t]@[p]);
            assert(enc2[t]@[q] == enc[t]@[q]);
        }
    }
    assert forall|j: int, t: int|
        0 <= j && 0 <= t < 256 && (j < i || (j == i && t < s + 1)) && #[trigger] crosses(
            freqs,
            a,
            m,
            j,
            t,
        ) implies {
        let p = crossings(freqs[t] as int, a, m, j);
        0 <= p < enc2[t]@.len() && enc2[t]@[p] == cursor_at(freqs, a, m, j, t)
    } by {
        let p = crossings(freqs[t] as int, a, m, j);
        if j == i && t == s {
            assert(enc[s]@.len() == crossings(freqs[s] as int, a, m, rounds_done(i, s, s)));
        } else {
            assert(0 <= p < enc[t]@.len() && enc[t]@[p] == cursor_at(freqs, a, m, j, t));
            assert(enc2[t]@[p] == enc[t]@[p]);
        }
    }
}

/// The table that consists of the given parts.
pub open spec fn assembled(
    frequencies: [u32; 256],
    sum_frequencies: u32,
    encode: Vec<Vec<u32>>,
    decode: Vec<(u8, u32)>,
) -> ANSTableUniform {
    ANSTableUniform { frequencies, sum_frequencies, encode, decode, verbose: false }
}

/// After `m` rounds the tables are complete and laid out uniformly.
proof fn lemma_finished(
    frequencies: [u32; 256],
    sum_frequencies: u32,
    a: int,
    encode: Vec<Vec<u32>>,
    decode: Vec<(u8, u32)>,
)
    requires
        sum_frequencies > 0,
        0 <= a < sum_frequencies,
        sum_frequencies == sum_of(frequencies@),
        partial(frequencies@, a, sum_frequencies as int, encode@, decode@, sum_frequencies as int, 0),
    ensures
        assembled(frequencies, sum_frequencies, encode, decode).wf(),
        assembled(frequencies, sum_frequencies, encode, decode).uniform(a),
{
    let t = assembled(frequencies, sum_frequencies, encode, decode);
    let freqs = frequencies@;
    let m = sum_frequencies as int;
    let enc = encode@;
    let dec = decode@;
    lemma_crossings_below_range(freqs, a, m, m, 256);
    assert(freqs.take(256) =~= freqs);
    assert(dec.len() == m);
    assert forall|s: u8| #[trigger] t.encode@[s as int]@.len() == t.freq(s) by {
        lemma_crossings_range(freqs[s as int] as int, a, m, m);
        assert(enc[s as int]@.len() == crossings(
            freqs[s as int] as int,
            a,
            m,
            rounds_done(m, 0, s as int),
        ));
    }
    assert forall|s: u8, p: int| 0 <= p < t.freq(s) implies 0 <= #[trigger] t.slot(s, p) < t.m()
        && t.decode@[t.slot(s, p)] == (s, p as u32) by {
        assert(t.encode@[s as int]@.len() == t.freq(s));
        assert(enc[s as int]@[p] < dec.len());
    }
    assert forall|v: int| 0 <= v < t.m() implies {
        let (s, p) = #[trigger] t.decode@[v];
        0 <= p < t.freq(s) && t.slot(s, p as int) == v
    } by {
        let (s, p) = dec[v];
        assert(t.encode@[s as int]@.len() == t.freq(s));
        assert(p < enc[s as int]@.len() && enc[s as int]@[p as int] == v);
    }
    assert forall|s: u8, p: int, q: int| 0 <= p < q < t.freq(s) implies #[trigger] t.slot(s, p)
        < #[trigger] t.slot(s, q) by {
        assert(t.encode@[s as int]@.len() == t.freq(s));
        assert(enc[s as int]@[p] < enc[s as int]@[q]);
    }
    assert(t.rows_fit());
    assert(t.inverse());
    assert(t.onto());
    assert(t.ordered());
}

impl ANSTableUniform {
    /// Builds the encode and decode tables of the uniform construction
    /// with every accumulator started at `accum_start`.
    pub fn build_tables(frequencies: &[u32; 256], sum_frequencies: u32, accum_start: u32) -> (r: (
        Vec<Vec<u32>>,
        Vec<(u8, u32)>,
    ))
        requires
            sum_frequencies == sum_of(frequencies@),
            sum_frequencies == 0 || accum_start < sum_frequencies,
        ensures
            assembled(*frequencies, sum_frequencies, r.0, r.1).wf(),
            assembled(*frequencies, sum_frequencies, r.0, r.1).uniform(accum_start as int),
    {
        let mut transforms: Vec<Vec<u32>> = Vec::new();
        let mut k: usize = 0;
        while k < 256
            invariant
                k <= 256,
                transforms@.len() == k,
                forall|t: int| 0 <= t < k ==> (#[trigger] transforms@[t])@.len() == 0,
            decreases 256 - k,
        {
            transforms.push(Vec::new());
            k = k + 1;
        }
        let mut backward: Vec<(u8, u32)> = Vec::new();
        let ghost freqs = frequencies@;
        let ghost a = accum_start as int;
        let ghost m = sum_frequencies as int;
        if sum_frequencies == 0 {
            proof {
                let t = assembled(*frequencies, sum_frequencies, transforms, backward);
                assert forall|s: u8| #[trigger] t.encode@[s as int]@.len() == t.freq(s) by {
                    lemma_entry_at_most_sum(freqs, s as int);
                }
                assert(t.rows_fit());
                assert(t.inverse());
                assert(t.onto());
                assert(t.ordered());
            }
            return (transforms, backward);
        }
        let mut accum: [u64; 256] = [accum_start as u64;256];
        let mut cursor: u32 = 0;
        let mut i: u32 = 0;
        proof {
            lemma_crossings_below_range(freqs, a, m, 0, 256);
            assert forall|t: int| 0 <= t < 256 implies (#[trigger] transforms@[t])@.len()
                == crossings(freqs[t] as int, a, m, rounds_done(0, 0, t)) by {
                lemma_crossings_range(freqs[t] as int, a, m, 0);
            }
            assert forall|t: int| 0 <= t < 256 implies #[trigger] accum@[t] == (a + rounds_done(
                0,
                0,
                t,
            ) * freqs[t]) % m by {
                assert(accum@[t] == a);
                assert(a + 0 * freqs[t] == a) by (nonlinear_arith);
                lemma_fundamental_div_mod_converse(a, m, 0, a);
            }
            assert(partial(freqs, a, m, transforms@, backward@, 0, 0));
        }
        while i < sum_frequencies
            invariant
                freqs == frequencies@,
                a == accum_start,
                m == sum_frequencies,
                m == sum_of(freqs),
                0 <= a < m,
                i <= sum_frequencies,
                cursor == backward@.len(),
                partial(freqs, a, m, transforms@, backward@, i as int, 0),
                forall|t: int|
                    0 <= t < 256 ==> #[trigger] accum@[t] == (a + rounds_done(i as int, 0, t)
                        * freqs[t]) % m,
            decreases sum_frequencies - i,
        {
            let mut symbol: usize = 0;
            while symbol < 256
                invariant
                    freqs == frequencies@,
                    a == accum_start,
                    m == sum_frequencies,
                    m == sum_of(freqs),
                    0 <= a < m,
                    i < sum_frequencies,
                    symbol <= 256,
                    cursor == backward@.len(),
                    partial(freqs, a, m, transforms@, backward@, i as int, symbol as int),
                    forall|t: int|
                        0 <= t < 256 ==> #[trigger] accum@[t] == (a + rounds_done(
                            i as int,
                            symbol as int,
                            t,
                        ) * freqs[t]) % m,
                decreases 256 - symbol,
            {
                let f: u64 = frequencies[symbol] as u64;
                proof {
                    lemma_entry_at_most_sum(freqs, symbol as int);
                    lemma_round(f as int, a, m, i as int);
                    lemma_cursor_next(freqs, a, m, i as int, symbol as int);
                    lemma_cursor_grows(freqs, a, m, i as int, symbol as int);
                    lemma_cursor_grows(freqs, a, m, i as int, symbol + 1);
                    lemma_crossings_range(f as int, a, m, i + 1);
                    assert(accum@[symbol as int] == (a + rounds_done(
                        i as int,
                        symbol as int,
                        symbol as int,
                    ) * freqs[symbol as int]) % m);
                    assert(transforms@[symbol as int]@.len() == crossings(
                        f as int,
                        a,
                        m,
                        rounds_done(i as int, symbol as int, symbol as int),
                    ));
                }
                let ghost accum_before = accum@;
                let moved: u64 = accum[symbol] + f;
                if moved >= sum_frequencies as u64 {
                    let ghost enc = transforms@;
                    let ghost dec = backward@;
                    let decoded: usize = transforms[symbol].len();
                    transforms[symbol].push(cursor);
                    backward.push((symbol as u8, decoded as u32));
                    proof {
                        lemma_push(
                            freqs,
                            a,
                            m,
                            enc,
                            dec,
                            transforms@,
                            backward@,
                            i as int,
                            symbol as int,
                            cursor,
                            decoded as u32,
                        );
                    }
                    cursor = cursor + 1;
                    accum[symbol] = moved - sum_frequencies as u64;
                } else {
                    accum[symbol] = moved;
                    proof {
                        lemma_skip(freqs, a, m, transforms@, backward@, i as int, symbol as int);
                    }
                }
                proof {
                    assert forall|t: int| 0 <= t < 256 implies #[trigger] accum@[t] == (a
                        + rounds_done(i as int, symbol + 1, t) * freqs[t]) % m by {
                        if t != symbol {
                            assert(accum@[t] == accum_before[t]);
                            assert(rounds_done(i as int, symbol + 1, t) == rounds_done(
                                i as int,
                                symbol as int,
                                t,
                            ));
                        }
                    }
                }
                symbol = symbol + 1;
            }
            proof {
                lemma_next_round(freqs, a, m, transforms@, backward@, i as int);
                assert forall|t: int| 0 <= t < 256 implies #[trigger] accum@[t] == (a
                    + rounds_done(i + 1, 0, t) * freqs[t]) % m by {
                    assert(rounds_done(i + 1, 0, t) == rounds_done(i as int, 256, t));
                }
            }
            i = i + 1;
        }
        proof {
            lemma_finished(*frequencies, sum_frequencies, a, transforms, backward);
        }
        (transforms, backward)
    }
}


/// Every phase of a symbol has its round: the round in which the symbol
/// receives its slot number `p`.
pub proof fn lemma_round_of_phase(f: int, a: int, m: int, p: int, from: int) -> (i: int)
    requires
        0 <= a < m,
        0 <= p < f <= m,
        0 <= from <= m,
        crossings(f, a, m, from) <= p,
    ensures
        from <= i < m,
        crossings(f, a, m, i) == p,
        crossings(f, a, m, i + 1) == p + 1,
    decreases m - from,
{
    lemma_crossings_range(f, a, m, from);
    lemma_round(f, a, m, from);
    if crossings(f, a, m, from + 1) > p {
        from
    } else {
        lemma_round_of_phase(f, a, m, p, from + 1)
    }
}

impl ANSTableUniform {
    /// The table is the one that the uniform construction gives for the
    /// histogram `freqs` with every accumulator started at half the sum.
    pub open spec fn built_from(&self, freqs: Seq<u32>) -> bool {
        &&& self.frequencies@ == freqs
        &&& self.wf()
        &&& self.uniform(self.m() / 2)
    }

    /// The uniform construction fixes every slot: two complete tables
    /// over the same histogram that are both laid out uniformly from the
    /// same start agree in every slot.
    pub proof fn lemma_uniform_unique(&self, other: ANSTableUniform, a: int)
        requires
            self.wf(),
            other.wf(),
            self.frequencies@ == other.frequencies@,
            0 <= a < self.m() || self.m() == 0,
            self.uniform(a),
            other.uniform(a),
        ensures
            self.m() == other.m(),
            forall|s: u8, p: int|
                0 <= p < self.freq(s) ==> #[trigger] self.slot(s, p) == other.slot(s, p),
    {
        let m = self.m();
        let freqs = self.frequencies@;
        assert forall|s: u8, p: int| 0 <= p < self.freq(s) implies #[trigger] self.slot(s, p)
            == other.slot(s, p) by {
            let f = self.freq(s);
            lemma_entry_at_most_sum(freqs, s as int);
            lemma_crossings_range(f, a, m, 0);
            let i = lemma_round_of_phase(f, a, m, p, 0);
            assert(crosses(freqs, a, m, i, s as int));
            assert(self.encode@[s as int]@[crossings(freqs[s as int] as int, a, m, i)]
                == cursor_at(freqs, a, m, i, s as int));
            assert(other.encode@[s as int]@[crossings(freqs[s as int] as int, a, m, i)]
                == cursor_at(freqs, a, m, i, s as int));
        }
    }
}

/// The sum of all entries of `frequencies`.
pub fn total_frequency(frequencies: &[u32; 256]) -> (r: u32)
    requires
        sum_of(frequencies@) <= u32::MAX,
    ensures
        r == sum_of(frequencies@),
{
    let mut sum: u32 = 0;
    let mut k: usize = 0;
    assert(frequencies@.take(0) =~= Seq::<u32>::empty());
    while k < 256
        invariant
            k <= 256,
            sum == sum_of(frequencies@.take(k as int)),
            sum_of(frequencies@) <= u32::MAX,
        decreases 256 - k,
    {
        proof {
            lemma_sum_prefix(frequencies@, k + 1);
            assert(frequencies@.take(k + 1).drop_last() =~= frequencies@.take(k as int));
        }
        sum = sum + frequencies[k];
        k = k + 1;
    }
    assert(frequencies@.take(256) =~= frequencies@);
    sum
}

impl ANSTableUniform {
    /// The table of the uniform construction for `freqs`, with every
    /// accumulator started at half the sum of the frequencies.
    pub fn new(freqs: SymbolFrequencies) -> (r: ANSTableUniform)
        requires
            freqs.total() <= u32::MAX,
        ensures
            r.built_from(freqs@),
            r.m() == freqs.total(),
            !r.verbose,
    {
        let frequencies = freqs.frequencies;
        let sum_frequencies = total_frequency(&frequencies);
        let (transforms, backward) = ANSTableUniform::build_tables(
            &frequencies,
            sum_frequencies,
            sum_frequencies / 2,
        );
        ANSTableUniform {
            frequencies,
            sum_frequencies,
            encode: transforms,
            decode: backward,
            verbose: false,
        }
    }
}

} // verus!
