//! Tables and message lists for studying how the layout of a table
//! affects the size of the encoded state.
use crate::frequencies::{sum_of, SymbolFrequencies};
use crate::scaling::{lemma_sum_of_zeros, lemma_sum_update};
use crate::table::ANSTableUniform;
use crate::uniform::{lemma_sum_prefix, total_frequency};
use vstd::arithmetic::power2::pow2;
use vstd::prelude::*;

verus! {

/// The state after the symbols of `message` have been appended in turn
/// to `start`.
pub open spec fn folded(table: ANSTableUniform, message: Seq<u8>, start: int) -> int
    decreases message.len(),
{
    if message.len() == 0 {
        start
    } else {
        table.step(folded(table, message.drop_last(), start), message.last())
    }
}

/// Whether every step of appending `message` to `start` can be computed
/// within 64 bits.
pub open spec fn foldable(table: ANSTableUniform, message: Seq<u8>, start: int) -> bool {
    forall|i: int|
        0 <= i < message.len() ==> table.step_fits(
            #[trigger] folded(table, message.take(i), start),
            message[i],
            u64::MAX as int,
        )
}

/// The symbols that come off `x` until it has run down to one, in the
/// order in which they were appended; the run also ends where removing a
/// symbol does not lower the state.
pub open spec fn unfolded(table: ANSTableUniform, x: int) -> Seq<u8>
    decreases x,
{
    if x <= 1 {
        Seq::empty()
    } else {
        let (symbol, before) = table.unstep(x);
        if 0 <= before < x {
            unfolded(table, before).push(symbol)
        } else {
            Seq::empty()
        }
    }
}

/// The number of binary digits of `x`.
pub open spec fn bit_length(x: int) -> nat
    decreases x,
{
    if x <= 0 {
        0
    } else {
        1 + bit_length(x / 2)
    }
}

/// The histogram with frequency `a` for symbol 0, `b` for symbol 1, `c`
/// for symbol 2, `d` for symbol 3, and zero elsewhere.
pub open spec fn four_symbols(a: u32, b: u32, c: u32, d: u32) -> Seq<u32> {
    Seq::new(
        256,
        |t: int|
            if t == 0 {
                a
            } else if t == 1 {
                b
            } else if t == 2 {
                c
            } else if t == 3 {
                d
            } else {
                0u32
            },
    )
}

/// The sum of a histogram with at most four symbols.
pub proof fn lemma_four_symbols_sum(a: u32, b: u32, c: u32, d: u32)
    ensures
        sum_of(four_symbols(a, b, c, d)) == a + b + c + d,
{
    let zeros = Seq::new(256, |t: int| 0u32);
    lemma_sum_of_zeros(zeros);
    let s0 = zeros.update(0, a);
    lemma_sum_update(zeros, 0, a);
    let s1 = s0.update(1, b);
    lemma_sum_update(s0, 1, b);
    let s2 = s1.update(2, c);
    lemma_sum_update(s1, 2, c);
    let s3 = s2.update(3, d);
    lemma_sum_update(s2, 3, d);
    assert(s3 =~= four_symbols(a, b, c, d));
}

/// The histogram with the given frequencies for the symbols 0 to 3.
fn four_symbol_frequencies(a: u32, b: u32, c: u32, d: u32) -> (r: SymbolFrequencies)
    ensures
        r@ == four_symbols(a, b, c, d),
{
    let mut frequencies: [u32; 256] = [0;256];
    let ghost zeros = frequencies@;
    frequencies[0] = a;
    frequencies[1] = b;
    frequencies[2] = c;
    frequencies[3] = d;
    assert(frequencies@ =~= zeros.update(0, a).update(1, b).update(2, c).update(3, d));
    assert(frequencies@ =~= four_symbols(a, b, c, d));
    let freqs = SymbolFrequencies { frequencies };
    freqs
}

/// The binary digit of `packed_bits` at position `pos`.
pub open spec fn bit_at(packed_bits: i32, pos: u8) -> u8 {
    if packed_bits & (1i32 << pos) != 0 {
        1
    } else {
        0
    }
}

/// The base-4 digit of `packed_bits` at position `pos`.
pub open spec fn quat_at(packed_bits: i32, pos: u8) -> u8 {
    ((packed_bits >> ((2 * pos) as u8)) & 3) as u8
}

/// The `num_bits` low binary digits of `packed_bits`, lowest first.
pub open spec fn binary_digits(packed_bits: i32, num_bits: u8) -> Seq<u8> {
    Seq::new(num_bits as nat, |pos: int| bit_at(packed_bits, pos as u8))
}

/// The `num_quats` low base-4 digits of `packed_bits`, lowest first.
pub open spec fn quaternary_digits(packed_bits: i32, num_quats: u8) -> Seq<u8> {
    Seq::new(num_quats as nat, |pos: int| quat_at(packed_bits, pos as u8))
}

/// The message whose symbols are the `num_bits` low binary digits of
/// `packed_bits`, lowest first.
pub fn binary_expand(packed_bits: i32, num_bits: u8) -> (r: Vec<u8>)
    requires
        num_bits <= 32,
    ensures
        r@ == binary_digits(packed_bits, num_bits),
{
    let mut r: Vec<u8> = Vec::new();
    let mut pos: u8 = 0;
    while pos < num_bits
        invariant
            pos <= num_bits <= 32,
            r@.len() == pos,
            forall|i: int| 0 <= i < pos ==> r@[i] == bit_at(packed_bits, i as u8),
        decreases num_bits - pos,
    {
        let bit: bool = 0 != packed_bits & (1i32 << pos);
        r.push(
            if bit {
                1
            } else {
                0
            },
        );
        pos = pos + 1;
    }
    assert(r@ =~= binary_digits(packed_bits, num_bits));
    r
}

/// The message whose symbols are the `num_quats` low base-4 digits of
/// `packed_bits`, lowest first.
pub fn quaternary_expand(packed_bits: i32, num_quats: u8) -> (r: Vec<u8>)
    requires
        num_quats <= 16,
    ensures
        r@ == quaternary_digits(packed_bits, num_quats),
{
    let mut r: Vec<u8> = Vec::new();
    let mut pos: u8 = 0;
    while pos < num_quats
        invariant
            pos <= num_quats <= 16,
            r@.len() == pos,
            forall|i: int| 0 <= i < pos ==> r@[i] == quat_at(packed_bits, i as u8),
        decreases num_quats - pos,
    {
        let shift: u8 = 2 * pos;
        let digit: i32 = (packed_bits >> shift) & 3;
        assert(0 <= digit < 4) by (bit_vector)
            requires
                digit == (packed_bits >> shift) & 3,
        ;
        r.push(digit as u8);
        pos = pos + 1;
    }
    assert(r@ =~= quaternary_digits(packed_bits, num_quats));
    r
}

/// A cursor over all messages of a fixed length over the symbols 0 and 1,
/// or over the symbols 0 to 3: message number `n` consists of the digits
/// of `n`, lowest first.
#[derive(Clone, Copy, Debug)]
pub struct MessageList {
    pub position: i32,
    pub limit: i32,
    pub digits: u8,
    pub quaternary: bool,
}

impl MessageList {
    /// The cursor can expand its messages.
    pub open spec fn wf(&self) -> bool {
        &&& 0 <= self.position
        &&& if self.quaternary {
            self.digits <= 16
        } else {
            self.digits <= 32
        }
    }

    /// The message with number `n`.
    pub open spec fn message(&self, n: i32) -> Seq<u8> {
        if self.quaternary {
            quaternary_digits(n, self.digits)
        } else {
            binary_digits(n, self.digits)
        }
    }

    /// The next message, if any is left.
    pub fn next(&mut self) -> (r: Option<Vec<u8>>)
        requires
            old(self).wf(),
        ensures
            final(self).wf(),
            final(self).limit == old(self).limit,
            final(self).digits == old(self).digits,
            final(self).quaternary == old(self).quaternary,
            old(self).position < old(self).limit ==> final(self).position == old(self).position
                + 1 && r is Some && r->0@ == old(self).message(old(self).position),
            old(self).position >= old(self).limit ==> final(self).position == old(self).position
                && r is None,
    {
        if self.position < self.limit {
            let message = if self.quaternary {
                quaternary_expand(self.position, self.digits)
            } else {
                binary_expand(self.position, self.digits)
            };
            self.position = self.position + 1;
            Some(message)
        } else {
            None
        }
    }
}

/// All messages of `num_bits` symbols over the symbols 0 and 1, in the
/// order of the numbers whose binary digits they are.
pub fn binary_message_list(num_bits: u8) -> (r: MessageList)
    requires
        num_bits < 32,
    ensures
        r.wf(),
        r.position == 0,
        !r.quaternary,
        r.digits == num_bits,
        num_bits < 31 ==> r.limit == pow2(num_bits as nat),
        num_bits == 31 ==> r.limit == i32::MIN,
{
    let limit: i32 = if num_bits == 31 {
        i32::MIN
    } else {
        proof {
            vstd::bits::lemma_u32_pow2_no_overflow(num_bits as nat);
            vstd::bits::lemma_u32_shl_is_mul(1, num_bits as u32);
            vstd::arithmetic::power2::lemma_pow2_strictly_increases(num_bits as nat, 31);
            vstd::arithmetic::power2::lemma2_to64();
        }
        (1u32 << (num_bits as u32)) as i32
    };
    MessageList { position: 0, limit, digits: num_bits, quaternary: false }
}

/// All messages of `num_quats` symbols over the symbols 0 to 3, in the
/// order of the numbers whose base-4 digits they are.
pub fn quaternary_message_list(num_quats: u8) -> (r: MessageList)
    requires
        num_quats <= 15,
    ensures
        r.wf(),
        r.position == 0,
        r.quaternary,
        r.digits == num_quats,
        r.limit == pow2((2 * num_quats) as nat),
{
    proof {
        vstd::bits::lemma_u32_pow2_no_overflow((2 * num_quats) as nat);
        vstd::bits::lemma_u32_shl_is_mul(1, (2 * num_quats) as u32);
        vstd::arithmetic::power2::lemma_pow2_strictly_increases((2 * num_quats) as nat, 31);
        vstd::arithmetic::power2::lemma2_to64();
    }
    let limit: i32 = (1u32 << ((2 * num_quats) as u32)) as i32;
    MessageList { position: 0, limit, digits: num_quats, quaternary: true }
}

/// A copy of `values`.
fn row(values: &[u32]) -> (r: Vec<u32>)
    ensures
        r@ == values@,
{
    let mut r: Vec<u32> = Vec::new();
    let mut i: usize = 0;
    while i < values.len()
        invariant
            i <= values@.len(),
            r@ == values@.take(i as int),
        decreases values@.len() - i,
    {
        r.push(values[i]);
        assert(r@ =~= values@.take(i + 1));
        i = i + 1;
    }
    assert(values@.take(i as int) =~= values@);
    r
}

/// The histogram of the two-symbol experiments: 3 for symbol 0, 1 for
/// symbol 1.
fn polarity_frequencies() -> (r: SymbolFrequencies)
    ensures
        r@ == four_symbols(3, 1, 0, 0),
        r.total() == 4,
{
    proof {
        lemma_four_symbols_sum(3, 1, 0, 0);
    }
    four_symbol_frequencies(3, 1, 0, 0)
}

/// A two-symbol table with the given rows and no decode table.
fn polarity_table(first: &[u32], second: &[u32]) -> (r: ANSTableUniform)
    ensures
        r.frequencies@ == four_symbols(3, 1, 0, 0),
        r.sum_frequencies == 4,
        r.encode@.len() == 2,
        r.encode@[0]@ == first@,
        r.encode@[1]@ == second@,
        r.decode@.len() == 0,
        !r.verbose,
{
    let freqs = polarity_frequencies();
    let mut encode: Vec<Vec<u32>> = Vec::new();
    encode.push(row(first));
    encode.push(row(second));
    ANSTableUniform {
        frequencies: freqs.frequencies,
        sum_frequencies: 4,
        encode,
        decode: Vec::new(),
        verbose: false,
    }
}

/// The uniform table for the frequencies 3 and 1.
pub fn polarity_a() -> (r: ANSTableUniform)
    ensures
        r.frequencies@ == four_symbols(3, 1, 0, 0),
        r.m() == 4,
        r.wf(),
        r.uniform(2),
        !r.verbose,
{
    ANSTableUniform::new(polarity_frequencies())
}

/// A table for the frequencies 3 and 1 in which the rare symbol owns the
/// lowest slot.  It has no decode table.
pub fn polarity_b() -> (r: ANSTableUniform)
    ensures
        r.frequencies@ == four_symbols(3, 1, 0, 0),
        r.sum_frequencies == 4,
        r.encode@.len() == 2,
        r.encode@[0]@ == seq![1u32, 2u32, 3u32],
        r.encode@[1]@ == seq![0u32],
        r.decode@.len() == 0,
        !r.verbose,
{
    let first: [u32; 3] = [1, 2, 3];
    let second: [u32; 1] = [0];
    let r = polarity_table(first.as_slice(), second.as_slice());
    assert(r.encode@[0]@ =~= seq![1u32, 2u32, 3u32]);
    assert(r.encode@[1]@ =~= seq![0u32]);
    r
}

/// A table for the frequencies 3 and 1 in which the rare symbol owns the
/// highest slot.  It has no decode table.
pub fn polarity_c() -> (r: ANSTableUniform)
    ensures
        r.frequencies@ == four_symbols(3, 1, 0, 0),
        r.sum_frequencies == 4,
        r.encode@.len() == 2,
        r.encode@[0]@ == seq![0u32, 1u32, 2u32],
        r.encode@[1]@ == seq![3u32],
        r.decode@.len() == 0,
        !r.verbose,
{
    let first: [u32; 3] = [0, 1, 2];
    let second: [u32; 1] = [3];
    let r = polarity_table(first.as_slice(), second.as_slice());
    assert(r.encode@[0]@ =~= seq![0u32, 1u32, 2u32]);
    assert(r.encode@[1]@ =~= seq![3u32]);
    r
}

/// The histogram of the four-symbol experiments: 1, 2, 4 and 8 for the
/// symbols 0 to 3.
pub fn quat_frequencies() -> (r: SymbolFrequencies)
    ensures
        r@ == four_symbols(1, 2, 4, 8),
        r.total() == 15,
{
    proof {
        lemma_four_symbols_sum(1, 2, 4, 8);
    }
    four_symbol_frequencies(1, 2, 4, 8)
}

/// The uniform table for the four-symbol histogram.
pub fn quat_encoder_a() -> (r: ANSTableUniform)
    ensures
        r.frequencies@ == four_symbols(1, 2, 4, 8),
        r.m() == 15,
        r.wf(),
        r.uniform(7),
        !r.verbose,
{
    ANSTableUniform::new(quat_frequencies())
}

/// The uniform table for the four-symbol histogram with every accumulator
/// started at `phase`.
pub fn phased_quat_encoder(phase: u32) -> (r: ANSTableUniform)
    requires
        phase < 15,
    ensures
        r.frequencies@ == four_symbols(1, 2, 4, 8),
        r.m() == 15,
        r.wf(),
        r.uniform(phase as int),
        !r.verbose,
{
    let freqs = quat_frequencies();
    let (encode, decode) = ANSTableUniform::build_tables(&freqs.frequencies, 15, phase);
    ANSTableUniform { frequencies: freqs.frequencies, sum_frequencies: 15, encode, decode, verbose: false }
}

/// The uniform table for the four-symbol histogram with every accumulator
/// started at zero.
pub fn quat_encoder_e() -> (r: ANSTableUniform)
    ensures
        r.frequencies@ == four_symbols(1, 2, 4, 8),
        r.m() == 15,
        r.wf(),
        r.uniform(0),
        !r.verbose,
{
    phased_quat_encoder(0)
}

/// The rows of `encode` are those of a range table over the symbols before
/// the first one that never occurs: row `s` holds `freqs[s]` consecutive
/// slots that start at `first(s)`.
pub open spec fn is_range_table(
    freqs: Seq<u32>,
    encode: Seq<Vec<u32>>,
    first: spec_fn(int) -> int,
) -> bool {
    &&& encode.len() <= 256
    &&& forall|s: int| 0 <= s < encode.len() ==> freqs[s] > 0
    &&& encode.len() == 256 || freqs[encode.len() as int] == 0
    &&& forall|s: int| 0 <= s < encode.len() ==> (#[trigger] encode[s])@.len() == freqs[s]
    &&& forall|s: int, p: int|
        0 <= s < encode.len() && 0 <= p < freqs[s] ==> #[trigger] encode[s]@[p] == first(s) + p
}

/// The range table in which the symbols own consecutive blocks of slots
/// from zero upwards.
pub fn generate_range_encoder_increasing(freqs: &SymbolFrequencies) -> (encode: Vec<Vec<u32>>)
    requires
        freqs.total() <= u32::MAX,
    ensures
        is_range_table(freqs@, encode@, |s: int| sum_of(freqs@.take(s))),
{
    let ghost f = freqs@;
    let mut encode: Vec<Vec<u32>> = Vec::new();
    let mut cursor: u32 = 0;
    let mut symbol: usize = 0;
    assert(f.take(0) =~= Seq::<u32>::empty());
    while symbol < 256 && freqs.frequencies[symbol] >= 1
        invariant
            symbol <= 256,
            f == freqs@,
            sum_of(f) <= u32::MAX,
            encode@.len() == symbol,
            cursor == sum_of(f.take(symbol as int)),
            forall|s: int| 0 <= s < symbol ==> f[s] > 0,
            forall|s: int| 0 <= s < symbol ==> (#[trigger] encode@[s])@.len() == f[s],
            forall|s: int, p: int|
                0 <= s < symbol && 0 <= p < f[s] ==> #[trigger] encode@[s]@[p] == sum_of(
                    f.take(s),
                ) + p,
        decreases 256 - symbol,
    {
        let freq: u32 = freqs.frequencies[symbol];
        let ghost start = cursor;
        proof {
            lemma_sum_prefix(f, symbol + 1);
            assert(f.take(symbol + 1).drop_last() =~= f.take(symbol as int));
        }
        let mut nexts: Vec<u32> = Vec::new();
        let mut k: u32 = 0;
        while k < freq
            invariant
                k <= freq,
                start + freq <= u32::MAX,
                cursor == start + k,
                nexts@.len() == k,
                forall|p: int| 0 <= p < k ==> nexts@[p] == start + p,
            decreases freq - k,
        {
            nexts.push(cursor);
            cursor = cursor + 1;
            k = k + 1;
        }
        encode.push(nexts);
        symbol = symbol + 1;
    }
    encode
}

/// The range table in which the symbols own consecutive blocks of slots
/// from the top of the state space downwards; within a block the slots
/// still grow with the phase.
pub fn generate_range_encoder_semidecreasing(freqs: &SymbolFrequencies) -> (encode: Vec<Vec<u32>>)
    requires
        freqs.total() <= u32::MAX,
    ensures
        is_range_table(freqs@, encode@, |s: int| sum_of(freqs@) - sum_of(freqs@.take(s + 1))),
{
    let ghost f = freqs@;
    let mut encode: Vec<Vec<u32>> = Vec::new();
    let mut cursor: u32 = total_frequency(&freqs.frequencies);
    let mut symbol: usize = 0;
    assert(f.take(0) =~= Seq::<u32>::empty());
    while symbol < 256 && freqs.frequencies[symbol] >= 1
        invariant
            symbol <= 256,
            f == freqs@,
            sum_of(f) <= u32::MAX,
            encode@.len() == symbol,
            cursor == sum_of(f) - sum_of(f.take(symbol as int)),
            forall|s: int| 0 <= s < symbol ==> f[s] > 0,
            forall|s: int| 0 <= s < symbol ==> (#[trigger] encode@[s])@.len() == f[s],
            forall|s: int, p: int|
                0 <= s < symbol && 0 <= p < f[s] ==> #[trigger] encode@[s]@[p] == sum_of(f)
                    - sum_of(f.take(s + 1)) + p,
        decreases 256 - symbol,
    {
        let freq: u32 = freqs.frequencies[symbol];
        proof {
            lemma_sum_prefix(f, symbol + 1);
            assert(f.take(symbol + 1).drop_last() =~= f.take(symbol as int));
        }
        let mut nexts: Vec<u32> = Vec::new();
        let mut i: u32 = 0;
        while i < freq
            invariant
                i <= freq <= cursor,
                nexts@.len() == i,
                forall|p: int| 0 <= p < i ==> nexts@[p] == cursor - freq + p,
            decreases freq - i,
        {
            let x: u32 = cursor - freq + i;
            nexts.push(x);
            i = i + 1;
        }
        cursor = cursor - freq;
        encode.push(nexts);
        symbol = symbol + 1;
    }
    encode
}

/// The four-symbol range table with blocks from zero upwards.  It has no
/// decode table.
pub fn quat_encoder_b() -> (r: ANSTableUniform)
    ensures
        r.frequencies@ == four_symbols(1, 2, 4, 8),
        r.sum_frequencies == 15,
        is_range_table(r.frequencies@, r.encode@, |s: int| sum_of(r.frequencies@.take(s))),
        r.decode@.len() == 0,
        !r.verbose,
{
    let freqs = quat_frequencies();
    let sum_frequencies = total_frequency(&freqs.frequencies);
    let encode = generate_range_encoder_increasing(&freqs);
    ANSTableUniform {
        frequencies: freqs.frequencies,
        sum_frequencies,
        encode,
        decode: Vec::new(),
        verbose: false,
    }
}

/// The four-symbol range table with blocks from the top downwards.  It
/// has no decode table.
pub fn quat_encoder_c() -> (r: ANSTableUniform)
    ensures
        r.frequencies@ == four_symbols(1, 2, 4, 8),
        r.sum_frequencies == 15,
        is_range_table(
            r.frequencies@,
            r.encode@,
            |s: int| sum_of(r.frequencies@) - sum_of(r.frequencies@.take(s + 1)),
        ),
        r.decode@.len() == 0,
        !r.verbose,
{
    let freqs = quat_frequencies();
    let sum_frequencies = total_frequency(&freqs.frequencies);
    let encode = generate_range_encoder_semidecreasing(&freqs);
    ANSTableUniform {
        frequencies: freqs.frequencies,
        sum_frequencies,
        encode,
        decode: Vec::new(),
        verbose: false,
    }
}

/// The four-symbol uniform table mirrored: slot `v` becomes `14 - v`, and
/// every row is put back in growing order.  The decode table is that of
/// the table before mirroring.
pub fn quat_encoder_d() -> (r: ANSTableUniform)
    ensures
        r.frequencies@ == four_symbols(1, 2, 4, 8),
        r.sum_frequencies == 15,
        r.encode@.len() == 256,
        exists|base: ANSTableUniform|
            {
                &&& #[trigger] base.uniform(7)
                &&& base.wf()
                &&& base.frequencies@ == r.frequencies@
                &&& base.decode == r.decode
                &&& forall|s: u8| #[trigger] r.encode@[s as int]@.len() == base.freq(s)
                &&& forall|s: u8, p: int|
                    0 <= p < base.freq(s) ==> #[trigger] r.slot(s, p) == 14 - base.slot(
                        s,
                        base.freq(s) - 1 - p,
                    )
            },
        !r.verbose,
{
    let base = quat_encoder_a();
    let mut encode: Vec<Vec<u32>> = Vec::new();
    let mut symbol: usize = 0;
    while symbol < 256
        invariant
            symbol <= 256,
            base.wf(),
            base.m() == 15,
            encode@.len() == symbol,
            forall|s: int| 0 <= s < symbol ==> (#[trigger] encode@[s])@.len() == base.freq(s as u8),
            forall|s: int, p: int|
                0 <= s < symbol && 0 <= p < base.freq(s as u8) ==> #[trigger] encode@[s]@[p] == 14
                    - base.slot(s as u8, base.freq(s as u8) - 1 - p),
        decreases 256 - symbol,
    {
        let per_symbol = &base.encode[symbol];
        let len: usize = per_symbol.len();
        assert(base.encode@[symbol as u8 as int]@.len() == base.freq(symbol as u8));
        let mut flipped: Vec<u32> = Vec::new();
        let mut k: usize = 0;
        while k < len
            invariant
                k <= len,
                symbol < 256,
                base.wf(),
                base.m() == 15,
                len == base.freq(symbol as u8),
                per_symbol@ == base.encode@[symbol as int]@,
                flipped@.len() == k,
                forall|p: int|
                    0 <= p < k ==> flipped@[p] == 14 - base.slot(symbol as u8, len - 1 - p),
            decreases len - k,
        {
            let next: u32 = per_symbol[len - 1 - k];
            assert(0 <= base.slot(symbol as u8, len - 1 - k) < base.m());
            flipped.push(base.sum_frequencies - next - 1);
            k = k + 1;
        }
        encode.push(flipped);
        symbol = symbol + 1;
    }
    let r = ANSTableUniform {
        frequencies: base.frequencies,
        sum_frequencies: base.sum_frequencies,
        encode,
        decode: base.decode,
        verbose: false,
    };
    proof {
        assert forall|s: u8| #[trigger] r.encode@[s as int]@.len() == base.freq(s) by {
            assert(encode@[s as int]@.len() == base.freq(s as int as u8));
        }
        assert forall|s: u8, p: int| 0 <= p < base.freq(s) implies #[trigger] r.slot(s, p) == 14
            - base.slot(s, base.freq(s) - 1 - p) by {
            assert(encode@[s as int]@[p] == 14 - base.slot(
                s as int as u8,
                base.freq(s as int as u8) - 1 - p,
            ));
        }
    }
    r
}

/// A four-symbol table laid out by hand.  It has no decode table.
pub fn quat_encoder_f() -> (r: ANSTableUniform)
    ensures
        r.frequencies@ == four_symbols(1, 2, 4, 8),
        r.sum_frequencies == 15,
        r.encode@.len() == 4,
        r.encode@[0]@ == seq![0u32],
        r.encode@[1]@ == seq![5u32, 9u32],
        r.encode@[2]@ == seq![2u32, 7u32, 11u32, 13u32],
        r.encode@[3]@ == seq![1u32, 3u32, 4u32, 6u32, 8u32, 10u32, 12u32, 14u32],
        r.decode@.len() == 0,
        !r.verbose,
{
    let freqs = quat_frequencies();
    let sum_frequencies = total_frequency(&freqs.frequencies);
    let row0: [u32; 1] = [0];
    let row1: [u32; 2] = [5, 9];
    let row2: [u32; 4] = [2, 7, 11, 13];
    let row3: [u32; 8] = [1, 3, 4, 6, 8, 10, 12, 14];
    let mut encode: Vec<Vec<u32>> = Vec::new();
    encode.push(row(row0.as_slice()));
    encode.push(row(row1.as_slice()));
    encode.push(row(row2.as_slice()));
    encode.push(row(row3.as_slice()));
    assert(encode@[0]@ =~= seq![0u32]);
    assert(encode@[1]@ =~= seq![5u32, 9u32]);
    assert(encode@[2]@ =~= seq![2u32, 7u32, 11u32, 13u32]);
    assert(encode@[3]@ =~= seq![1u32, 3u32, 4u32, 6u32, 8u32, 10u32, 12u32, 14u32]);
    ANSTableUniform {
        frequencies: freqs.frequencies,
        sum_frequencies,
        encode,
        decode: Vec::new(),
        verbose: false,
    }
}

/// The histogram that gives frequency one to every symbol of `message`
/// and zero to the others.
pub fn build_flat_frequencies(message: &[u8]) -> (frequencies: [u32; 256])
    ensures
        forall|s: u8|
            frequencies@[s as int] == if message@.contains(s) {
                1u32
            } else {
                0u32
            },
{
    let mut frequencies: [u32; 256] = [0;256];
    let mut i: usize = 0;
    while i < message.len()
        invariant
            i <= message@.len(),
            forall|s: u8|
                frequencies@[s as int] == if message@.take(i as int).contains(s) {
                    1u32
                } else {
                    0u32
                },
        decreases message@.len() - i,
    {
        let symbol: u8 = message[i];
        let ghost before = frequencies@;
        frequencies[symbol as usize] = 1;
        proof {
            let shorter = message@.take(i as int);
            let longer = message@.take(i + 1);
            assert(longer =~= shorter.push(symbol));
            assert forall|s: u8|
                frequencies@[s as int] == if longer.contains(s) {
                    1u32
                } else {
                    0u32
                } by {
                assert(longer[i as int] == symbol);
                if shorter.contains(s) {
                    let w = choose|w: int| 0 <= w < shorter.len() && shorter[w] == s;
                    assert(longer[w] == s);
                }
                if longer.contains(s) && s != symbol {
                    let w = choose|w: int| 0 <= w < longer.len() && longer[w] == s;
                    assert(shorter[w] == s);
                }
            }
        }
        i = i + 1;
    }
    assert(message@.take(i as int) =~= message@);
    frequencies
}

/// Appends the symbols of `message` in turn to the state 1.
pub fn simple_encode(ansu: &ANSTableUniform, message: &[u8]) -> (x: u64)
    requires
        foldable(*ansu, message@, 1),
    ensures
        x == folded(*ansu, message@, 1),
{
    let mut x: u64 = 1;
    let mut i: usize = 0;
    assert(message@.take(0) =~= Seq::<u8>::empty());
    while i < message.len()
        invariant
            i <= message@.len(),
            foldable(*ansu, message@, 1),
            x == folded(*ansu, message@.take(i as int), 1),
        decreases message@.len() - i,
    {
        proof {
            assert(message@.take(i + 1).drop_last() =~= message@.take(i as int));
            assert(ansu.step_fits(
                folded(*ansu, message@.take(i as int), 1),
                message@[i as int],
                u64::MAX as int,
            ));
        }
        x = ansu.append_encode64(x, message[i]);
        i = i + 1;
    }
    assert(message@.take(i as int) =~= message@);
    x
}

/// Takes symbols off `val` until it has run down to one, and returns them
/// in the order in which they were appended.
pub fn simple_decode(ans_table: &ANSTableUniform, val: u64) -> (r: Vec<u8>)
    requires
        ans_table.wf(),
        ans_table.m() > 0,
    ensures
        r@ == unfolded(*ans_table, val as int),
{
    let mut backwards: Vec<u8> = Vec::new();
    let mut x: u64 = val;
    let mut stalled: bool = false;
    assert(unfolded(*ans_table, val as int) + backwards@.reverse() =~= unfolded(
        *ans_table,
        val as int,
    ));
    while x > 1 && !stalled
        invariant
            ans_table.wf(),
            ans_table.m() > 0,
            stalled ==> unfolded(*ans_table, x as int) =~= Seq::<u8>::empty(),
            unfolded(*ans_table, val as int) == unfolded(*ans_table, x as int) + backwards@.reverse(),
        decreases
                x,
                (if stalled {
                    0int
                } else {
                    1int
                }),
    {
        proof {
            ans_table.lemma_unstep_shrinks(x as int);
        }
        let (symbol, new_val) = ans_table.decode64(x);
        if new_val >= x {
            stalled = true;
        } else {
            proof {
                let rest = unfolded(*ans_table, new_val as int);
                assert(rest.push(symbol) + backwards@.reverse() =~= rest + backwards@.push(
                    symbol,
                ).reverse());
            }
            backwards.push(symbol);
            x = new_val;
        }
    }
    let mut rval: Vec<u8> = Vec::new();
    let mut k: usize = backwards.len();
    while k > 0
        invariant
            k <= backwards@.len(),
            rval@ == backwards@.reverse().take(backwards@.len() - k),
        decreases k,
    {
        k = k - 1;
        rval.push(backwards[k]);
        assert(rval@ =~= backwards@.reverse().take(backwards@.len() - k));
    }
    proof {
        assert(rval@ =~= backwards@.reverse());
        assert(unfolded(*ans_table, x as int) =~= Seq::<u8>::empty());
        assert(Seq::<u8>::empty() + backwards@.reverse() =~= backwards@.reverse());
    }
    rval
}

/// Taking the symbols off again gives the message back: on a complete
/// table, for a message over the alphabet whose first symbol moves the
/// state 1, the symbols that come off the folded state are those of the
/// message.
pub proof fn simple_round_trip(table: ANSTableUniform, message: Seq<u8>)
    requires
        table.wf(),
        forall|i: int| 0 <= i < message.len() ==> table.freq(#[trigger] message[i]) > 0,
        message.len() == 0 || table.step(1, message[0]) != 1,
    ensures
        folded(table, message, 1) >= 1,
        message.len() > 0 ==> folded(table, message, 1) > 1,
        unfolded(table, folded(table, message, 1)) == message,
    decreases message.len(),
{
    if message.len() > 0 {
        let prev = message.drop_last();
        let symbol = message.last();
        assert(table.freq(symbol) > 0) by {
            assert(symbol == message[message.len() - 1]);
        }
        assert forall|i: int| 0 <= i < prev.len() implies table.freq(#[trigger] prev[i]) > 0 by {
            assert(prev[i] == message[i]);
        }
        assert(prev.len() > 0 ==> prev[0] == message[0]);
        simple_round_trip(table, prev);
        let x = folded(table, prev, 1);
        if prev.len() > 0 {
            let before = folded(table, prev.drop_last(), 1);
            let moved_by = prev.last();
            assert(table.freq(moved_by) > 0) by {
                assert(moved_by == prev[prev.len() - 1]);
            }
            assert forall|i: int| 0 <= i < prev.drop_last().len() implies table.freq(
                #[trigger] prev.drop_last()[i],
            ) > 0 by {
                assert(prev.drop_last()[i] == message[i]);
            }
            assert(prev.drop_last().len() > 0 ==> prev.drop_last()[0] == message[0]);
            simple_round_trip(table, prev.drop_last());
            table.lemma_step_grows(before, before, moved_by);
            table.lemma_moved_state_moves(before, moved_by, symbol);
        }
        table.lemma_step_grows(x, x, symbol);
        table.step_round_trip(x, symbol);
        assert(unfolded(table, x).push(symbol) =~= message);
    } else {
        assert(unfolded(table, 1) =~= message);
    }
}

/// A value below `2^n` has at most `n` binary digits.
pub proof fn lemma_bit_length_bound(x: int, n: nat)
    requires
        0 <= x < vstd::arithmetic::power2::pow2(n),
    ensures
        bit_length(x) <= n,
    decreases n,
{
    vstd::arithmetic::power2::lemma2_to64();
    if x > 0 {
        if n == 0 {
        } else {
            vstd::arithmetic::power2::lemma_pow2_unfold(n);
            lemma_bit_length_bound(x / 2, (n - 1) as nat);
        }
    }
}

/// The number of binary digits of `val`.
pub fn count_bits(val: u64) -> (r: u32)
    ensures
        r == bit_length(val as int),
        r <= 64,
{
    let mut rest: u64 = val;
    let mut rval: u32 = 0;
    proof {
        vstd::arithmetic::power2::lemma2_to64_rest();
        lemma_bit_length_bound(val as int, 64);
    }
    while rest != 0
        invariant
            rval + bit_length(rest as int) == bit_length(val as int),
            bit_length(val as int) <= 64,
        decreases rest,
    {
        let ghost before = rest;
        rest = rest >> 1;
        assert(rest == before / 2) by (bit_vector)
            requires
                rest == before >> 1,
        ;
        rval = rval + 1;
    }
    rval
}

} // verus!
