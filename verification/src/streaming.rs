//! The streaming codec: a bounded-state encoder and decoder over one
//! table, and the mathematical model that their contracts are stated in.
use crate::frequencies::SymbolFrequencies;
use crate::table::ANSTableUniform;
use vstd::arithmetic::div_mod::lemma_div_denominator;
use vstd::arithmetic::power2::{lemma2_to64, lemma_pow2_adds, lemma_pow2_pos, pow2};
use vstd::bits::{lemma_u64_pow2_no_overflow, lemma_u64_shl_is_mul, lemma_u64_shr_is_div};
use vstd::prelude::*;

verus! {

/// A table together with the streaming parameters: the decoder refills its
/// state while it has fewer than `underflow_bits` significant bits, and
/// both sides move `bytes_to_stream` bytes at a time.
#[derive(Clone, Debug)]
pub struct StreamingANSUniform {
    pub table: ANSTableUniform,
    pub underflow_bits: u8,
    pub bytes_to_stream: u8,
    pub verbose: bool,
}

/// Why a table cannot be streamed with the chosen parameters.
#[derive(Clone, Copy, Debug, PartialEq, Eq)]
pub enum ParameterError {
    /// `underflow_bits` is smaller than the width of one quantum.
    UnderflowTooSmall,
    /// `underflow_bits` plus two quanta exceed 64 bits.
    WindowTooWide,
    /// One step with this symbol can grow the state by more than one
    /// quantum.
    SymbolOverflow { symbol: u8 },
}

/// Why a byte stream could not be decoded.
#[derive(Clone, Copy, Debug, PartialEq, Eq)]
pub enum DecodeError {
    /// The state ran down to zero before it met the end-of-stream marker.
    EosMissing,
    /// Removing a symbol left the state where it was, so that the marker
    /// can never be met.
    Stalled,
}

/// The `count` low bytes of `x`, least significant first.
pub open spec fn quantum_bytes(x: int, count: nat) -> Seq<u8>
    decreases count,
{
    if count == 0 {
        Seq::empty()
    } else {
        seq![(x % 256) as u8] + quantum_bytes(x / 256, (count - 1) as nat)
    }
}

/// The state and the number of unread bytes after up to `count` bytes
/// have been shifted into `x` from the end of the first `n` bytes of
/// `stream`.
pub open spec fn refill(stream: Seq<u8>, n: int, x: int, count: nat) -> (int, int)
    decreases count,
{
    if count == 0 || n <= 0 {
        (x, n)
    } else {
        refill(stream, n - 1, x * 256 + stream[n - 1], (count - 1) as nat)
    }
}

/// `symbol` put in front of the output of a successful run.
pub open spec fn prepend(symbol: u8, rest: Result<Seq<u8>, DecodeError>) -> Result<
    Seq<u8>,
    DecodeError,
> {
    match rest {
        Ok(tail) => Ok(seq![symbol] + tail),
        Err(e) => Err(e),
    }
}

/// The streaming parameters are consistent and leave room for the shifts.
pub open spec fn params_fit(underflow_bits: u8, bytes_to_stream: u8) -> bool {
    &&& underflow_bits >= 8 * bytes_to_stream
    &&& underflow_bits + 16 * bytes_to_stream <= 64
    &&& underflow_bits + 8 * bytes_to_stream < 64
}

/// One step with `symbol` from the largest state of the window stays
/// within one more quantum.
pub open spec fn symbol_fits(
    table: ANSTableUniform,
    underflow_bits: u8,
    bytes_to_stream: u8,
    symbol: u8,
) -> bool {
    ((pow2((underflow_bits + 8 * bytes_to_stream) as nat) - 1) / table.freq(symbol)) * table.m()
        + table.slot(symbol, table.freq(symbol) - 1) < pow2(
        (underflow_bits + 16 * bytes_to_stream) as nat,
    )
}

/// The parameters suit the table: they are consistent, and every symbol
/// of the alphabet fits.
pub open spec fn balanced(table: ANSTableUniform, underflow_bits: u8, bytes_to_stream: u8) -> bool {
    &&& params_fit(underflow_bits, bytes_to_stream)
    &&& forall|s: u8|
        table.freq(s) > 0 ==> #[trigger] symbol_fits(table, underflow_bits, bytes_to_stream, s)
}

impl StreamingANSUniform {
    /// `2^U`: below this the decoder refills.
    pub open spec fn low_water(&self) -> int {
        pow2(self.underflow_bits as nat) as int
    }

    /// `2^(U+S)`: the encoder keeps its state below this.
    pub open spec fn high_water(&self) -> int {
        pow2((self.underflow_bits + 8 * self.bytes_to_stream) as nat) as int
    }

    /// `2^S`: the number of values of one quantum.
    pub open spec fn quantum(&self) -> int {
        pow2((8 * self.bytes_to_stream) as nat) as int
    }

    /// The parameters allow the shifts of encoder and decoder, and a
    /// quantum is at least one byte wide.
    pub open spec fn usable(&self) -> bool {
        &&& params_fit(self.underflow_bits, self.bytes_to_stream)
        &&& self.bytes_to_stream >= 1
    }

    /// The codec is valid: a complete table, parameters that suit it, and
    /// a quantum of at least one byte.
    pub open spec fn wf(&self) -> bool {
        &&& self.table.wf()
        &&& balanced(self.table, self.underflow_bits, self.bytes_to_stream)
        &&& self.bytes_to_stream >= 1
    }

    /// The state and output after `symbol` has been absorbed into state
    /// `x`: where the step would leave the window, one quantum of `x` is
    /// spilled first.
    pub open spec fn absorb(&self, x: int, out: Seq<u8>, symbol: u8) -> (int, Seq<u8>) {
        if self.table.step(x, symbol) >= self.high_water() {
            (
                self.table.step(x / self.quantum(), symbol),
                out + quantum_bytes(x, self.bytes_to_stream as nat),
            )
        } else {
            (self.table.step(x, symbol), out)
        }
    }

    /// The state and output after all of `message_backwards` has been
    /// absorbed, starting from `initial_value`.
    pub open spec fn absorbed(&self, message_backwards: Seq<u8>, initial_value: int) -> (
        int,
        Seq<u8>,
    )
        decreases message_backwards.len(),
    {
        if message_backwards.len() == 0 {
            (initial_value, Seq::empty())
        } else {
            let (x, out) = self.absorbed(message_backwards.drop_last(), initial_value);
            self.absorb(x, out, message_backwards.last())
        }
    }

    /// `out` followed by the quanta of `x`, lowest first, down to the last
    /// one that is not zero.
    pub open spec fn flushed(&self, x: int, out: Seq<u8>) -> Seq<u8>
        decreases x,
        when self.bytes_to_stream >= 1
        via Self::flushed_decreases
    {
        if x <= 0 {
            out
        } else {
            self.flushed(x / self.quantum(), out + quantum_bytes(x, self.bytes_to_stream as nat))
        }
    }

    #[via_fn]
    proof fn flushed_decreases(&self, x: int, out: Seq<u8>) {
        if x > 0 {
            lemma_quantum_at_least_two(self.bytes_to_stream as nat);
            let q = self.quantum();
            assert(0 <= x / q < x) by (nonlinear_arith)
                requires
                    x > 0,
                    q >= 2,
            ;
        }
    }

    /// The bytes that encoding `message_backwards` from `initial_value`
    /// produces.
    pub open spec fn encoded(&self, message_backwards: Seq<u8>, initial_value: int) -> Seq<u8> {
        let (x, out) = self.absorbed(message_backwards, initial_value);
        self.flushed(x, out)
    }

    /// Whether absorbing `symbol` into state `x` stays within 64 bits, in
    /// the step and, where a quantum is spilled, in the step after it.
    pub open spec fn absorb_fits(&self, x: int, symbol: u8) -> bool {
        &&& self.table.step_fits(x, symbol, u64::MAX as int)
        &&& self.table.step(x, symbol) >= self.high_water() ==> self.table.step_fits(
            x / self.quantum(),
            symbol,
            u64::MAX as int,
        )
    }

    /// Whether every symbol of `message_backwards` can be absorbed in
    /// turn: each belongs to the alphabet and no step leaves 64 bits.
    pub open spec fn encodable(&self, message_backwards: Seq<u8>, initial_value: int) -> bool {
        forall|i: int|
            0 <= i < message_backwards.len() ==> self.absorb_fits(
                (#[trigger] self.absorbed(message_backwards.take(i), initial_value)).0,
                message_backwards[i],
            )
    }

    /// The state and the number of unread bytes once the decoder has
    /// refilled `x` from the first `n` bytes of `stream` until it holds at
    /// least `underflow_bits` bits or nothing is left.
    pub open spec fn primed(&self, stream: Seq<u8>, n: int, x: int) -> (int, int)
        decreases n,
        when self.bytes_to_stream >= 1
        via Self::primed_decreases
    {
        if x < self.low_water() && n > 0 {
            let (x1, n1) = refill(stream, n, x, self.bytes_to_stream as nat);
            self.primed(stream, n1, x1)
        } else {
            (x, n)
        }
    }

    #[via_fn]
    proof fn primed_decreases(&self, stream: Seq<u8>, n: int, x: int) {
        if x < self.low_water() && n > 0 {
            lemma_refill_consumes(stream, n, x, self.bytes_to_stream as nat);
        }
    }

    /// The symbols that the final drain removes from `x` until it meets
    /// `eos_marker`.
    pub open spec fn tail(&self, x: int, eos_marker: int) -> Result<Seq<u8>, DecodeError>
        decreases x,
    {
        if x == eos_marker {
            Ok(Seq::empty())
        } else {
            let (symbol, x2) = self.table.unstep(x);
            if x2 < 1 {
                Err(DecodeError::EosMissing)
            } else if x2 >= x {
                Err(DecodeError::Stalled)
            } else {
                prepend(symbol, self.tail(x2, eos_marker))
            }
        }
    }

    /// The symbols that the decoder removes from state `x` with the first
    /// `n` bytes of `stream` still unread.
    pub open spec fn unwound(&self, stream: Seq<u8>, n: int, x: int, eos_marker: int) -> Result<
        Seq<u8>,
        DecodeError,
    >
        decreases n, x,
        when self.bytes_to_stream >= 1
        via Self::unwound_decreases
    {
        if x < self.low_water() && n <= 0 {
            self.tail(x, eos_marker)
        } else {
            let (x1, n1) = if x < self.low_water() {
                refill(stream, n, x, self.bytes_to_stream as nat)
            } else {
                (x, n)
            };
            let (symbol, x2) = self.table.unstep(x1);
            if n1 == n && !(0 <= x2 < x1) {
                Err(DecodeError::Stalled)
            } else {
                prepend(symbol, self.unwound(stream, n1, x2, eos_marker))
            }
        }
    }

    #[via_fn]
    proof fn unwound_decreases(&self, stream: Seq<u8>, n: int, x: int, eos_marker: int) {
        if x < self.low_water() && n > 0 {
            lemma_refill_consumes(stream, n, x, self.bytes_to_stream as nat);
        }
    }

    /// What decoding `stream` with `eos_marker` gives.
    pub open spec fn decoded(&self, stream: Seq<u8>, eos_marker: int) -> Result<
        Seq<u8>,
        DecodeError,
    > {
        let (x, n) = self.primed(stream, stream.len() as int, 0);
        self.unwound(stream, n, x, eos_marker)
    }
}

/// The lowest symbol below `upto` that belongs to the alphabet and does
/// not fit, if there is one.
pub open spec fn first_unfit(
    table: ANSTableUniform,
    underflow_bits: u8,
    bytes_to_stream: u8,
    upto: int,
) -> Option<u8>
    decreases upto,
{
    if upto <= 0 {
        None
    } else {
        match first_unfit(table, underflow_bits, bytes_to_stream, upto - 1) {
            Some(s) => Some(s),
            None => if table.freq((upto - 1) as u8) > 0 && !symbol_fits(
                table,
                underflow_bits,
                bytes_to_stream,
                (upto - 1) as u8,
            ) {
                Some((upto - 1) as u8)
            } else {
                None
            },
        }
    }
}

/// The outcome of the pre-flight check: the first of its three tests that
/// fails, with the lowest offending symbol for the third.
pub open spec fn verdict(table: ANSTableUniform, underflow_bits: u8, bytes_to_stream: u8) -> Result<
    (),
    ParameterError,
> {
    if underflow_bits < 8 * bytes_to_stream {
        Err(ParameterError::UnderflowTooSmall)
    } else if !params_fit(underflow_bits, bytes_to_stream) {
        Err(ParameterError::WindowTooWide)
    } else {
        match first_unfit(table, underflow_bits, bytes_to_stream, 256) {
            Some(symbol) => Err(ParameterError::SymbolOverflow { symbol }),
            None => Ok(()),
        }
    }
}

/// No symbol below `upto` is unfit exactly when all of them fit.
pub proof fn lemma_first_unfit(
    table: ANSTableUniform,
    underflow_bits: u8,
    bytes_to_stream: u8,
    upto: int,
)
    requires
        0 <= upto <= 256,
    ensures
        first_unfit(table, underflow_bits, bytes_to_stream, upto) is None <==> forall|s: u8|
            s < upto && table.freq(s) > 0 ==> #[trigger] symbol_fits(
                table,
                underflow_bits,
                bytes_to_stream,
                s,
            ),
    decreases upto,
{
    if upto > 0 {
        lemma_first_unfit(table, underflow_bits, bytes_to_stream, upto - 1);
        let last = (upto - 1) as u8;
        if first_unfit(table, underflow_bits, bytes_to_stream, upto) is None {
            assert forall|s: u8| s < upto && table.freq(s) > 0 implies #[trigger] symbol_fits(
                table,
                underflow_bits,
                bytes_to_stream,
                s,
            ) by {
                if s != last {
                    assert(s < upto - 1);
                }
            }
        } else if first_unfit(table, underflow_bits, bytes_to_stream, upto - 1) is None {
            assert(table.freq(last) > 0 && !symbol_fits(
                table,
                underflow_bits,
                bytes_to_stream,
                last,
            ));
        }
    }
}

/// Once a symbol has been found unfit, looking at more symbols does not
/// change the answer.
pub proof fn lemma_first_unfit_stays(
    table: ANSTableUniform,
    underflow_bits: u8,
    bytes_to_stream: u8,
    from: int,
    upto: int,
)
    requires
        0 <= from <= upto,
        first_unfit(table, underflow_bits, bytes_to_stream, from) is Some,
    ensures
        first_unfit(table, underflow_bits, bytes_to_stream, upto) == first_unfit(
            table,
            underflow_bits,
            bytes_to_stream,
            from,
        ),
    decreases upto - from,
{
    if from < upto {
        lemma_first_unfit_stays(table, underflow_bits, bytes_to_stream, from, upto - 1);
    }
}

/// The outcome of a construction without the codec that it built.
pub open spec fn checked(r: Result<StreamingANSUniform, ParameterError>) -> Result<
    (),
    ParameterError,
> {
    match r {
        Ok(_) => Ok(()),
        Err(e) => Err(e),
    }
}

/// The pre-flight check depends on the frequencies and the slots alone.
pub proof fn lemma_verdict_same(
    table: ANSTableUniform,
    other: ANSTableUniform,
    underflow_bits: u8,
    bytes_to_stream: u8,
)
    requires
        table.frequencies@ == other.frequencies@,
        table.m() == other.m(),
        forall|s: u8, p: int|
            0 <= p < table.freq(s) ==> #[trigger] table.slot(s, p) == other.slot(s, p),
    ensures
        verdict(table, underflow_bits, bytes_to_stream) == verdict(
            other,
            underflow_bits,
            bytes_to_stream,
        ),
{
    lemma_first_unfit_same(table, other, underflow_bits, bytes_to_stream, 256);
}

proof fn lemma_first_unfit_same(
    table: ANSTableUniform,
    other: ANSTableUniform,
    underflow_bits: u8,
    bytes_to_stream: u8,
    upto: int,
)
    requires
        table.frequencies@ == other.frequencies@,
        table.m() == other.m(),
        forall|s: u8, p: int|
            0 <= p < table.freq(s) ==> #[trigger] table.slot(s, p) == other.slot(s, p),
        0 <= upto <= 256,
    ensures
        first_unfit(table, underflow_bits, bytes_to_stream, upto) == first_unfit(
            other,
            underflow_bits,
            bytes_to_stream,
            upto,
        ),
    decreases upto,
{
    if upto > 0 {
        lemma_first_unfit_same(table, other, underflow_bits, bytes_to_stream, upto - 1);
        let s = (upto - 1) as u8;
        if table.freq(s) > 0 {
            assert(table.slot(s, table.freq(s) - 1) == other.slot(s, table.freq(s) - 1));
        }
    }
}

/// The pre-flight check passes exactly for balanced parameters.
pub proof fn lemma_verdict(table: ANSTableUniform, underflow_bits: u8, bytes_to_stream: u8)
    ensures
        verdict(table, underflow_bits, bytes_to_stream) is Ok <==> balanced(
            table,
            underflow_bits,
            bytes_to_stream,
        ),
{
    lemma_first_unfit(table, underflow_bits, bytes_to_stream, 256);
}

/// `x` shifted right by `bits`.
pub(crate) fn shift_right(x: u64, bits: u8) -> (r: u64)
    requires
        bits < 64,
    ensures
        r == x as int / pow2(bits as nat) as int,
        r != 0 <==> x >= pow2(bits as nat),
{
    proof {
        lemma_u64_shr_is_div(x, bits as u64);
        lemma_pow2_pos(bits as nat);
        let d = pow2(bits as nat) as int;
        let xi = x as int;
        assert((xi / d != 0) <==> xi >= d) by (nonlinear_arith)
            requires
                0 <= xi,
                0 < d,
        ;
    }
    x >> (bits as u64)
}

/// `2^bits` as a 64-bit value.
pub(crate) fn power_of_two(bits: u8) -> (r: u64)
    requires
        bits < 64,
    ensures
        r == pow2(bits as nat),
{
    proof {
        lemma_u64_pow2_no_overflow(bits as nat);
        lemma_u64_shl_is_mul(1, bits as u64);
    }
    1u64 << (bits as u64)
}

/// `2^bits` as a 128-bit value.
fn wide_power_of_two(bits: u8) -> (r: u128)
    requires
        bits <= 64,
    ensures
        r == pow2(bits as nat),
{
    if bits == 64 {
        proof {
            vstd::arithmetic::power2::lemma2_to64_rest();
        }
        0x1_0000_0000_0000_0000u128
    } else {
        power_of_two(bits) as u128
    }
}

/// The low byte of `x`.
pub(crate) fn low_byte(x: u64) -> (r: u8)
    ensures
        r == x % 256,
{
    let low: u64 = x & 0xff;
    assert(low == x % 256) by (bit_vector)
        requires
            low == x & 0xff,
    ;
    low as u8
}

/// `x` with `byte` shifted in below it.
fn shift_in(x: u64, byte: u8) -> (r: u64)
    requires
        x < 0x100_0000_0000_0000,
    ensures
        r == x * 256 + byte,
{
    let wide: u64 = byte as u64;
    let r: u64 = (x << 8) | wide;
    assert(r == x * 256 + wide) by (bit_vector)
        requires
            r == (x << 8) | wide,
            x < 0x100_0000_0000_0000,
            wide < 256,
    ;
    r
}

/// One more byte of a quantum is the next higher byte of the value.
pub proof fn lemma_quantum_bytes_push(x: int, count: nat)
    requires
        0 <= x,
    ensures
        quantum_bytes(x, count + 1) == quantum_bytes(x, count).push(
            ((x / pow2(8 * count) as int) % 256) as u8,
        ),
        quantum_bytes(x, count).len() == count,
    decreases count,
{
    lemma2_to64();
    if count == 0 {
        assert(quantum_bytes(x, 1) =~= seq![(x % 256) as u8] + quantum_bytes(x / 256, 0));
        assert(quantum_bytes(x, 1) =~= quantum_bytes(x, 0).push(((x / 1) % 256) as u8));
    } else {
        let rest = (count - 1) as nat;
        assert(0 <= x / 256) by (nonlinear_arith)
            requires
                0 <= x,
        ;
        lemma_quantum_bytes_push(x / 256, rest);
        lemma_pow2_pos(8 * rest);
        lemma_pow2_adds(8, 8 * rest);
        lemma_div_denominator(x, 256, pow2(8 * rest) as int);
        assert(quantum_bytes(x, count + 1) =~= seq![(x % 256) as u8] + quantum_bytes(
            x / 256,
            count,
        ));
        assert(quantum_bytes(x, count + 1) =~= quantum_bytes(x, count).push(
            ((x / pow2(8 * count) as int) % 256) as u8,
        ));
    }
}

impl StreamingANSUniform {
    /// The pre-flight check: whether `table` can be streamed with the
    /// given parameters without a step ever growing the state by more
    /// than one quantum.
    pub fn check_balance(table: &ANSTableUniform, underflow_bits: u8, bytes_to_stream: u8) -> (r:
        Result<(), ParameterError>)
        requires
            forall|s: u8| table.freq(s) > 0 ==> table.has_symbol(s),
        ensures
            r == verdict(*table, underflow_bits, bytes_to_stream),
            r is Ok <==> balanced(*table, underflow_bits, bytes_to_stream),
    {
        proof {
            lemma_verdict(*table, underflow_bits, bytes_to_stream);
        }
        let bits_to_stream: u32 = 8 * (bytes_to_stream as u32);
        if (underflow_bits as u32) < bits_to_stream {
            return Err(ParameterError::UnderflowTooSmall);
        }
        let max_result_bits: u32 = underflow_bits as u32 + 2 * bits_to_stream;
        if 64 < max_result_bits || underflow_bits as u32 + bits_to_stream >= 64 {
            return Err(ParameterError::WindowTooWide);
        }
        let window_bits: u8 = underflow_bits + 8 * bytes_to_stream;
        proof {
            lemma_pow2_pos(window_bits as nat);
        }
        let max_working_x: u64 = power_of_two(window_bits) - 1;
        let limit: u128 = wide_power_of_two(underflow_bits + 16 * bytes_to_stream);
        let mut symbol: usize = 0;
        while symbol < 256
            invariant
                symbol <= 256,
                params_fit(underflow_bits, bytes_to_stream),
                window_bits == underflow_bits + 8 * bytes_to_stream,
                max_working_x == pow2(window_bits as nat) - 1,
                limit == pow2((underflow_bits + 16 * bytes_to_stream) as nat),
                forall|s: u8| table.freq(s) > 0 ==> table.has_symbol(s),
                first_unfit(*table, underflow_bits, bytes_to_stream, symbol as int) is None,
            decreases 256 - symbol,
        {
            let frequency: u32 = table.frequencies[symbol];
            if frequency != 0 {
                assert(table.has_symbol(symbol as u8));
                let cycle: u64 = max_working_x / (frequency as u64);
                let jump: u32 = table.encode[symbol][(frequency - 1) as usize];
                assert(cycle * table.sum_frequencies + jump <= u128::MAX) by (nonlinear_arith)
                    requires
                        cycle <= u64::MAX,
                        table.sum_frequencies <= u32::MAX,
                        jump <= u32::MAX,
                ;
                let x2: u128 = (cycle as u128) * (table.sum_frequencies as u128) + (jump as u128);
                if x2 >= limit {
                    proof {
                        lemma_first_unfit_stays(
                            *table,
                            underflow_bits,
                            bytes_to_stream,
                            symbol + 1,
                            256,
                        );
                    }
                    return Err(ParameterError::SymbolOverflow { symbol: symbol as u8 });
                }
            }
            symbol = symbol + 1;
        }
        Ok(())
    }

    /// Whether one step with `symbol` can grow the state by more than one
    /// quantum, so that a spill of one quantum may not make room for it:
    /// the state space is larger than the frequency times `2^S`.
    pub fn jumps_quantum(table: &ANSTableUniform, bytes_to_stream: u8, symbol: u8) -> (r: bool)
        ensures
            r == (table.m() > table.freq(symbol) * pow2((8 * bytes_to_stream) as nat)),
    {
        let frequency: u32 = table.frequencies[symbol as usize];
        proof {
            lemma_pow2_pos((8 * bytes_to_stream) as nat);
        }
        if frequency == 0 {
            assert(table.freq(symbol) * pow2((8 * bytes_to_stream) as nat) == 0) by (nonlinear_arith)
                requires
                    table.freq(symbol) == 0,
            ;
            return table.sum_frequencies > 0;
        }
        if bytes_to_stream >= 4 {
            proof {
                lemma2_to64();
                let q = pow2((8 * bytes_to_stream) as nat) as int;
                if bytes_to_stream > 4 {
                    vstd::arithmetic::power2::lemma_pow2_strictly_increases(
                        32,
                        (8 * bytes_to_stream) as nat,
                    );
                }
                let f = frequency as int;
                assert(f * q >= 0x1_0000_0000) by (nonlinear_arith)
                    requires
                        f >= 1,
                        q >= 0x1_0000_0000,
                ;
            }
            return false;
        }
        let quantum: u64 = power_of_two(8 * bytes_to_stream);
        proof {
            lemma2_to64();
            if bytes_to_stream < 3 {
                vstd::arithmetic::power2::lemma_pow2_strictly_increases(
                    (8 * bytes_to_stream) as nat,
                    24,
                );
            }
            assert(frequency * quantum <= u64::MAX) by (nonlinear_arith)
                requires
                    frequency <= u32::MAX,
                    quantum <= 0x100_0000,
            ;
        }
        table.sum_frequencies as u64 > (frequency as u64) * quantum
    }

    /// Builds the uniform table for `freqs` and pairs it with the
    /// streaming parameters, if the pre-flight check accepts them; returns
    /// the outcome of the check otherwise.
    pub fn new(freqs: SymbolFrequencies, underflow_bits: u8, bytes_to_stream: u8) -> (r: Result<
        StreamingANSUniform,
        ParameterError,
    >)
        requires
            freqs.total() <= u32::MAX,
        ensures
            forall|table: ANSTableUniform| #[trigger]
                table.built_from(freqs@) ==> verdict(table, underflow_bits, bytes_to_stream)
                    == checked(r),
            r matches Ok(codec) ==> {
                &&& codec.table.built_from(freqs@)
                &&& codec.underflow_bits == underflow_bits
                &&& codec.bytes_to_stream == bytes_to_stream
                &&& !codec.verbose
                &&& balanced(codec.table, underflow_bits, bytes_to_stream)
            },
    {
        let table = ANSTableUniform::new(freqs);
        assert forall|s: u8| table.freq(s) > 0 implies table.has_symbol(s) by {
            assert(table.encode@[s as int]@.len() == table.freq(s));
        }
        let outcome = StreamingANSUniform::check_balance(&table, underflow_bits, bytes_to_stream);
        proof {
            assert forall|other: ANSTableUniform| #[trigger]
                other.built_from(freqs@) implies verdict(other, underflow_bits, bytes_to_stream)
                == outcome by {
                table.lemma_uniform_unique(other, table.m() / 2);
                lemma_verdict_same(table, other, underflow_bits, bytes_to_stream);
            }
        }
        match outcome {
            Ok(()) => Ok(
                StreamingANSUniform { table, underflow_bits, bytes_to_stream, verbose: false },
            ),
            Err(e) => Err(e),
        }
    }

    /// Moves the lowest quantum of `x` to the end of `sink`.
    fn push_quantum(&self, x: u64, sink: &mut Vec<u8>) -> (r: u64)
        requires
            self.usable(),
        ensures
            r == x as int / self.quantum(),
            final(sink)@ == old(sink)@ + quantum_bytes(x as int, self.bytes_to_stream as nat),
    {
        let mut rest: u64 = x;
        let mut i: u8 = 0;
        proof {
            lemma2_to64();
            assert(pow2(0) == 1);
            assert((8 * i) as nat == 0);
            assert(x as int / 1 == x);
            assert(old(sink)@ + quantum_bytes(x as int, 0) =~= old(sink)@);
        }
        while i < self.bytes_to_stream
            invariant
                i <= self.bytes_to_stream,
                self.usable(),
                rest == x as int / pow2((8 * i) as nat) as int,
                sink@ == old(sink)@ + quantum_bytes(x as int, i as nat),
            decreases self.bytes_to_stream - i,
        {
            let byte = low_byte(rest);
            sink.push(byte);
            proof {
                lemma2_to64();
                let done = (8 * i) as nat;
                lemma_quantum_bytes_push(x as int, i as nat);
                lemma_pow2_pos(done);
                lemma_pow2_adds(done, 8);
                lemma_div_denominator(x as int, pow2(done) as int, 256);
                assert(pow2(done) * 256 == pow2((8 * (i + 1)) as nat));
                assert(sink@ =~= old(sink)@ + quantum_bytes(x as int, (i + 1) as nat));
            }
            rest = shift_right(rest, 8);
            i = i + 1;
        }
        rest
    }

    /// Shifts one quantum from the end of the first `n` bytes of `stream`
    /// into `x`, or as many bytes of it as are left; `None` if none is.
    fn read_quantum(&self, stream: &[u8], n: usize, x: u64) -> (r: Option<(u64, usize)>)
        requires
            self.usable(),
            n <= stream@.len(),
            x < self.low_water(),
        ensures
            n == 0 <==> r is None,
            r matches Some((x1, n1)) ==> (x1 as int, n1 as int) == refill(
                stream@,
                n as int,
                x as int,
                self.bytes_to_stream as nat,
            ) && x1 < self.high_water() && n1 < n,
    {
        if n == 0 {
            return None;
        }
        let mut value: u64 = x;
        let mut left: usize = n;
        let mut i: u8 = 0;
        proof {
            lemma2_to64();
        }
        while i < self.bytes_to_stream && left > 0
            invariant
                i <= self.bytes_to_stream,
                self.usable(),
                left <= n <= stream@.len(),
                i > 0 ==> left < n,
                value < pow2((self.underflow_bits + 8 * i) as nat),
                refill(stream@, left as int, value as int, (self.bytes_to_stream - i) as nat)
                    == refill(stream@, n as int, x as int, self.bytes_to_stream as nat),
            decreases self.bytes_to_stream - i,
        {
            let byte: u8 = stream[left - 1];
            proof {
                lemma2_to64();
                let e = (self.underflow_bits + 8 * i) as nat;
                vstd::arithmetic::power2::lemma_pow2_strictly_increases(e, 56);
                vstd::arithmetic::power2::lemma2_to64_rest();
                lemma_pow2_adds(e, 8);
                let bound = pow2(e) as int;
                let v = value as int;
                assert(v * 256 + byte < bound * 256) by (nonlinear_arith)
                    requires
                        0 <= v < bound,
                        0 <= byte < 256,
                ;
            }
            value = shift_in(value, byte);
            left = left - 1;
            i = i + 1;
        }
        proof {
            let e = (self.underflow_bits + 8 * i) as nat;
            let h = (self.underflow_bits + 8 * self.bytes_to_stream) as nat;
            if e < h {
                vstd::arithmetic::power2::lemma_pow2_strictly_increases(e, h);
            }
        }
        Some((value, left))
    }
}

/// `prefix` put in front of the output of a successful run.
pub open spec fn extend(prefix: Seq<u8>, rest: Result<Seq<u8>, DecodeError>) -> Result<
    Seq<u8>,
    DecodeError,
> {
    match rest {
        Ok(tail) => Ok(prefix + tail),
        Err(e) => Err(e),
    }
}

/// The result of a decoder run as a sequence of symbols.
pub open spec fn outcome(r: Result<Vec<u8>, DecodeError>) -> Result<Seq<u8>, DecodeError> {
    match r {
        Ok(v) => Ok(v@),
        Err(e) => Err(e),
    }
}

/// A symbol that is removed next follows the symbols removed so far.
pub proof fn lemma_extend_prepend(prefix: Seq<u8>, symbol: u8, rest: Result<Seq<u8>, DecodeError>)
    ensures
        extend(prefix, prepend(symbol, rest)) == extend(prefix.push(symbol), rest),
        extend(Seq::empty(), rest) == rest,
        extend(prefix, Ok(Seq::empty())) == Ok::<Seq<u8>, DecodeError>(prefix),
{
    match rest {
        Ok(tail) => {
            assert(prefix + (seq![symbol] + tail) =~= prefix.push(symbol) + tail);
            assert(Seq::<u8>::empty() + tail =~= tail);
        },
        Err(e) => {},
    }
    assert(prefix + Seq::<u8>::empty() =~= prefix);
}

impl StreamingANSUniform {
    /// Encodes a message, given back to front, into a byte stream.
    ///
    /// The state starts at `initial_value`; the decoder needs the same
    /// value as its end-of-stream marker.
    pub fn encode(&self, message_backwards: &[u8], initial_value: u64) -> (r: Vec<u8>)
        requires
            self.usable(),
            initial_value >= 1,
            self.encodable(message_backwards@, initial_value as int),
        ensures
            r@ == self.encoded(message_backwards@, initial_value as int),
    {
        let ghost message = message_backwards@;
        let ghost iv = initial_value as int;
        let window_bits: u8 = self.underflow_bits + 8 * self.bytes_to_stream;
        let mut x: u64 = initial_value;
        let mut rval: Vec<u8> = Vec::new();
        let mut i: usize = 0;
        assert(message.take(0) =~= Seq::<u8>::empty());
        while i < message_backwards.len()
            invariant
                i <= message.len(),
                message == message_backwards@,
                iv == initial_value,
                self.usable(),
                window_bits == self.underflow_bits + 8 * self.bytes_to_stream,
                self.encodable(message, iv),
                (x as int, rval@) == self.absorbed(message.take(i as int), iv),
            decreases message.len() - i,
        {
            let symbol: u8 = message_backwards[i];
            proof {
                assert(message.take(i + 1).drop_last() =~= message.take(i as int));
                assert(message.take(i + 1).last() == symbol);
                assert(self.absorb_fits(self.absorbed(message.take(i as int), iv).0, message[i as int]));
            }
            let mut new_x: u64 = self.table.append_encode64(x, symbol);
            if shift_right(new_x, window_bits) != 0 {
                x = self.push_quantum(x, &mut rval);
                new_x = self.table.append_encode64(x, symbol);
            }
            x = new_x;
            i = i + 1;
        }
        assert(message.take(i as int) =~= message);
        while x != 0
            invariant
                self.usable(),
                self.flushed(x as int, rval@) == self.encoded(message, iv),
            decreases x,
        {
            proof {
                lemma_quantum_at_least_two(self.bytes_to_stream as nat);
                let q = self.quantum();
                let xi = x as int;
                assert(xi / q < xi) by (nonlinear_arith)
                    requires
                        xi > 0,
                        q >= 2,
                ;
            }
            x = self.push_quantum(x, &mut rval);
        }
        rval
    }

    /// Encodes a message, given back to front, into a byte stream, or
    /// returns `None` where a symbol is not in the alphabet or a step
    /// leaves 64 bits.
    pub fn try_encode(&self, message_backwards: &[u8], initial_value: u64) -> (r: Option<Vec<u8>>)
        requires
            self.usable(),
            initial_value >= 1,
        ensures
            r is Some <==> self.encodable(message_backwards@, initial_value as int),
            r matches Some(stream) ==> stream@ == self.encoded(
                message_backwards@,
                initial_value as int,
            ),
    {
        let ghost message = message_backwards@;
        let ghost iv = initial_value as int;
        let window_bits: u8 = self.underflow_bits + 8 * self.bytes_to_stream;
        let mut x: u64 = initial_value;
        let mut rval: Vec<u8> = Vec::new();
        let mut i: usize = 0;
        assert(message.take(0) =~= Seq::<u8>::empty());
        while i < message_backwards.len()
            invariant
                i <= message.len(),
                message == message_backwards@,
                iv == initial_value,
                self.usable(),
                window_bits == self.underflow_bits + 8 * self.bytes_to_stream,
                forall|j: int|
                    0 <= j < i ==> self.absorb_fits(
                        (#[trigger] self.absorbed(message.take(j), iv)).0,
                        message[j],
                    ),
                (x as int, rval@) == self.absorbed(message.take(i as int), iv),
            decreases message.len() - i,
        {
            let symbol: u8 = message_backwards[i];
            proof {
                assert(message.take(i + 1).drop_last() =~= message.take(i as int));
                assert(message.take(i + 1).last() == symbol);
            }
            let new_x: u64 = match self.table.try_append_encode64(x, symbol) {
                None => {
                    assert(!self.absorb_fits(
                        self.absorbed(message.take(i as int), iv).0,
                        message[i as int],
                    ));
                    return None;
                },
                Some(first) => {
                    if shift_right(first, window_bits) != 0 {
                        let ghost before = x;
                        x = self.push_quantum(x, &mut rval);
                        match self.table.try_append_encode64(x, symbol) {
                            None => {
                                assert(!self.absorb_fits(
                                    self.absorbed(message.take(i as int), iv).0,
                                    message[i as int],
                                ));
                                return None;
                            },
                            Some(second) => second,
                        }
                    } else {
                        first
                    }
                },
            };
            x = new_x;
            i = i + 1;
        }
        assert(message.take(i as int) =~= message);
        while x != 0
            invariant
                self.usable(),
                self.flushed(x as int, rval@) == self.encoded(message, iv),
            decreases x,
        {
            proof {
                lemma_quantum_at_least_two(self.bytes_to_stream as nat);
                let q = self.quantum();
                let xi = x as int;
                assert(xi / q < xi) by (nonlinear_arith)
                    requires
                        xi > 0,
                        q >= 2,
                ;
            }
            x = self.push_quantum(x, &mut rval);
        }
        Some(rval)
    }

    /// Decodes a byte stream into the message, front to back.
    ///
    /// `eos_marker` is the value that the encoder started from.
    pub fn decode(&self, stream: &[u8], eos_marker: u64) -> (r: Result<Vec<u8>, DecodeError>)
        requires
            self.wf(),
            self.table.m() > 0,
            eos_marker >= 1,
        ensures
            outcome(r) == self.decoded(stream@, eos_marker as int),
    {
        let ghost bytes = stream@;
        let ghost eos = eos_marker as int;
        let mut n: usize = stream.len();
        let mut x: u64 = 0;
        loop
            invariant
                self.usable(),
                bytes == stream@,
                n <= bytes.len(),
                self.primed(bytes, bytes.len() as int, 0) == self.primed(bytes, n as int, x as int),
            ensures
                n <= bytes.len(),
                (x as int, n as int) == self.primed(bytes, bytes.len() as int, 0),
            decreases n,
        {
            if n == 0 || shift_right(x, self.underflow_bits) != 0 {
                break ;
            }
            match self.read_quantum(stream, n, x) {
                None => {
                    break ;
                },
                Some((x1, n1)) => {
                    x = x1;
                    n = n1;
                },
            }
        }
        let mut rval: Vec<u8> = Vec::new();
        proof {
            lemma_extend_prepend(rval@, 0, self.unwound(bytes, n as int, x as int, eos));
        }
        loop
            invariant
                self.wf(),
                self.table.m() > 0,
                bytes == stream@,
                eos == eos_marker,
                n <= bytes.len(),
                self.decoded(bytes, eos) == extend(
                    rval@,
                    self.unwound(bytes, n as int, x as int, eos),
                ),
            ensures
                self.decoded(bytes, eos) == extend(rval@, self.tail(x as int, eos)),
            decreases n, x,
        {
            let mut fresh: bool = false;
            if shift_right(x, self.underflow_bits) == 0 {
                match self.read_quantum(stream, n, x) {
                    None => {
                        break ;
                    },
                    Some((x1, n1)) => {
                        x = x1;
                        n = n1;
                        fresh = true;
                    },
                }
            }
            proof {
                self.table.lemma_unstep_shrinks(x as int);
            }
            let (symbol, new_x) = self.table.decode64(x);
            if !fresh && new_x >= x {
                return Err(DecodeError::Stalled);
            }
            proof {
                lemma_extend_prepend(rval@, symbol, self.unwound(bytes, n as int, new_x as int, eos));
            }
            rval.push(symbol);
            x = new_x;
        }
        while x != eos_marker
            invariant
                self.wf(),
                self.table.m() > 0,
                bytes == stream@,
                eos == eos_marker,
                self.decoded(bytes, eos) == extend(rval@, self.tail(x as int, eos)),
            decreases x,
        {
            proof {
                self.table.lemma_unstep_shrinks(x as int);
            }
            let (symbol, new_x) = self.table.decode64(x);
            if new_x < 1 {
                return Err(DecodeError::EosMissing);
            }
            if new_x >= x {
                return Err(DecodeError::Stalled);
            }
            proof {
                lemma_extend_prepend(rval@, symbol, self.tail(new_x as int, eos));
            }
            rval.push(symbol);
            x = new_x;
        }
        proof {
            lemma_extend_prepend(rval@, 0, Ok(Seq::empty()));
        }
        Ok(rval)
    }
}

/// A quantum of at least one byte has at least 256 values.
pub proof fn lemma_quantum_at_least_two(bytes: nat)
    requires
        bytes >= 1,
    ensures
        pow2(8 * bytes) >= 256,
{
    vstd::arithmetic::power2::lemma2_to64();
    if bytes > 1 {
        vstd::arithmetic::power2::lemma_pow2_strictly_increases(8, 8 * bytes);
    }
}

/// A refill reads at least one byte where there is one, and never more
/// than it was asked for.
pub proof fn lemma_refill_consumes(stream: Seq<u8>, n: int, x: int, count: nat)
    requires
        n >= 0,
    ensures
        0 <= refill(stream, n, x, count).1 <= n,
        n - refill(stream, n, x, count).1 <= count,
        count >= 1 && n > 0 ==> refill(stream, n, x, count).1 < n,
        n >= count ==> refill(stream, n, x, count).1 == n - count,
    decreases count,
{
    if count > 0 && n > 0 {
        lemma_refill_consumes(stream, n - 1, x * 256 + stream[n - 1], (count - 1) as nat);
    }
}

} // verus!
