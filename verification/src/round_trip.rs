//! Why decoding undoes encoding: the laws that relate the streaming
//! encoder to the streaming decoder.
use crate::streaming::{
    lemma_quantum_at_least_two, lemma_quantum_bytes_push, prepend, quantum_bytes, refill,
    symbol_fits, DecodeError, StreamingANSUniform,
};
use vstd::arithmetic::div_mod::{lemma_fundamental_div_mod, lemma_mod_bound, lemma_mod_breakdown};
use vstd::arithmetic::power2::{
    lemma2_to64, lemma2_to64_rest, lemma_pow2_adds, lemma_pow2_pos, lemma_pow2_strictly_increases,
    pow2,
};
use vstd::prelude::*;

verus! {

/// Shifting a whole quantum back in restores the bits that were spilled:
/// where the `count` bytes of `stream` that start at `n` are the low bytes
/// of `q`, a refill of `count` bytes puts them below `x`.
pub proof fn lemma_refill_quantum(stream: Seq<u8>, n: int, x: int, q: int, count: nat)
    requires
        0 <= n,
        n + count <= stream.len(),
        0 <= q,
        forall|j: int| 0 <= j < count ==> stream[n + j] == quantum_bytes(q, count)[j],
    ensures
        refill(stream, n + count, x, count) == (
            x * pow2(8 * count) + q % (pow2(8 * count) as int),
            n,
        ),
    decreases count,
{
    lemma2_to64();
    if count == 0 {
        assert(pow2(8 * count) == 1);
        assert(q % 1 == 0);
        assert(x * 1 == x);
    } else {
        let rest = (count - 1) as nat;
        let low = pow2(8 * rest) as int;
        let full = pow2(8 * count) as int;
        lemma_pow2_pos(8 * rest);
        lemma_quantum_bytes_push(q, rest);
        let top = ((q / low) % 256) as u8;
        assert(0 <= (q / low) % 256 < 256) by {
            lemma_mod_bound(q / low, 256);
        }
        assert(top == (q / low) % 256);
        assert(quantum_bytes(q, count) == quantum_bytes(q, rest).push(top));
        assert(stream[n + rest] == quantum_bytes(q, count)[rest as int]);
        assert(stream[n + count - 1] == top);
        assert forall|j: int| 0 <= j < rest implies stream[n + j] == quantum_bytes(q, rest)[j] by {
            assert(stream[n + j] == quantum_bytes(q, count)[j]);
        }
        lemma_refill_quantum(stream, n, x * 256 + top, q, rest);
        assert(refill(stream, n + count, x, count) == refill(
            stream,
            n + rest,
            x * 256 + top,
            rest,
        ));
        lemma_mod_breakdown(q, low, 256);
        lemma_pow2_adds(8 * rest, 8);
        assert(full == low * 256);
        assert((x * 256 + top) * low + q % low == x * full + q % full) by (nonlinear_arith)
            requires
                q % (low * 256) == low * ((q / low) % 256) + q % low,
                top == (q / low) % 256,
                full == low * 256,
        ;
    }
}

impl StreamingANSUniform {
    /// Whether the decoder can follow the encoder through the step that
    /// absorbs `symbol` into state `x`.
    ///
    /// A step that stays inside the window must move the state.  A step
    /// that spills a quantum must start from a state that the decoder
    /// would not refill, and must end inside the window at a state that
    /// the decoder does not refill either.
    pub open spec fn in_step(&self, x: int, symbol: u8) -> bool {
        if self.table.step(x, symbol) >= self.high_water() {
            &&& x >= self.low_water()
            &&& self.low_water() <= self.table.step(x / self.quantum(), symbol)
                < self.high_water()
        } else {
            self.table.step(x, symbol) != x
        }
    }

    /// Whether the decoder can follow the encoder through all of
    /// `message_backwards`.
    pub open spec fn synchronized(&self, message_backwards: Seq<u8>, initial_value: int) -> bool {
        forall|i: int|
            0 <= i < message_backwards.len() ==> self.in_step(
                (#[trigger] self.absorbed(message_backwards.take(i), initial_value)).0,
                message_backwards[i],
            )
    }

    /// Every symbol of `message` belongs to the alphabet.
    pub open spec fn in_alphabet(&self, message: Seq<u8>) -> bool {
        forall|i: int| 0 <= i < message.len() ==> self.table.freq(#[trigger] message[i]) > 0
    }

    /// The window is one quantum wide: `2^(U+S) = 2^U * 2^S`.
    pub proof fn lemma_window(&self)
        requires
            self.usable(),
        ensures
            self.high_water() == self.low_water() * self.quantum(),
            self.quantum() >= 256,
            self.low_water() >= 256,
            self.high_water() < 0x1_0000_0000_0000_0000,
    {
        let u = self.underflow_bits as nat;
        let s = (8 * self.bytes_to_stream) as nat;
        lemma_pow2_adds(u, s);
        lemma_quantum_at_least_two(self.bytes_to_stream as nat);
        lemma2_to64();
        lemma2_to64_rest();
        if u > s {
            lemma_pow2_strictly_increases(s, u);
        }
        lemma_pow2_strictly_increases(u + s, 64);
    }
}


impl StreamingANSUniform {
    /// What holds of a message holds of the message without its last
    /// symbol.
    pub proof fn lemma_shorter(&self, message_backwards: Seq<u8>, initial_value: int)
        requires
            message_backwards.len() > 0,
        ensures
            self.in_alphabet(message_backwards) ==> self.in_alphabet(message_backwards.drop_last()),
            self.synchronized(message_backwards, initial_value) ==> self.synchronized(
                message_backwards.drop_last(),
                initial_value,
            ) && self.in_step(
                self.absorbed(message_backwards.drop_last(), initial_value).0,
                message_backwards.last(),
            ),
            self.encodable(message_backwards, initial_value) ==> self.encodable(
                message_backwards.drop_last(),
                initial_value,
            ),
    {
        let prev = message_backwards.drop_last();
        let last = message_backwards.len() - 1;
        if self.in_alphabet(message_backwards) {
            assert forall|i: int| 0 <= i < prev.len() implies self.table.freq(
                #[trigger] prev[i],
            ) > 0 by {
                assert(prev[i] == message_backwards[i]);
            }
        }
        if self.synchronized(message_backwards, initial_value) {
            assert forall|i: int| 0 <= i < prev.len() implies self.in_step(
                (#[trigger] self.absorbed(prev.take(i), initial_value)).0,
                prev[i],
            ) by {
                assert(prev.take(i) =~= message_backwards.take(i));
                assert(self.in_step(
                    self.absorbed(message_backwards.take(i), initial_value).0,
                    message_backwards[i],
                ));
            }
            assert(message_backwards.take(last) =~= prev);
            assert(self.in_step(
                self.absorbed(message_backwards.take(last), initial_value).0,
                message_backwards[last],
            ));
        }
        if self.encodable(message_backwards, initial_value) {
            assert forall|i: int| 0 <= i < prev.len() implies self.absorb_fits(
                (#[trigger] self.absorbed(prev.take(i), initial_value)).0,
                prev[i],
            ) by {
                assert(prev.take(i) =~= message_backwards.take(i));
                assert(self.absorb_fits(
                    self.absorbed(message_backwards.take(i), initial_value).0,
                    message_backwards[i],
                ));
            }
        }
    }

    /// Along a synchronized run the state never falls below the initial
    /// value, leaves it with the first symbol, stays inside the window,
    /// and holds at least `underflow_bits` bits once a quantum has been
    /// spilled.
    pub proof fn lemma_trace(&self, message_backwards: Seq<u8>, initial_value: int)
        requires
            self.wf(),
            1 <= initial_value < self.low_water(),
            self.in_alphabet(message_backwards),
            self.synchronized(message_backwards, initial_value),
        ensures
            initial_value <= self.absorbed(message_backwards, initial_value).0 < self.high_water(),
            message_backwards.len() > 0 ==> self.absorbed(message_backwards, initial_value).0
                > initial_value,
            self.absorbed(message_backwards, initial_value).1.len() > 0 ==> self.absorbed(
                message_backwards,
                initial_value,
            ).0 >= self.low_water(),
        decreases message_backwards.len(),
    {
        self.lemma_window();
        let low = self.low_water();
        let q = self.quantum();
        assert(low <= low * q) by (nonlinear_arith)
            requires
                low >= 1,
                q >= 1,
        ;
        if message_backwards.len() > 0 {
            let prev = message_backwards.drop_last();
            let symbol = message_backwards.last();
            self.lemma_shorter(message_backwards, initial_value);
            self.lemma_trace(prev, initial_value);
            let (xp, outp) = self.absorbed(prev, initial_value);
            assert(self.table.freq(symbol) > 0) by {
                assert(symbol == message_backwards[message_backwards.len() - 1]);
            }
            self.table.lemma_step_grows(xp, xp, symbol);
            assert(self.in_step(xp, symbol));
            assert(self.absorbed(message_backwards, initial_value) == self.absorb(
                xp,
                outp,
                symbol,
            ));
            lemma_quantum_bytes_push(xp, self.bytes_to_stream as nat);
        }
    }

    /// Flushing only appends.
    pub proof fn lemma_flushed_prefix(&self, x: int, out: Seq<u8>)
        requires
            self.usable(),
        ensures
            self.flushed(x, out).len() >= out.len(),
            self.flushed(x, out).subrange(0, out.len() as int) == out,
        decreases x,
    {
        if x > 0 {
            lemma_quantum_at_least_two(self.bytes_to_stream as nat);
            let q = self.quantum();
            assert(0 <= x / q < x) by (nonlinear_arith)
                requires
                    x > 0,
                    q >= 2,
            ;
            let more = out + quantum_bytes(x, self.bytes_to_stream as nat);
            self.lemma_flushed_prefix(x / q, more);
            assert(self.flushed(x, out).subrange(0, out.len() as int) =~= self.flushed(
                x / q,
                more,
            ).subrange(0, more.len() as int).subrange(0, out.len() as int));
            assert(more.subrange(0, out.len() as int) =~= out);
        } else {
            assert(out.subrange(0, out.len() as int) =~= out);
        }
    }

    /// Priming the decoder on a flushed state reads the state back: it
    /// arrives at `x` with exactly the bytes of `out` unread.
    pub proof fn lemma_primed_flushed(&self, x: int, out: Seq<u8>)
        requires
            self.usable(),
            0 <= x < self.high_water(),
        ensures
            self.primed(self.flushed(x, out), self.flushed(x, out).len() as int, 0) == self.primed(
                self.flushed(x, out),
                out.len() as int,
                x,
            ),
        decreases x,
    {
        self.lemma_window();
        if x > 0 {
            let q = self.quantum();
            let count = self.bytes_to_stream as nat;
            let stream = self.flushed(x, out);
            let y = x / q;
            assert(0 <= y < x && y < self.low_water()) by (nonlinear_arith)
                requires
                    y == x / q,
                    0 < x < self.low_water() * q,
                    q >= 2,
            ;
            let more = out + quantum_bytes(x, count);
            lemma_quantum_bytes_push(x, count);
            self.lemma_primed_flushed(y, more);
            self.lemma_flushed_prefix(y, more);
            assert(stream == self.flushed(y, more));
            assert forall|j: int| 0 <= j < count implies stream[out.len() + j] == quantum_bytes(
                x,
                count,
            )[j] by {
                assert(stream.subrange(0, more.len() as int)[out.len() + j] == more[out.len()
                    + j]);
            }
            lemma_refill_quantum(stream, out.len() as int, y, x, count);
            lemma_fundamental_div_mod(x, q);
            assert(y * q + x % q == x) by (nonlinear_arith)
                requires
                    x == q * (x / q) + x % q,
                    y == x / q,
            ;
            assert(refill(stream, more.len() as int, y, count) == (x, out.len() as int));
        }
    }
}


impl StreamingANSUniform {
    /// From the state that the encoder reached, with the encoder's output
    /// still unread, the decoder removes the symbols in the reverse of the
    /// order in which they were absorbed.
    pub proof fn lemma_unwound(&self, stream: Seq<u8>, message_backwards: Seq<u8>, initial_value: int)
        requires
            self.wf(),
            1 <= initial_value < self.low_water(),
            self.in_alphabet(message_backwards),
            self.synchronized(message_backwards, initial_value),
            self.absorbed(message_backwards, initial_value).1.len() <= stream.len(),
            stream.subrange(0, self.absorbed(message_backwards, initial_value).1.len() as int)
                == self.absorbed(message_backwards, initial_value).1,
        ensures
            self.unwound(
                stream,
                self.absorbed(message_backwards, initial_value).1.len() as int,
                self.absorbed(message_backwards, initial_value).0,
                initial_value,
            ) == Ok::<Seq<u8>, DecodeError>(message_backwards.reverse()),
        decreases message_backwards.len(),
    {
        self.lemma_window();
        let (x, out) = self.absorbed(message_backwards, initial_value);
        let n = out.len() as int;
        let low = self.low_water();
        let high = self.high_water();
        let q = self.quantum();
        let count = self.bytes_to_stream as nat;
        if message_backwards.len() == 0 {
            assert(message_backwards.reverse() =~= Seq::<u8>::empty());
        } else {
            let prev = message_backwards.drop_last();
            let symbol = message_backwards.last();
            let (xp, outp) = self.absorbed(prev, initial_value);
            let np = outp.len() as int;
            self.lemma_shorter(message_backwards, initial_value);
            self.lemma_trace(prev, initial_value);
            self.lemma_trace(message_backwards, initial_value);
            assert(self.table.freq(symbol) > 0) by {
                assert(symbol == message_backwards[message_backwards.len() - 1]);
            }
            assert((x, out) == self.absorb(xp, outp, symbol));
            assert(message_backwards.reverse() =~= seq![symbol] + prev.reverse());
            lemma_quantum_bytes_push(xp, count);
            assert(stream.subrange(0, np) =~= outp) by {
                assert(out.subrange(0, np) =~= outp);
                assert(stream.subrange(0, np) =~= stream.subrange(0, n).subrange(0, np));
            }
            self.lemma_unwound(stream, prev, initial_value);
            let before = self.unwound(stream, np, xp, initial_value);
            assert(before == Ok::<Seq<u8>, DecodeError>(prev.reverse()));
            self.table.lemma_step_grows(xp, xp, symbol);
            if self.table.step(xp, symbol) >= high {
                let y = xp / q;
                assert(0 <= y < low) by (nonlinear_arith)
                    requires
                        y == xp / q,
                        0 <= xp < low * q,
                        q >= 2,
                ;
                self.table.step_round_trip(y, symbol);
                assert(self.unwound(stream, n, x, initial_value) == prepend(
                    symbol,
                    self.unwound(stream, n, y, initial_value),
                ));
                assert forall|j: int| 0 <= j < count implies stream[np + j] == quantum_bytes(
                    xp,
                    count,
                )[j] by {
                    assert(stream.subrange(0, n)[np + j] == out[np + j]);
                }
                lemma_refill_quantum(stream, np, y, xp, count);
                lemma_fundamental_div_mod(xp, q);
                assert(y * q + xp % q == xp) by (nonlinear_arith)
                    requires
                        xp == q * (xp / q) + xp % q,
                        y == xp / q,
                ;
                assert(refill(stream, n, y, count) == (xp, np));
                let (s2, x2) = self.table.unstep(xp);
                assert(self.unwound(stream, n, y, initial_value) == prepend(
                    s2,
                    self.unwound(stream, np, x2, initial_value),
                ));
                assert(before == prepend(s2, self.unwound(stream, np, x2, initial_value)));
            } else {
                self.table.step_round_trip(xp, symbol);
                if x >= low {
                    assert(self.unwound(stream, n, x, initial_value) == prepend(symbol, before));
                } else {
                    assert(n == 0);
                    assert(self.unwound(stream, n, x, initial_value) == self.tail(
                        x,
                        initial_value,
                    ));
                    assert(before == self.tail(xp, initial_value));
                    assert(self.tail(x, initial_value) == prepend(
                        symbol,
                        self.tail(xp, initial_value),
                    ));
                }
            }
        }
    }

    /// Decoding undoes encoding wherever the decoder can follow the
    /// encoder: for a valid codec, an initial value from 1 to below
    /// `2^underflow_bits`, and a message over the alphabet whose run is
    /// synchronized, the decoder returns the symbols in the reverse of the
    /// order in which the encoder absorbed them.
    pub proof fn decode_undoes_encode(&self, message_backwards: Seq<u8>, initial_value: int)
        requires
            self.wf(),
            1 <= initial_value < self.low_water(),
            self.in_alphabet(message_backwards),
            self.synchronized(message_backwards, initial_value),
        ensures
            self.decoded(self.encoded(message_backwards, initial_value), initial_value) == Ok::<
                Seq<u8>,
                DecodeError,
            >(message_backwards.reverse()),
    {
        let (x, out) = self.absorbed(message_backwards, initial_value);
        let stream = self.encoded(message_backwards, initial_value);
        self.lemma_trace(message_backwards, initial_value);
        self.lemma_primed_flushed(x, out);
        self.lemma_flushed_prefix(x, out);
        assert(self.primed(stream, out.len() as int, x) == (x, out.len() as int));
        self.lemma_unwound(stream, message_backwards, initial_value);
    }

    /// The stream round trip: a message that is encoded back to front and
    /// then decoded with the same initial value comes back unchanged,
    /// wherever the decoder can follow the encoder.
    pub proof fn stream_round_trip(&self, message: Seq<u8>, initial_value: int)
        requires
            self.wf(),
            1 <= initial_value < self.low_water(),
            self.in_alphabet(message),
            self.synchronized(message.reverse(), initial_value),
        ensures
            self.decoded(self.encoded(message.reverse(), initial_value), initial_value) == Ok::<
                Seq<u8>,
                DecodeError,
            >(message),
    {
        let backwards = message.reverse();
        assert forall|i: int| 0 <= i < backwards.len() implies self.table.freq(
            #[trigger] backwards[i],
        ) > 0 by {
            assert(backwards[i] == message[message.len() - 1 - i]);
        }
        self.decode_undoes_encode(backwards, initial_value);
        assert(backwards.reverse() =~= message);
    }
}


impl StreamingANSUniform {
    /// After a spill the retried step stays inside the window: from the
    /// largest state that a spill can leave, no symbol of the alphabet
    /// steps to `2^(U+S)` or beyond.
    pub open spec fn settles(&self) -> bool {
        forall|s: u8|
            self.table.freq(s) > 0 ==> #[trigger] self.table.step(self.low_water() - 1, s)
                < self.high_water()
    }

    /// On a valid codec a step from inside the window stays below
    /// `2^(U+2S)`, and so within 64 bits.
    pub proof fn lemma_step_in_window(&self, x: int, symbol: u8)
        requires
            self.wf(),
            self.table.freq(symbol) > 0,
            0 <= x < self.high_water(),
        ensures
            x <= self.table.step(x, symbol) < pow2(
                (self.underflow_bits + 16 * self.bytes_to_stream) as nat,
            ),
            self.table.step_fits(x, symbol, u64::MAX as int),
    {
        let f = self.table.freq(symbol);
        let top = self.high_water() - 1;
        let bits = (self.underflow_bits + 16 * self.bytes_to_stream) as nat;
        self.table.lemma_step_grows(x, top, symbol);
        lemma_mod_bound(top, f);
        lemma_mod_bound(x, f);
        assert(symbol_fits(self.table, self.underflow_bits, self.bytes_to_stream, symbol));
        if top % f < f - 1 {
            assert(self.table.slot(symbol, top % f) < self.table.slot(symbol, f - 1));
        }
        lemma2_to64_rest();
        if bits < 64 {
            lemma_pow2_strictly_increases(bits, 64);
        }
        assert(self.table.encode@[symbol as int]@.len() == f);
    }

    /// A synchronized run never leaves 64 bits.
    pub proof fn lemma_synchronized_encodable(&self, message_backwards: Seq<u8>, initial_value: int)
        requires
            self.wf(),
            1 <= initial_value < self.low_water(),
            self.in_alphabet(message_backwards),
            self.synchronized(message_backwards, initial_value),
        ensures
            self.encodable(message_backwards, initial_value),
    {
        self.lemma_window();
        let q = self.quantum();
        assert forall|i: int| 0 <= i < message_backwards.len() implies self.absorb_fits(
            (#[trigger] self.absorbed(message_backwards.take(i), initial_value)).0,
            message_backwards[i],
        ) by {
            let prefix = message_backwards.take(i);
            let symbol = message_backwards[i];
            assert forall|j: int| 0 <= j < prefix.len() implies self.table.freq(
                #[trigger] prefix[j],
            ) > 0 by {
                assert(prefix[j] == message_backwards[j]);
            }
            assert forall|j: int| 0 <= j < prefix.len() implies self.in_step(
                (#[trigger] self.absorbed(prefix.take(j), initial_value)).0,
                prefix[j],
            ) by {
                assert(prefix.take(j) =~= message_backwards.take(j));
                assert(self.in_step(
                    self.absorbed(message_backwards.take(j), initial_value).0,
                    message_backwards[j],
                ));
            }
            self.lemma_trace(prefix, initial_value);
            let x = self.absorbed(prefix, initial_value).0;
            self.lemma_step_in_window(x, symbol);
            assert(0 <= x / q <= x) by (nonlinear_arith)
                requires
                    0 <= x,
                    q >= 1,
            ;
            self.lemma_step_in_window(x / q, symbol);
        }
    }

    /// Parameter safety: on a valid codec that settles, encoding a message
    /// over the alphabet from an initial value inside the window keeps the
    /// state inside the window after every symbol, and no step leaves 64
    /// bits.
    pub proof fn encode_stays_in_range(&self, message_backwards: Seq<u8>, initial_value: int)
        requires
            self.wf(),
            self.settles(),
            0 <= initial_value < self.high_water(),
            self.in_alphabet(message_backwards),
        ensures
            0 <= self.absorbed(message_backwards, initial_value).0 < self.high_water(),
            self.encodable(message_backwards, initial_value),
        decreases message_backwards.len(),
    {
        self.lemma_window();
        let q = self.quantum();
        let low = self.low_water();
        if message_backwards.len() > 0 {
            let prev = message_backwards.drop_last();
            let symbol = message_backwards.last();
            let last = message_backwards.len() - 1;
            self.lemma_shorter(message_backwards, initial_value);
            self.encode_stays_in_range(prev, initial_value);
            let (xp, outp) = self.absorbed(prev, initial_value);
            assert(self.table.freq(symbol) > 0) by {
                assert(symbol == message_backwards[last]);
            }
            let y = xp / q;
            assert(0 <= y < low) by (nonlinear_arith)
                requires
                    y == xp / q,
                    0 <= xp < low * q,
                    q >= 2,
            ;
            self.lemma_step_in_window(xp, symbol);
            self.table.lemma_step_grows(y, low - 1, symbol);
            assert(self.table.step(low - 1, symbol) < self.high_water());
            assert(low <= low * q) by (nonlinear_arith)
                requires
                    low >= 1,
                    q >= 1,
            ;
            self.lemma_step_in_window(y, symbol);
            assert(self.absorbed(message_backwards, initial_value) == self.absorb(
                xp,
                outp,
                symbol,
            ));
            assert forall|i: int| 0 <= i < message_backwards.len() implies self.absorb_fits(
                (#[trigger] self.absorbed(message_backwards.take(i), initial_value)).0,
                message_backwards[i],
            ) by {
                if i < last {
                    assert(message_backwards.take(i) =~= prev.take(i));
                    assert(self.absorb_fits(
                        self.absorbed(prev.take(i), initial_value).0,
                        prev[i],
                    ));
                } else {
                    assert(message_backwards.take(i) =~= prev);
                }
            }
        }
    }

    /// Where the size of the state space divides `2^U`, a valid codec
    /// settles, and a step that leaves the window is one that the decoder
    /// can follow.
    pub proof fn lemma_divisor_settles(&self)
        requires
            self.wf(),
            self.table.m() > 0,
            self.low_water() % self.table.m() == 0,
        ensures
            self.settles(),
            forall|x: int, s: u8|
                0 <= x < self.high_water() && self.table.freq(s) > 0 && #[trigger] self.table.step(
                    x,
                    s,
                ) >= self.high_water() ==> self.in_step(x, s),
    {
        self.lemma_window();
        let m = self.table.m();
        let low = self.low_water();
        let high = self.high_water();
        let q = self.quantum();
        let c = low / m;
        lemma_fundamental_div_mod(low, m);
        assert(low == c * m && c >= 1) by (nonlinear_arith)
            requires
                low == m * c + 0,
                low >= 1,
                m > 0,
        ;
        assert forall|s: u8| self.table.freq(s) > 0 implies m <= self.table.freq(s) * q by {
            let f = self.table.freq(s);
            lemma_pow2_pos((self.underflow_bits + 8 * self.bytes_to_stream) as nat);
            self.lemma_step_in_window(high - 1, s);
            lemma_pow2_adds(
                (self.underflow_bits + 8 * self.bytes_to_stream) as nat,
                (8 * self.bytes_to_stream) as nat,
            );
            lemma_mod_bound(high - 1, f);
            lemma_fundamental_div_mod(high - 1, f);
            let big = (high - 1) / f;
            let r = (high - 1) % f;
            let slot = self.table.slot(s, r);
            assert(0 <= slot);
            assert(big * m + slot < high * q);
            if m > f * q {
                let w = c * q * q;
                assert(w >= 1) by (nonlinear_arith)
                    requires
                        w == c * q * q,
                        c >= 1,
                        q >= 2,
                ;
                assert(high >= f * w + c * q) by (nonlinear_arith)
                    requires
                        high == c * m * q,
                        m >= f * q + 1,
                        w == c * q * q,
                        c >= 1,
                        q >= 2,
                ;
                assert(c * q >= 1) by (nonlinear_arith)
                    requires
                        c >= 1,
                        q >= 2,
                ;
                assert(big >= w) by (nonlinear_arith)
                    requires
                        high - 1 == f * big + r,
                        0 <= r < f,
                        high - 1 >= f * w,
                        f > 0,
                ;
                assert(big * m >= high * q) by (nonlinear_arith)
                    requires
                        big >= w,
                        w == c * q * q,
                        high == c * m * q,
                        m > 0,
                ;
                assert(false);
            }
        }
        assert forall|s: u8| self.table.freq(s) > 0 implies #[trigger] self.table.step(low - 1, s)
            < high by {
            self.lemma_below_low(c, low - 1, s);
        }
        assert forall|x: int, s: u8|
            0 <= x < high && self.table.freq(s) > 0 && #[trigger] self.table.step(x, s)
                >= high implies self.in_step(x, s) by {
            let f = self.table.freq(s);
            lemma_mod_bound(x, f);
            lemma_fundamental_div_mod(x, f);
            let big = x / f;
            let r = x % f;
            assert(0 <= self.table.slot(s, r) < m);
            assert(big >= c * q) by (nonlinear_arith)
                requires
                    big * m + self.table.slot(s, r) >= c * m * q,
                    self.table.slot(s, r) < m,
                    m > 0,
            ;
            let y = x / q;
            lemma_fundamental_div_mod(x, q);
            lemma_mod_bound(x, q);
            assert(c * f <= y < low && x >= low) by (nonlinear_arith)
                requires
                    x == f * big + r,
                    0 <= r,
                    big >= c * q,
                    x == q * y + x % q,
                    0 <= x % q < q,
                    x < low * q,
                    low == c * m,
                    m <= f * q,
                    q >= 2,
                    c >= 1,
                    f > 0,
            ;
            lemma_mod_bound(y, f);
            lemma_fundamental_div_mod(y, f);
            assert(0 <= self.table.slot(s, y % f) < m);
            assert(self.table.step(y, s) >= low) by (nonlinear_arith)
                requires
                    self.table.step(y, s) == (y / f) * m + self.table.slot(s, y % f),
                    y == f * (y / f) + y % f,
                    0 <= y % f < f,
                    y >= c * f,
                    low == c * m,
                    0 <= self.table.slot(s, y % f),
                    m > 0,
                    f > 0,
            ;
            self.lemma_below_low(c, y, s);
        }
    }

    /// Where `2^U` is `c` times the size of the state space, a step from
    /// below `2^U` stays inside the window.
    proof fn lemma_below_low(&self, c: int, y: int, s: u8)
        requires
            self.wf(),
            self.table.freq(s) > 0,
            self.low_water() == c * self.table.m(),
            self.high_water() == self.low_water() * self.quantum(),
            self.table.m() <= self.table.freq(s) * self.quantum(),
            self.quantum() >= 2,
            c >= 1,
            0 <= y < self.low_water(),
        ensures
            self.table.step(y, s) < self.high_water(),
    {
        let f = self.table.freq(s);
        let m = self.table.m();
        let q = self.quantum();
        lemma_mod_bound(y, f);
        lemma_fundamental_div_mod(y, f);
        let big = y / f;
        let r = y % f;
        assert(0 <= self.table.slot(s, r) < m);
        assert(big < c * q) by (nonlinear_arith)
            requires
                y == f * big + r,
                0 <= r < f,
                y < c * m,
                m <= f * q,
                c >= 1,
                f > 0,
        ;
        assert(big * m + self.table.slot(s, r) < c * m * q) by (nonlinear_arith)
            requires
                big < c * q,
                self.table.slot(s, r) < m,
                m > 0,
        ;
        assert(c * m * q == self.low_water() * q) by (nonlinear_arith)
            requires
                self.low_water() == c * m,
        ;
    }
}


impl StreamingANSUniform {
    /// Where the size of the state space divides `2^U`, the decoder can
    /// follow the encoder through every message whose first absorbed
    /// symbol moves the initial value.
    pub proof fn lemma_divisor_synchronized(&self, message_backwards: Seq<u8>, initial_value: int)
        requires
            self.wf(),
            self.table.m() > 0,
            self.low_water() % self.table.m() == 0,
            1 <= initial_value < self.low_water(),
            self.in_alphabet(message_backwards),
            message_backwards.len() == 0 || self.table.step(initial_value, message_backwards[0])
                != initial_value,
        ensures
            self.synchronized(message_backwards, initial_value),
        decreases message_backwards.len(),
    {
        if message_backwards.len() > 0 {
            self.lemma_window();
            let q = self.quantum();
            let low = self.low_water();
            let prev = message_backwards.drop_last();
            let symbol = message_backwards.last();
            let last = message_backwards.len() - 1;
            self.lemma_shorter(message_backwards, initial_value);
            assert(prev.len() > 0 ==> prev[0] == message_backwards[0]);
            self.lemma_divisor_synchronized(prev, initial_value);
            self.lemma_trace(prev, initial_value);
            self.lemma_divisor_settles();
            let x = self.absorbed(prev, initial_value).0;
            assert(self.table.freq(symbol) > 0) by {
                assert(symbol == message_backwards[last]);
            }
            if prev.len() > 0 {
                let before = prev.drop_last();
                let moved_by = prev.last();
                self.lemma_shorter(prev, initial_value);
                self.lemma_trace(before, initial_value);
                let (xb, outb) = self.absorbed(before, initial_value);
                assert(self.table.freq(moved_by) > 0) by {
                    assert(moved_by == prev[prev.len() - 1]);
                }
                assert(self.absorbed(prev, initial_value) == self.absorb(xb, outb, moved_by));
                assert(self.in_step(xb, moved_by));
                if self.table.step(xb, moved_by) >= self.high_water() {
                    let y = xb / q;
                    assert(0 <= y < low) by (nonlinear_arith)
                        requires
                            y == xb / q,
                            0 <= xb < low * q,
                            q >= 2,
                    ;
                    self.table.lemma_moved_state_moves(y, moved_by, symbol);
                } else {
                    self.table.lemma_moved_state_moves(xb, moved_by, symbol);
                }
            }
            assert(self.table.step(x, symbol) != x);
            assert(self.in_step(x, symbol));
            assert forall|i: int| 0 <= i < message_backwards.len() implies self.in_step(
                (#[trigger] self.absorbed(message_backwards.take(i), initial_value)).0,
                message_backwards[i],
            ) by {
                if i < last {
                    assert(message_backwards.take(i) =~= prev.take(i));
                    assert(self.in_step(self.absorbed(prev.take(i), initial_value).0, prev[i]));
                } else {
                    assert(message_backwards.take(i) =~= prev);
                }
            }
        }
    }

    /// The stream round trip where the size of the state space divides
    /// `2^U`, as it does for every histogram scaled to a power of two of
    /// at most `2^U`: a message over the alphabet comes back unchanged,
    /// and its encoding never leaves 64 bits, provided that the initial
    /// value is below `2^U` and that appending the last symbol of the
    /// message to the initial value gives another state.
    pub proof fn stream_round_trip_for_divisor(&self, message: Seq<u8>, initial_value: int)
        requires
            self.wf(),
            self.table.m() > 0,
            self.low_water() % self.table.m() == 0,
            1 <= initial_value < self.low_water(),
            self.in_alphabet(message),
            message.len() == 0 || self.table.step(initial_value, message.last()) != initial_value,
        ensures
            self.encodable(message.reverse(), initial_value),
            self.decoded(self.encoded(message.reverse(), initial_value), initial_value) == Ok::<
                Seq<u8>,
                DecodeError,
            >(message),
    {
        let backwards = message.reverse();
        assert forall|i: int| 0 <= i < backwards.len() implies self.table.freq(
            #[trigger] backwards[i],
        ) > 0 by {
            assert(backwards[i] == message[message.len() - 1 - i]);
        }
        assert(message.len() > 0 ==> backwards[0] == message.last());
        self.lemma_divisor_synchronized(backwards, initial_value);
        self.lemma_synchronized_encodable(backwards, initial_value);
        self.stream_round_trip(message, initial_value);
    }
}


impl StreamingANSUniform {
    /// Whether the codec settles: whether from the largest state that a
    /// spill can leave, every symbol of the alphabet steps to a state
    /// inside the window.
    pub fn check_settles(&self) -> (r: bool)
        requires
            self.wf(),
        ensures
            r == self.settles(),
    {
        proof {
            self.lemma_window();
        }
        let window_bits: u8 = self.underflow_bits + 8 * self.bytes_to_stream;
        let low: u64 = crate::streaming::power_of_two(self.underflow_bits);
        let high: u64 = crate::streaming::power_of_two(window_bits);
        let mut symbol: usize = 0;
        while symbol < 256
            invariant
                symbol <= 256,
                self.wf(),
                low == self.low_water(),
                high == self.high_water(),
                low >= 256,
                forall|s: u8|
                    s < symbol && self.table.freq(s) > 0 ==> #[trigger] self.table.step(
                        self.low_water() - 1,
                        s,
                    ) < self.high_water(),
            decreases 256 - symbol,
        {
            if self.table.frequencies[symbol] != 0 {
                proof {
                    self.lemma_window();
                    let q = self.quantum();
                    assert(low - 1 < self.high_water()) by (nonlinear_arith)
                        requires
                            self.high_water() == low * q,
                            low >= 256,
                            q >= 256,
                    ;
                    self.lemma_step_in_window(low - 1, symbol as u8);
                }
                let next: u64 = self.table.append_encode64(low - 1, symbol as u8);
                if next >= high {
                    return false;
                }
            }
            symbol = symbol + 1;
        }
        true
    }
}

} // verus!
