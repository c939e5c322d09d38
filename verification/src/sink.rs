//! Encoding straight into a byte sink that may refuse a byte.
use crate::streaming::{
    lemma_quantum_at_least_two, lemma_quantum_bytes_push, low_byte, quantum_bytes, shift_right,
    StreamingANSUniform,
};
use vstd::arithmetic::div_mod::lemma_div_denominator;
use vstd::arithmetic::power2::{lemma2_to64, lemma_pow2_adds, lemma_pow2_pos, pow2};
use vstd::prelude::*;

verus! {

/// The outcome of a run without the value that it carries.
pub open spec fn erased<T, E>(r: Result<T, E>) -> Result<(), E> {
    match r {
        Ok(_) => Ok(()),
        Err(e) => Err(e),
    }
}

/// `sink` was offered the bytes of `bytes` in order: with outcome `Ok` it
/// accepted them all; with outcome `Err(e)` it accepted a prefix and
/// answered the byte after it with `e`.
pub open spec fn offered<E, F: Fn(u8) -> Result<(), E>>(
    sink: &F,
    bytes: Seq<u8>,
    outcome: Result<(), E>,
) -> bool {
    match outcome {
        Ok(()) => forall|j: int|
            0 <= j < bytes.len() ==> call_ensures(sink, (#[trigger] bytes[j],), Ok(())),
        Err(e) => exists|k: int|
            {
                &&& 0 <= k < bytes.len()
                &&& call_ensures(sink, (#[trigger] bytes[k],), Err(e))
                &&& forall|j: int| 0 <= j < k ==> call_ensures(sink, (#[trigger] bytes[j],), Ok(()))
            },
    }
}

/// The byte of a quantum at position `at` is the byte of the value at
/// that position.
pub proof fn lemma_quantum_bytes_at(x: int, count: nat, at: int)
    requires
        0 <= x,
        0 <= at < count,
    ensures
        quantum_bytes(x, count).len() == count,
        quantum_bytes(x, count)[at] == ((x / pow2((8 * at) as nat) as int) % 256) as u8,
    decreases count,
{
    lemma_quantum_bytes_push(x, (count - 1) as nat);
    lemma_quantum_bytes_push(x, count);
    if at < count - 1 {
        lemma_quantum_bytes_at(x, (count - 1) as nat, at);
    }
}

impl StreamingANSUniform {
    /// Hands the lowest quantum of `x` to `sink`, byte by byte, and stops
    /// at the first byte that `sink` refuses.
    fn push_quantum2<E, F: Fn(u8) -> Result<(), E>>(&self, x: u64, sink: &F) -> (r: Result<u64, E>)
        requires
            self.usable(),
            forall|b: u8| call_requires(sink, (b,)),
        ensures
            offered(sink, quantum_bytes(x as int, self.bytes_to_stream as nat), erased(r)),
            r matches Ok(rest) ==> rest == x as int / self.quantum(),
    {
        let mut rest: u64 = x;
        let mut i: u8 = 0;
        proof {
            lemma2_to64();
            assert(pow2(0) == 1);
            assert((8 * i) as nat == 0);
            assert(x as int / 1 == x);
        }
        while i < self.bytes_to_stream
            invariant
                i <= self.bytes_to_stream,
                self.usable(),
                forall|b: u8| call_requires(sink, (b,)),
                rest == x as int / pow2((8 * i) as nat) as int,
                forall|j: int|
                    0 <= j < i ==> call_ensures(
                        sink,
                        (#[trigger] quantum_bytes(x as int, self.bytes_to_stream as nat)[j],),
                        Ok(()),
                    ),
            decreases self.bytes_to_stream - i,
        {
            let byte = low_byte(rest);
            proof {
                lemma_quantum_bytes_at(x as int, self.bytes_to_stream as nat, i as int);
            }
            let answer = sink(byte);
            assert(call_ensures(sink, (byte,), answer));
            assert(byte == quantum_bytes(x as int, self.bytes_to_stream as nat)[i as int]);
            match answer {
                Ok(unit) => {
                    assert(unit == ());
                    assert(answer == Ok::<(), E>(()));
                },
                Err(e) => {
                    return Err(e);
                },
            }
            assert(call_ensures(
                sink,
                (quantum_bytes(x as int, self.bytes_to_stream as nat)[i as int],),
                Ok(()),
            ));
            proof {
                lemma2_to64();
                let done = (8 * i) as nat;
                lemma_pow2_pos(done);
                lemma_pow2_adds(done, 8);
                lemma_div_denominator(x as int, pow2(done) as int, 256);
                assert(pow2(done) * 256 == pow2((8 * (i + 1)) as nat));
            }
            rest = shift_right(rest, 8);
            i = i + 1;
        }
        proof {
            lemma_quantum_bytes_push(x as int, self.bytes_to_stream as nat);
        }
        Ok(rest)
    }
}

impl StreamingANSUniform {
    /// The output grows symbol by symbol: what has been spilled after a
    /// part of the message is the beginning of the encoded stream.
    pub proof fn lemma_spilled_prefix(&self, message_backwards: Seq<u8>, initial_value: int, upto: int)
        requires
            self.usable(),
            0 <= upto <= message_backwards.len(),
        ensures
            self.absorbed(message_backwards.take(upto), initial_value).1.len() <= self.encoded(
                message_backwards,
                initial_value,
            ).len(),
            self.encoded(message_backwards, initial_value).subrange(
                0,
                self.absorbed(message_backwards.take(upto), initial_value).1.len() as int,
            ) == self.absorbed(message_backwards.take(upto), initial_value).1,
        decreases message_backwards.len() - upto,
    {
        let stream = self.encoded(message_backwards, initial_value);
        let (x, out) = self.absorbed(message_backwards.take(upto), initial_value);
        if upto == message_backwards.len() {
            assert(message_backwards.take(upto) =~= message_backwards);
            self.lemma_flushed_prefix(x, out);
        } else {
            self.lemma_spilled_prefix(message_backwards, initial_value, upto + 1);
            let (x2, out2) = self.absorbed(message_backwards.take(upto + 1), initial_value);
            assert(message_backwards.take(upto + 1).drop_last() =~= message_backwards.take(upto));
            assert((x2, out2) == self.absorb(x, out, message_backwards[upto]));
            assert(out2.subrange(0, out.len() as int) =~= out);
            assert(stream.subrange(0, out.len() as int) =~= stream.subrange(
                0,
                out2.len() as int,
            ).subrange(0, out.len() as int));
        }
    }

    /// Encodes a message, given back to front, and hands the bytes of the
    /// stream to `sink` one by one.  The run ends at the first byte that
    /// `sink` refuses, with the error that `sink` gave.
    pub fn encode_to_sink<E, F: Fn(u8) -> Result<(), E>>(
        &self,
        message_backwards: &[u8],
        sink: &F,
        initial_value: u64,
    ) -> (r: Result<(), E>)
        requires
            self.usable(),
            initial_value >= 1,
            self.encodable(message_backwards@, initial_value as int),
            forall|b: u8| call_requires(sink, (b,)),
        ensures
            offered(sink, self.encoded(message_backwards@, initial_value as int), r),
    {
        let ghost message = message_backwards@;
        let ghost iv = initial_value as int;
        let ghost stream = self.encoded(message, iv);
        let ghost mut out: Seq<u8> = Seq::empty();
        let window_bits: u8 = self.underflow_bits + 8 * self.bytes_to_stream;
        let mut x: u64 = initial_value;
        let mut i: usize = 0;
        assert(message.take(0) =~= Seq::<u8>::empty());
        proof {
            self.lemma_spilled_prefix(message, iv, 0);
        }
        while i < message_backwards.len()
            invariant
                i <= message.len(),
                message == message_backwards@,
                iv == initial_value,
                stream == self.encoded(message, iv),
                self.usable(),
                window_bits == self.underflow_bits + 8 * self.bytes_to_stream,
                self.encodable(message, iv),
                forall|b: u8| call_requires(sink, (b,)),
                (x as int, out) == self.absorbed(message.take(i as int), iv),
                out.len() <= stream.len(),
                forall|j: int|
                    0 <= j < out.len() ==> call_ensures(sink, (#[trigger] stream[j],), Ok(())),
            decreases message.len() - i,
        {
            let symbol: u8 = message_backwards[i];
            proof {
                assert(message.take(i + 1).drop_last() =~= message.take(i as int));
                assert(message.take(i + 1).last() == symbol);
                assert(self.absorb_fits(
                    self.absorbed(message.take(i as int), iv).0,
                    message[i as int],
                ));
                self.lemma_spilled_prefix(message, iv, i + 1);
                lemma_quantum_bytes_push(x as int, self.bytes_to_stream as nat);
            }
            let mut new_x: u64 = self.table.append_encode64(x, symbol);
            if shift_right(new_x, window_bits) != 0 {
                let ghost quantum = quantum_bytes(x as int, self.bytes_to_stream as nat);
                let ghost longer = out + quantum;
                assert(stream.subrange(0, longer.len() as int) == longer);
                assert forall|j: int| 0 <= j < quantum.len() implies stream[out.len() + j]
                    == quantum[j] by {
                    assert(stream.subrange(0, longer.len() as int)[out.len() + j] == longer[out.len()
                        + j]);
                }
                match self.push_quantum2(x, sink) {
                    Ok(rest) => {
                        x = rest;
                    },
                    Err(e) => {
                        proof {
                            let k = choose|k: int|
                                {
                                    &&& 0 <= k < quantum.len()
                                    &&& call_ensures(sink, (#[trigger] quantum[k],), Err(e))
                                    &&& forall|j: int|
                                        0 <= j < k ==> call_ensures(
                                            sink,
                                            (#[trigger] quantum[j],),
                                            Ok(()),
                                        )
                                };
                            self.lemma_refused(sink, stream, out, quantum, k, e);
                        }
                        return Err(e);
                    },
                }
                proof {
                    assert forall|j: int| 0 <= j < longer.len() implies call_ensures(
                        sink,
                        (#[trigger] stream[j],),
                        Ok(()),
                    ) by {
                        if j >= out.len() {
                            assert(call_ensures(sink, (quantum[j - out.len()],), Ok(())));
                        }
                    }
                    out = longer;
                }
                new_x = self.table.append_encode64(x, symbol);
            }
            x = new_x;
            i = i + 1;
        }
        assert(message.take(i as int) =~= message);
        proof {
            self.lemma_flushed_prefix(x as int, out);
        }
        while x != 0
            invariant
                self.usable(),
                forall|b: u8| call_requires(sink, (b,)),
                stream == self.encoded(message_backwards@, initial_value as int),
                out.len() <= stream.len(),
                self.flushed(x as int, out) == stream,
                forall|j: int|
                    0 <= j < out.len() ==> call_ensures(sink, (#[trigger] stream[j],), Ok(())),
            decreases x,
        {
            let ghost quantum = quantum_bytes(x as int, self.bytes_to_stream as nat);
            let ghost longer = out + quantum;
            proof {
                lemma_quantum_at_least_two(self.bytes_to_stream as nat);
                lemma_quantum_bytes_push(x as int, self.bytes_to_stream as nat);
                let q = self.quantum();
                let xi = x as int;
                assert(xi / q < xi) by (nonlinear_arith)
                    requires
                        xi > 0,
                        q >= 2,
                ;
                self.lemma_flushed_prefix(xi / q, longer);
                assert forall|j: int| 0 <= j < quantum.len() implies stream[out.len() + j]
                    == quantum[j] by {
                    assert(stream.subrange(0, longer.len() as int)[out.len() + j] == longer[out.len()
                        + j]);
                }
            }
            match self.push_quantum2(x, sink) {
                Ok(rest) => {
                    x = rest;
                },
                Err(e) => {
                    proof {
                        let k = choose|k: int|
                            {
                                &&& 0 <= k < quantum.len()
                                &&& call_ensures(sink, (#[trigger] quantum[k],), Err(e))
                                &&& forall|j: int|
                                    0 <= j < k ==> call_ensures(
                                        sink,
                                        (#[trigger] quantum[j],),
                                        Ok(()),
                                    )
                            };
                        self.lemma_refused(sink, stream, out, quantum, k, e);
                    }
                    return Err(e);
                },
            }
            proof {
                assert forall|j: int| 0 <= j < longer.len() implies call_ensures(
                    sink,
                    (#[trigger] stream[j],),
                    Ok(()),
                ) by {
                    if j >= out.len() {
                        assert(call_ensures(sink, (quantum[j - out.len()],), Ok(())));
                    }
                }
                out = longer;
            }
        }
        proof {
            assert(self.flushed(0, out) == out);
        }
        Ok(())
    }

    /// A byte that is refused inside a quantum is refused at its place in
    /// the stream.
    proof fn lemma_refused<E, F: Fn(u8) -> Result<(), E>>(
        &self,
        sink: &F,
        stream: Seq<u8>,
        out: Seq<u8>,
        quantum: Seq<u8>,
        k: int,
        e: E,
    )
        requires
            out.len() + quantum.len() <= stream.len(),
            forall|j: int| 0 <= j < quantum.len() ==> stream[out.len() + j] == quantum[j],
            forall|j: int| 0 <= j < out.len() ==> call_ensures(sink, (#[trigger] stream[j],), Ok(())),
            0 <= k < quantum.len(),
            call_ensures(sink, (quantum[k],), Err(e)),
            forall|j: int| 0 <= j < k ==> call_ensures(sink, (#[trigger] quantum[j],), Ok(())),
        ensures
            offered(sink, stream, Err(e)),
    {
        let at = out.len() + k;
        assert(stream[at] == quantum[k]);
        assert forall|j: int| 0 <= j < at implies call_ensures(
            sink,
            (#[trigger] stream[j],),
            Ok(()),
        ) by {
            if j >= out.len() {
                assert(stream[out.len() + (j - out.len())] == quantum[j - out.len()]);
                assert(call_ensures(sink, (quantum[j - out.len()],), Ok(())));
            }
        }
    }
}

} // verus!
