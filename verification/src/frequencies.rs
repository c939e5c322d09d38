//! The fixed 256-slot histogram that every codec is built from.
use byteorder::{BigEndian, ByteOrder};
use vstd::prelude::*;

verus! {

/// Number of symbols in the alphabet: one per byte value.
pub const SYMBOLS: usize = 256;

/// Length in bytes of the binary form of a histogram.
pub const BINARY_TABLE_LEN: usize = 1024;

/// Sum of all entries of a histogram.
pub open spec fn sum_of(f: Seq<u32>) -> int
    decreases f.len(),
{
    if f.len() == 0 {
        0
    } else {
        sum_of(f.drop_last()) + f.last()
    }
}

/// How often `symbol` occurs in `data`.
pub open spec fn occurrences(data: Seq<u8>, symbol: u8) -> int
    decreases data.len(),
{
    if data.len() == 0 {
        0
    } else {
        occurrences(data.drop_last(), symbol) + if data.last() == symbol {
            1int
        } else {
            0int
        }
    }
}

/// The unsigned 32-bit value stored big-endian in the four bytes of `bytes`
/// that start at `at`.
pub open spec fn be_word(bytes: Seq<u8>, at: int) -> int {
    bytes[at] * 0x100_0000 + bytes[at + 1] * 0x1_0000 + bytes[at + 2] * 0x100 + bytes[at + 3]
}

/// A histogram over the byte values.
#[derive(Clone, Copy, Debug)]
pub struct SymbolFrequencies {
    pub frequencies: [u32; 256],
}

/// Why the binary form of a histogram could not be read.
#[derive(Clone, Copy, Debug, PartialEq, Eq)]
pub enum TableReadError {
    /// Fewer than 1024 bytes were available.
    UnexpectedEof,
}

impl SymbolFrequencies {
    /// The histogram as a sequence indexed by symbol.
    pub open spec fn view(&self) -> Seq<u32> {
        self.frequencies@
    }

    /// The sum `M` of all frequencies.
    pub open spec fn total(&self) -> int {
        sum_of(self.frequencies@)
    }

    /// The all-zero histogram.
    pub fn new() -> (r: SymbolFrequencies)
        ensures
            forall|i: int| 0 <= i < 256 ==> r@[i] == 0,
    {
        SymbolFrequencies { frequencies: [0;256] }
    }

    /// Adds the number of occurrences of every byte value in `data` to the
    /// histogram.
    pub fn scan_file(&mut self, data: &[u8])
        requires
            forall|s: u8| old(self)@[s as int] + occurrences(data@, s) <= u32::MAX,
        ensures
            forall|s: u8| final(self)@[s as int] == old(self)@[s as int] + occurrences(data@, s),
    {
        let n: usize = data.len();
        let mut i: usize = 0;
        assert(data@.take(0) =~= Seq::<u8>::empty());
        while i < n
            invariant
                i <= n,
                n == data@.len(),
                forall|s: u8| old(self)@[s as int] + occurrences(data@, s) <= u32::MAX,
                forall|s: u8|
                    self@[s as int] == old(self)@[s as int] + #[trigger] occurrences(
                        data@.take(i as int),
                        s,
                    ),
            decreases n - i,
        {
            let symbol: u8 = data[i];
            let at: usize = symbol as usize;
            proof {
                assert(data@.take(i + 1).drop_last() =~= data@.take(i as int));
                assert(data@.take(i + 1).last() == symbol);
                lemma_occurrences_prefix(data@, i + 1, symbol);
                assert(occurrences(data@.take(i + 1), symbol) == occurrences(
                    data@.take(i as int),
                    symbol,
                ) + 1);
                assert(old(self)@[symbol as int] + occurrences(data@, symbol) <= u32::MAX);
            }
            let ghost before = self@;
            self.frequencies[at] = self.frequencies[at] + 1;
            i = i + 1;
            proof {
                assert forall|s: u8|
                    self@[s as int] == old(self)@[s as int] + #[trigger] occurrences(
                        data@.take(i as int),
                        s,
                    ) by {
                    assert(before[s as int] == old(self)@[s as int] + occurrences(
                        data@.take(i - 1),
                        s,
                    ));
                }
            }
        }
        assert(data@.take(n as int) =~= data@);
    }

    /// Reads the binary form of a histogram: 256 big-endian 32-bit words,
    /// one per symbol in symbol order.  Bytes after the first 1024 are
    /// ignored.
    pub fn parse_binary_symbol_table(src: &[u8]) -> (r: Result<SymbolFrequencies, TableReadError>)
        ensures
            r is Err <==> src@.len() < 1024,
            r matches Ok(t) ==> forall|i: int| 0 <= i < 256 ==> t@[i] == be_word(src@, 4 * i),
    {
        if src.len() < BINARY_TABLE_LEN {
            return Err(TableReadError::UnexpectedEof);
        }
        let head = vstd::slice::slice_subrange(src, 0, BINARY_TABLE_LEN);
        let mut frequencies: [u32; 256] = [0;256];
        read_be_words(head, &mut frequencies);
        Ok(SymbolFrequencies { frequencies })
    }

    /// The binary form of the histogram: 256 big-endian 32-bit words, one
    /// per symbol in symbol order.
    pub fn binary_symbol_table(&self) -> (bytes: Vec<u8>)
        ensures
            bytes@.len() == 1024,
            forall|i: int| 0 <= i < 256 ==> be_word(bytes@, 4 * i) == self@[i],
    {
        let mut bytes: Vec<u8> = Vec::new();
        let mut k: usize = 0;
        while k < BINARY_TABLE_LEN
            invariant
                k <= 1024,
                bytes@.len() == k,
            decreases 1024 - k,
        {
            bytes.push(0);
            k = k + 1;
        }
        write_be_words(&self.frequencies, &mut bytes);
        bytes
    }

    /// A copy of `src` in which every symbol that never occurred has
    /// frequency one.
    pub fn missing_symbols_become_one(src: &SymbolFrequencies) -> (r: SymbolFrequencies)
        ensures
            forall|i: int|
                0 <= i < 256 ==> r@[i] == if src@[i] > 0 {
                    src@[i]
                } else {
                    1u32
                },
    {
        let mut new_frequencies: [u32; 256] = [0;256];
        let mut symbol: usize = 0;
        while symbol < SYMBOLS
            invariant
                symbol <= 256,
                forall|i: int|
                    0 <= i < symbol ==> new_frequencies@[i] == if src@[i] > 0 {
                        src@[i]
                    } else {
                        1u32
                    },
            decreases 256 - symbol,
        {
            let freq: u32 = src.frequencies[symbol];
            new_frequencies[symbol] = if freq > 0 {
                freq
            } else {
                1
            };
            symbol = symbol + 1;
        }
        SymbolFrequencies { frequencies: new_frequencies }
    }
}

impl Default for SymbolFrequencies {
    fn default() -> (r: Self)
        ensures
            forall|i: int| 0 <= i < 256 ==> r@[i] == 0,
    {
        Self::new()
    }
}

/// Calls `byteorder::BigEndian::read_u32_into`, which fills every word of
/// `dst` with the big-endian value of the corresponding four bytes of `src`
/// and panics unless `src` is exactly four times as long as `dst`.
#[verifier::external_body]
fn read_be_words(src: &[u8], dst: &mut [u32; 256])
    requires
        src@.len() == 1024,
    ensures
        forall|i: int| 0 <= i < 256 ==> final(dst)@[i] == be_word(src@, 4 * i),
{
    BigEndian::read_u32_into(src, &mut dst[..]);
}

/// Calls `byteorder::BigEndian::write_u32_into`, which stores every word
/// of `src` big-endian in the corresponding four bytes of `dst` and panics
/// unless `dst` is exactly four times as long as `src`.
#[verifier::external_body]
fn write_be_words(src: &[u32; 256], dst: &mut Vec<u8>)
    requires
        old(dst)@.len() == 1024,
    ensures
        final(dst)@.len() == 1024,
        forall|i: int| 0 <= i < 256 ==> be_word(final(dst)@, 4 * i) == src@[i],
{
    BigEndian::write_u32_into(&src[..], &mut dst[..]);
}

/// A histogram is determined by its binary form: two histograms with the
/// same 1024 bytes as binary form are equal, so that reading what was
/// written gives the histogram back.
pub proof fn binary_form_determines_histogram(bytes: Seq<u8>, first: Seq<u32>, second: Seq<u32>)
    requires
        first.len() == 256,
        second.len() == 256,
        forall|i: int| 0 <= i < 256 ==> be_word(bytes, 4 * i) == first[i],
        forall|i: int| 0 <= i < 256 ==> be_word(bytes, 4 * i) == second[i],
    ensures
        first == second,
{
    assert(first =~= second);
}

/// A prefix never holds more occurrences of a symbol than the whole input.
pub proof fn lemma_occurrences_prefix(data: Seq<u8>, len: int, symbol: u8)
    requires
        0 <= len <= data.len(),
    ensures
        0 <= occurrences(data.take(len), symbol) <= occurrences(data, symbol),
    decreases data.len(),
{
    if len == data.len() {
        assert(data.take(len) =~= data);
        lemma_occurrences_nonnegative(data, symbol);
    } else {
        assert(data.drop_last().take(len) =~= data.take(len));
        lemma_occurrences_prefix(data.drop_last(), len, symbol);
    }
}

/// An occurrence count is never negative.
pub proof fn lemma_occurrences_nonnegative(data: Seq<u8>, symbol: u8)
    ensures
        0 <= occurrences(data, symbol),
    decreases data.len(),
{
    if data.len() > 0 {
        lemma_occurrences_nonnegative(data.drop_last(), symbol);
    }
}

} // verus!
