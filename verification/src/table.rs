//! The paired lookup tables and the single-symbol transform built on them.
use crate::frequencies::sum_of;
use vstd::arithmetic::div_mod::{
    lemma_fundamental_div_mod, lemma_fundamental_div_mod_converse, lemma_mod_bound,
};
use vstd::arithmetic::mul::{lemma_mul_is_commutative, lemma_mul_nonnegative};
use vstd::prelude::*;

verus! {

/// The state-space partition of one frequency table.
///
/// `encode[s][p]` is the slot in `[0, M)` that symbol `s` owns in phase `p`;
/// `decode[v]` names the symbol and phase that own slot `v`.
#[derive(Clone, Debug)]
pub struct ANSTableUniform {
    pub frequencies: [u32; 256],
    pub sum_frequencies: u32,
    pub encode: Vec<Vec<u32>>,
    pub decode: Vec<(u8, u32)>,
    pub verbose: bool,
}

impl ANSTableUniform {
    /// The size `M` of the state space.
    pub open spec fn m(&self) -> int {
        self.sum_frequencies as int
    }

    /// The frequency of `symbol`.
    pub open spec fn freq(&self, symbol: u8) -> int {
        self.frequencies@[symbol as int] as int
    }

    /// The slot that `symbol` owns in `phase`.
    pub open spec fn slot(&self, symbol: u8, phase: int) -> int {
        self.encode@[symbol as int]@[phase] as int
    }

    /// Whether `symbol` belongs to the alphabet and has its row of slots.
    pub open spec fn has_symbol(&self, symbol: u8) -> bool {
        &&& self.freq(symbol) > 0
        &&& (symbol as int) < self.encode@.len()
        &&& self.encode@[symbol as int]@.len() == self.freq(symbol)
    }

    /// The forward transform: the state that follows `x` once `symbol` has
    /// been appended.
    pub open spec fn step(&self, x: int, symbol: u8) -> int {
        (x / self.freq(symbol)) * self.m() + self.slot(symbol, x % self.freq(symbol))
    }

    /// The inverse transform: the symbol that was appended last, and the
    /// state before it.
    pub open spec fn unstep(&self, x: int) -> (u8, int) {
        let (symbol, phase) = self.decode@[x % self.m()];
        (symbol, (x / self.m()) * self.freq(symbol) + phase)
    }

    /// The rows of `encode` cover the alphabet: one row per byte value, as
    /// long as the symbol's frequency, holding slots below `M`.
    pub open spec fn rows_fit(&self) -> bool {
        &&& self.encode@.len() == 256
        &&& forall|s: u8| #[trigger] self.encode@[s as int]@.len() == self.freq(s)
        &&& forall|s: u8, p: int|
            0 <= p < self.freq(s) ==> 0 <= #[trigger] self.slot(s, p) < self.m()
    }

    /// `decode` undoes `encode`.
    pub open spec fn inverse(&self) -> bool {
        &&& self.decode@.len() == self.m()
        &&& forall|s: u8, p: int|
            0 <= p < self.freq(s) ==> self.decode@[#[trigger] self.slot(s, p)] == (s, p as u32)
    }

    /// Every slot below `M` is owned by the symbol and phase that `decode`
    /// names for it.
    pub open spec fn onto(&self) -> bool {
        forall|v: int|
            0 <= v < self.m() ==> {
                let (s, p) = #[trigger] self.decode@[v];
                0 <= p < self.freq(s) && self.slot(s, p as int) == v
            }
    }

    /// Within each symbol the slots grow with the phase.
    pub open spec fn ordered(&self) -> bool {
        forall|s: u8, p: int, q: int|
            0 <= p < q < self.freq(s) ==> #[trigger] self.slot(s, p) < #[trigger] self.slot(s, q)
    }

    /// The table is complete: `M` is the sum of the frequencies, and the
    /// rows of `encode` partition `[0, M)` with `decode` as the inverse map.
    pub open spec fn wf(&self) -> bool {
        &&& self.m() == sum_of(self.frequencies@)
        &&& self.rows_fit()
        &&& self.inverse()
        &&& self.onto()
        &&& self.ordered()
    }

    /// Whether the forward transform can be computed for `x` and `symbol`
    /// with a result of at most `limit`.
    pub open spec fn step_fits(&self, x: int, symbol: u8, limit: int) -> bool {
        &&& self.freq(symbol) > 0
        &&& (symbol as int) < self.encode@.len()
        &&& x % self.freq(symbol) < self.encode@[symbol as int]@.len()
        &&& self.step(x, symbol) <= limit
    }

    /// Whether the inverse transform can be computed for `x` with a result
    /// of at most `limit`.
    pub open spec fn unstep_fits(&self, x: int, limit: int) -> bool {
        &&& self.m() > 0
        &&& x % self.m() < self.decode@.len()
        &&& self.unstep(x).1 <= limit
    }

    /// Appends `symbol` to the 32-bit state `val`.
    pub fn append_encode(&self, val: u32, symbol: u8) -> (r: u32)
        requires
            self.step_fits(val as int, symbol, u32::MAX as int),
        ensures
            r == self.step(val as int, symbol),
    {
        self.append_encode32(val, symbol)
    }

    /// Appends `symbol` to the 32-bit state `val`.
    pub fn append_encode32(&self, val: u32, symbol: u8) -> (r: u32)
        requires
            self.step_fits(val as int, symbol, u32::MAX as int),
        ensures
            r == self.step(val as int, symbol),
    {
        let freq: u32 = self.frequencies[symbol as usize];
        let cycle: u32 = val / freq;
        let phase: u32 = val % freq;
        let encoded: u32 = self.encode[symbol as usize][phase as usize];
        proof {
            lemma_mul_nonnegative(cycle as int, self.m());
        }
        let rval: u32 = cycle * self.sum_frequencies + encoded;
        rval
    }

    /// Appends `symbol` to the 64-bit state `val`.
    pub fn append_encode64(&self, val: u64, symbol: u8) -> (r: u64)
        requires
            self.step_fits(val as int, symbol, u64::MAX as int),
        ensures
            r == self.step(val as int, symbol),
    {
        let freq: u64 = self.frequencies[symbol as usize] as u64;
        let cycle: u64 = val / freq;
        let phase: u64 = val % freq;
        let encoded: u32 = self.encode[symbol as usize][phase as usize];
        proof {
            lemma_mul_nonnegative(cycle as int, self.m());
        }
        let rval: u64 = cycle * (self.sum_frequencies as u64) + (encoded as u64);
        rval
    }

    /// Appends `symbol` to the 64-bit state `val`, or returns `None` where
    /// the symbol is not in the alphabet, its row is missing, or the
    /// result leaves 64 bits.
    pub fn try_append_encode64(&self, val: u64, symbol: u8) -> (r: Option<u64>)
        ensures
            r == if self.step_fits(val as int, symbol, u64::MAX as int) {
                Some(self.step(val as int, symbol) as u64)
            } else {
                None
            },
    {
        let freq: u32 = self.frequencies[symbol as usize];
        if freq == 0 || symbol as usize >= self.encode.len() {
            return None;
        }
        let cycle: u64 = val / (freq as u64);
        let phase: u64 = val % (freq as u64);
        if phase >= self.encode[symbol as usize].len() as u64 {
            return None;
        }
        let encoded: u32 = self.encode[symbol as usize][phase as usize];
        proof {
            lemma_mul_nonnegative(cycle as int, self.m());
        }
        match cycle.checked_mul(self.sum_frequencies as u64) {
            None => None,
            Some(base) => base.checked_add(encoded as u64),
        }
    }

    /// Removes the last symbol from the 32-bit state `val`.
    pub fn decode32(&self, val: u32) -> (r: (u8, u32))
        requires
            self.unstep_fits(val as int, u32::MAX as int),
        ensures
            r.0 == self.unstep(val as int).0,
            r.1 == self.unstep(val as int).1,
    {
        let cycle: u32 = val / self.sum_frequencies;
        let phase: u32 = val % self.sum_frequencies;
        let (symbol, tmp) = self.decode[phase as usize];
        let sym_freq: u32 = self.frequencies[symbol as usize];
        proof {
            lemma_mul_nonnegative(cycle as int, sym_freq as int);
        }
        let rval: u32 = cycle * sym_freq + tmp;
        (symbol, rval)
    }

    /// Removes the last symbol from the 64-bit state `val`.
    pub fn decode64(&self, val: u64) -> (r: (u8, u64))
        requires
            self.unstep_fits(val as int, u64::MAX as int),
        ensures
            r.0 == self.unstep(val as int).0,
            r.1 == self.unstep(val as int).1,
    {
        let sum_frequencies: u64 = self.sum_frequencies as u64;
        let cycle: u64 = val / sum_frequencies;
        let phase: u64 = val % sum_frequencies;
        let (symbol, tmp) = self.decode[phase as usize];
        let sym_freq: u32 = self.frequencies[symbol as usize];
        proof {
            lemma_mul_nonnegative(cycle as int, sym_freq as int);
        }
        let rval: u64 = cycle * (sym_freq as u64) + (tmp as u64);
        (symbol, rval)
    }

    /// Some symbol owns slot `v` in some phase.
    pub open spec fn owned(&self, v: int) -> bool {
        exists|s: u8, p: int| 0 <= p < self.freq(s) && #[trigger] self.slot(s, p) == v
    }

    /// The rows of `encode` partition the state space: every slot below
    /// `M` is owned by some symbol and phase, and by no second one.
    pub proof fn slots_partition(&self)
        requires
            self.wf(),
        ensures
            forall|v: int| 0 <= v < self.m() ==> #[trigger] self.owned(v),
            forall|s: u8, p: int, t: u8, q: int|
                0 <= p < self.freq(s) && 0 <= q < self.freq(t) && #[trigger] self.slot(s, p)
                    == #[trigger] self.slot(t, q) ==> s == t && p == q,
    {
        assert forall|v: int| 0 <= v < self.m() implies #[trigger] self.owned(v) by {
            let (s, p) = self.decode@[v];
            assert(0 <= p < self.freq(s) && self.slot(s, p as int) == v);
        }
        assert forall|s: u8, p: int, t: u8, q: int|
            0 <= p < self.freq(s) && 0 <= q < self.freq(t) && #[trigger] self.slot(s, p)
                == #[trigger] self.slot(t, q) implies s == t && p == q by {
            assert(self.decode@[self.slot(s, p)] == (s, p as u32));
            assert(self.decode@[self.slot(t, q)] == (t, q as u32));
        }
    }

    /// On a complete table a phase never exceeds the slot it owns.
    pub proof fn lemma_slot_at_least_phase(&self, symbol: u8, phase: int)
        requires
            self.wf(),
            0 <= phase < self.freq(symbol),
        ensures
            phase <= self.slot(symbol, phase),
        decreases phase,
    {
        if phase > 0 {
            self.lemma_slot_at_least_phase(symbol, phase - 1);
            assert(self.slot(symbol, phase - 1) < self.slot(symbol, phase));
        }
    }

    /// On a complete table the inverse transform never grows the state.
    pub proof fn lemma_unstep_shrinks(&self, x: int)
        requires
            self.wf(),
            0 <= x,
            self.m() > 0,
        ensures
            0 <= self.unstep(x).1 <= x,
            self.freq(self.unstep(x).0) > 0,
    {
        let m = self.m();
        let c = x / m;
        let v = x % m;
        lemma_mod_bound(x, m);
        lemma_fundamental_div_mod(x, m);
        let (s, p32) = self.decode@[v];
        let p = p32 as int;
        let f = self.freq(s);
        assert(0 <= p < f && self.slot(s, p) == v);
        self.lemma_slot_at_least_phase(s, p);
        crate::uniform::lemma_entry_at_most_sum(self.frequencies@, s as int);
        assert(0 <= c * f <= c * m) by (nonlinear_arith)
            requires
                c == x / m,
                0 <= x,
                0 < f <= m,
        ;
        lemma_mul_is_commutative(c, m);
    }

    /// On a complete table the forward transform never shrinks the state,
    /// and it preserves the order of states.
    pub proof fn lemma_step_grows(&self, x: int, y: int, symbol: u8)
        requires
            self.wf(),
            self.freq(symbol) > 0,
            0 <= x <= y,
        ensures
            x <= self.step(x, symbol) <= self.step(y, symbol),
            x < y ==> self.step(x, symbol) < self.step(y, symbol),
    {
        let f = self.freq(symbol);
        let m = self.m();
        lemma_mod_bound(x, f);
        lemma_mod_bound(y, f);
        lemma_fundamental_div_mod(x, f);
        lemma_fundamental_div_mod(y, f);
        let cx = x / f;
        let cy = y / f;
        let px = x % f;
        let py = y % f;
        self.lemma_slot_at_least_phase(symbol, px);
        crate::uniform::lemma_entry_at_most_sum(self.frequencies@, symbol as int);
        assert(0 <= self.slot(symbol, px) < m);
        assert(0 <= self.slot(symbol, py) < m);
        assert(0 <= cx <= cy) by (nonlinear_arith)
            requires
                x == f * cx + px,
                y == f * cy + py,
                0 <= px < f,
                0 <= py < f,
                0 <= x <= y,
        ;
        assert(cx * f <= cx * m) by (nonlinear_arith)
            requires
                0 <= cx,
                f <= m,
        ;
        lemma_mul_is_commutative(cx, f);
        if cx == cy {
            if px < py {
                assert(self.slot(symbol, px) < self.slot(symbol, py));
            }
        } else {
            assert(cx * m + m <= cy * m) by (nonlinear_arith)
                requires
                    cx + 1 <= cy,
                    0 <= m,
            ;
        }
    }

    /// On a complete table the slots of a symbol are at least as far apart
    /// as their phases.
    pub proof fn lemma_slot_gap(&self, symbol: u8, p: int, q: int)
        requires
            self.wf(),
            0 <= p <= q < self.freq(symbol),
        ensures
            q - p <= self.slot(symbol, q) - self.slot(symbol, p),
        decreases q - p,
    {
        if p < q {
            self.lemma_slot_gap(symbol, p, q - 1);
            assert(self.slot(symbol, q - 1) < self.slot(symbol, q));
        }
    }

    /// A state that a step has moved is moved by every further step: on a
    /// complete table, if appending `t` to `w` gives a state other than
    /// `w`, then appending any symbol of the alphabet to that state gives
    /// yet another state.
    pub proof fn lemma_moved_state_moves(&self, w: int, t: u8, s: u8)
        requires
            self.wf(),
            self.freq(t) > 0,
            self.freq(s) > 0,
            0 <= w,
            self.step(w, t) != w,
        ensures
            self.step(self.step(w, t), s) != self.step(w, t),
    {
        let m = self.m();
        let fs = self.freq(s);
        let ft = self.freq(t);
        let z = self.step(w, t);
        self.lemma_step_grows(w, w, t);
        if self.step(z, s) == z {
            lemma_mod_bound(z, fs);
            lemma_fundamental_div_mod(z, fs);
            lemma_mod_bound(w, ft);
            lemma_fundamental_div_mod(w, ft);
            let cz = z / fs;
            let pz = z % fs;
            let cw = w / ft;
            let pw = w % ft;
            self.lemma_slot_at_least_phase(s, pz);
            crate::uniform::lemma_entry_at_most_sum(self.frequencies@, s as int);
            assert(0 <= self.slot(t, pw) < m);
            assert(0 <= cz && 0 <= cw) by (nonlinear_arith)
                requires
                    z == fs * cz + pz,
                    0 <= pz < fs,
                    0 <= z,
                    w == ft * cw + pw,
                    0 <= pw < ft,
                    0 <= w,
            ;
            assert(cz * (m - fs) == 0 && self.slot(s, pz) == pz) by (nonlinear_arith)
                requires
                    z == fs * cz + pz,
                    z == cz * m + self.slot(s, pz),
                    self.slot(s, pz) >= pz,
                    m >= fs,
                    cz >= 0,
            ;
            if cz >= 1 {
                assert(m == fs) by (nonlinear_arith)
                    requires
                        cz * (m - fs) == 0,
                        cz >= 1,
                ;
                if s != t {
                    crate::uniform::lemma_two_entries_at_most_sum(
                        self.frequencies@,
                        s as int,
                        t as int,
                    );
                }
                assert(s == t);
                self.lemma_slot_gap(s, pw, fs - 1);
                self.lemma_slot_at_least_phase(s, pw);
                assert(self.slot(s, fs - 1) < m);
                assert(self.slot(s, pw) == pw);
                assert(cw * m + pw == w) by (nonlinear_arith)
                    requires
                        w == ft * cw + pw,
                        ft == m,
                ;
                assert(false);
            } else {
                assert(cz == 0);
                assert(z == pz) by (nonlinear_arith)
                    requires
                        z == fs * cz + pz,
                        cz == 0,
                ;
                if cw >= 1 {
                    assert(cw * m >= m) by (nonlinear_arith)
                        requires
                            cw >= 1,
                            m >= 0,
                    ;
                    assert(false);
                }
                assert(cw == 0);
                assert(w == pw) by (nonlinear_arith)
                    requires
                        w == ft * cw + pw,
                        cw == 0,
                ;
                assert(z == self.slot(t, pw)) by (nonlinear_arith)
                    requires
                        z == cw * m + self.slot(t, pw),
                        cw == 0,
                ;
                assert(self.decode@[self.slot(t, pw)] == (t, pw as u32));
                assert(self.decode@[self.slot(s, pz)] == (s, pz as u32));
                assert(false);
            }
        }
    }

    /// The decode table inverts the encode table: the slot that a symbol
    /// owns in a phase leads back to that symbol and phase.
    pub proof fn decode_inverts_encode(&self, symbol: u8, phase: int)
        requires
            self.wf(),
            0 <= phase < self.freq(symbol),
        ensures
            0 <= self.slot(symbol, phase) < self.m(),
            self.decode@[self.slot(symbol, phase)] == (symbol, phase as u32),
    {
    }

    /// A step stays within the cycle of its state: on a complete table
    /// the state after a step lies in `[cycle * M, (cycle + 1) * M)`,
    /// where `cycle` is the state before the step divided by the
    /// frequency of the symbol.
    pub proof fn step_within_cycle(&self, x: int, symbol: u8)
        requires
            self.wf(),
            self.freq(symbol) > 0,
            0 <= x,
        ensures
            (x / self.freq(symbol)) * self.m() <= self.step(x, symbol) < (x / self.freq(symbol)
                + 1) * self.m(),
    {
        let f = self.freq(symbol);
        let m = self.m();
        lemma_mod_bound(x, f);
        assert(0 <= self.slot(symbol, x % f) < m);
        assert((x / f + 1) * m == (x / f) * m + m) by (nonlinear_arith);
    }

    /// The inverse transform undoes the forward transform: on a complete
    /// table, removing the last symbol from `step(x, symbol)` gives back
    /// `symbol` and `x`.
    pub proof fn step_round_trip(&self, x: int, symbol: u8)
        requires
            self.wf(),
            self.freq(symbol) > 0,
            0 <= x,
        ensures
            self.unstep(self.step(x, symbol)) == (symbol, x),
    {
        let f = self.freq(symbol);
        let m = self.m();
        let c = x / f;
        let p = x % f;
        let v = self.slot(symbol, p);
        lemma_mod_bound(x, f);
        lemma_fundamental_div_mod(x, f);
        assert(0 <= v < m);
        assert(0 <= c) by (nonlinear_arith)
            requires
                c == x / f,
                0 <= x,
                f > 0,
        ;
        lemma_mul_is_commutative(c, m);
        lemma_fundamental_div_mod_converse(c * m + v, m, c, v);
        assert(self.decode@[v] == (symbol, p as u32));
        lemma_mul_is_commutative(c, f);
    }

    /// The forward transform undoes the inverse transform: on a complete
    /// table, appending the symbol that `unstep(x)` removed gives back `x`.
    pub proof fn unstep_round_trip(&self, x: int)
        requires
            self.wf(),
            0 <= x,
            self.m() > 0,
        ensures
            self.freq(self.unstep(x).0) > 0,
            0 <= self.unstep(x).1,
            self.step(self.unstep(x).1, self.unstep(x).0) == x,
    {
        let m = self.m();
        let c = x / m;
        let v = x % m;
        lemma_mod_bound(x, m);
        lemma_fundamental_div_mod(x, m);
        let (s, p32) = self.decode@[v];
        let p = p32 as int;
        let f = self.freq(s);
        assert(0 <= p < f && self.slot(s, p) == v);
        assert(0 <= c) by (nonlinear_arith)
            requires
                c == x / m,
                0 <= x,
                m > 0,
        ;
        lemma_mul_nonnegative(c, f);
        lemma_mul_is_commutative(c, f);
        lemma_fundamental_div_mod_converse(c * f + p, f, c, p);
        lemma_mul_is_commutative(c, m);
    }
}

} // verus!
