//! The noise generator: a xorshift register of period 2^128 - 1 with a fixed seed.

use vstd::prelude::*;

verus! {

/// The register word that enters when `a` and `t` are the newest and the oldest.
pub open spec fn fresh_word(a: u32, t: u32) -> u32 {
    let m = t ^ (t << 11);
    (m ^ (m >> 8)) ^ (a ^ (a >> 19))
}

/// The register after one step: a fresh word enters, the oldest leaves.
pub open spec fn stepped(s: Seq<u32>) -> Seq<u32> {
    seq![fresh_word(s[0], s[3]), s[0], s[1], s[2]]
}

/// The seed of the generator.
pub open spec fn seed() -> Seq<u32> {
    seq![123456789, 362436069, 521288629, 88675123]
}

/// Deterministic pseudo-random numbers.
pub struct Xorshift {
    s: [u32; 4],
}

impl Xorshift {
    /// The register, newest word first.
    pub closed spec fn view(&self) -> Seq<u32> {
        self.s@
    }

    /// A generator at its fixed seed.
    pub fn new() -> (rng: Self)
        ensures
            rng@ == seed(),
            rng@ == seq![123456789u32, 362436069, 521288629, 88675123],
    {
        let rng = Xorshift { s: [123456789, 362436069, 521288629, 88675123] };
        assert(rng@ =~= seed());
        rng
    }

    /// The next random number, a numerator over `u32::MAX`.
    pub fn uniform(&mut self) -> (r: u32)
        ensures
            final(self)@ == stepped(old(self)@),
            r == final(self)@[0],
            ({
                let t = old(self)@[3];
                let a = old(self)@[0];
                r == (t ^ (t << 11) ^ ((t ^ (t << 11)) >> 8) ^ a ^ (a >> 19))
            }),
            final(self)@.skip(1) == old(self)@.take(3),
    {
        let t: u32 = self.s[3];
        let a: u32 = self.s[0];
        let b: u32 = self.s[1];
        let c: u32 = self.s[2];
        let m: u32 = t ^ (t << 11);
        let fresh: u32 = (m ^ (m >> 8)) ^ (a ^ (a >> 19));
        self.s = [fresh, a, b, c];
        assert(self@ =~= stepped(old(self)@));
        assert(self@.skip(1) =~= old(self)@.take(3));
        assert(fresh == (t ^ (t << 11) ^ ((t ^ (t << 11)) >> 8) ^ a ^ (a >> 19))) by (bit_vector)
            requires
                m == t ^ (t << 11),
                fresh == (m ^ (m >> 8)) ^ (a ^ (a >> 19)),
        ;
        fresh
    }

    /// A random number from zero to `n`: the uniform number scaled and rounded
    /// down, so that `n` itself needs the largest draw.
    pub fn below_or_at(&mut self, n: u64) -> (k: u64)
        ensures
            final(self)@ == stepped(old(self)@),
            k == (final(self)@[0] * n) / u32::MAX as int,
            k <= n,
            k * 0xffff_ffff <= final(self)@[0] * n < (k + 1) * 0xffff_ffff,
    {
        let r: u32 = self.uniform();
        let ghost x = r * n;
        assert(0 <= x <= 0xffff_ffff * n) by (nonlinear_arith)
            requires
                x == r * n,
                0 <= r <= 0xffff_ffff,
                n >= 0,
        ;
        let top: u128 = r as u128 * n as u128;
        (top / u32::MAX as u128) as u64
    }
}

/// A step loses nothing: two registers that step to the same are the same.
pub proof fn lemma_step_is_reversible(s: Seq<u32>, t: Seq<u32>)
    requires
        s.len() == 4,
        t.len() == 4,
        stepped(s) == stepped(t),
    ensures
        s == t,
{
    let x = stepped(s);
    let y = stepped(t);
    assert(x[1] == s[0] && x[2] == s[1] && x[3] == s[2]);
    assert(y[1] == t[0] && y[2] == t[1] && y[3] == t[2]);
    assert(x[0] == fresh_word(s[0], s[3]) && y[0] == fresh_word(t[0], t[3]));
    let a = s[0];
    let u = s[3];
    let v = t[3];
    let m = u ^ (u << 11);
    let n = v ^ (v << 11);
    assert(u == v) by (bit_vector)
        requires
            (m ^ (m >> 8)) ^ (a ^ (a >> 19)) == (n ^ (n >> 8)) ^ (a ^ (a >> 19)),
            m == u ^ (u << 11),
            n == v ^ (v << 11),
    ;
    assert(s =~= t);
}

} // verus!
