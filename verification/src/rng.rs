//! The random number generator of the sampler.
use vstd::prelude::*;

verus! {

/// The SplitMix64 finaliser.
pub open spec fn mix(z: u64) -> u64 {
    let x = (z ^ (z >> 30)).wrapping_mul(0xBF58_476D_1CE4_E5B9u64);
    let y = (x ^ (x >> 27)).wrapping_mul(0x94D0_49BB_1331_11EBu64);
    y ^ (y >> 31)
}

/// The SplitMix64 increment.
pub const GOLDEN: u64 = 0x9E37_79B9_7F4A_7C15;

pub(crate) fn mix64(z: u64) -> (r: u64)
    ensures
        r == mix(z),
{
    let x: u64 = (z ^ (z >> 30)).wrapping_mul(0xBF58_476D_1CE4_E5B9);
    let y: u64 = (x ^ (x >> 27)).wrapping_mul(0x94D0_49BB_1331_11EB);
    y ^ (y >> 31)
}

/// The bits of `x` rotated left by `k`.
pub open spec fn rotl(x: u64, k: u64) -> u64 {
    (x << k) | (x >> ((64 - k) as u64))
}

fn rotate_left(x: u64, k: u64) -> (r: u64)
    requires
        0 < k < 64,
    ensures
        r == rotl(x, k),
{
    (x << k) | (x >> (64 - k))
}

/// The four words of generator state that a seed expands to: the outputs of SplitMix64.
pub open spec fn seeded(seed: u64) -> Seq<u64> {
    let z1 = seed.wrapping_add(GOLDEN);
    let z2 = z1.wrapping_add(GOLDEN);
    let z3 = z2.wrapping_add(GOLDEN);
    let z4 = z3.wrapping_add(GOLDEN);
    seq![mix(z1), mix(z2), mix(z3), mix(z4)]
}

/// The xoshiro256++ output of a state.
pub open spec fn output(s: Seq<u64>) -> u64 {
    rotl(s[0].wrapping_add(s[3]), 23).wrapping_add(s[0])
}

/// The xoshiro256++ successor of a state.
pub open spec fn successor(s: Seq<u64>) -> Seq<u64> {
    let s2 = s[2] ^ s[0];
    let s3 = s[3] ^ s[1];
    seq![s[0] ^ s3, s[1] ^ s2, s2 ^ (s[1] << 17), rotl(s3, 45)]
}

/// The low word of `x * n`: the part a debiased draw looks at.
pub open spec fn low_word(x: u64, n: u64) -> int {
    (x * n) % 0x1_0000_0000_0000_0000
}

/// Is `x` a draw that a debiased bound of `n` keeps? The `2^64 mod n` lowest are rejected.
pub open spec fn kept(x: u64, n: u64) -> bool {
    low_word(x, n) >= 0x1_0000_0000_0000_0000int % (n as int)
}

/// The first kept draw from state `s`, or the last of `1 + fuel`: what it is scaled to, and
/// the state it leaves.
pub open spec fn bounded_draw(s: Seq<u64>, n: u64, fuel: nat) -> (int, Seq<u64>)
    decreases fuel,
{
    let x = output(s);
    if kept(x, n) || fuel == 0 {
        ((x * n) / 0x1_0000_0000_0000_0000, successor(s))
    } else {
        bounded_draw(successor(s), n, (fuel - 1) as nat)
    }
}

/// xoshiro256++, seeded through SplitMix64.
#[derive(Debug)]
pub struct Rng {
    s: [u64; 4],
}

impl Rng {
    /// The generator's state.
    pub closed spec fn state(&self) -> Seq<u64> {
        self.s@
    }

    pub fn new(seed: u64) -> (r: Self)
        ensures
            r.state() == seeded(seed),
    {
        let z1: u64 = seed.wrapping_add(GOLDEN);
        let z2: u64 = z1.wrapping_add(GOLDEN);
        let z3: u64 = z2.wrapping_add(GOLDEN);
        let z4: u64 = z3.wrapping_add(GOLDEN);
        let r = Rng { s: [mix64(z1), mix64(z2), mix64(z3), mix64(z4)] };
        assert(r.state() =~= seeded(seed));
        r
    }

    pub fn next_u64(&mut self) -> (r: u64)
        ensures
            r == output(old(self).state()),
            final(self).state() == successor(old(self).state()),
    {
        let result: u64 = rotate_left(self.s[0].wrapping_add(self.s[3]), 23).wrapping_add(
            self.s[0],
        );
        let t: u64 = self.s[1] << 17;
        self.s[2] = self.s[2] ^ self.s[0];
        self.s[3] = self.s[3] ^ self.s[1];
        self.s[1] = self.s[1] ^ self.s[2];
        self.s[0] = self.s[0] ^ self.s[3];
        self.s[2] = self.s[2] ^ t;
        self.s[3] = rotate_left(self.s[3], 45);
        assert(self.state() =~= successor(old(self).state()));
        result
    }

    /// A uniform integer in `[0, n)`, debiased by rejection: the first draw that the bound
    /// keeps, scaled. After `u64::MAX` rejections in a row the next draw is taken as it is.
    pub fn randint(&mut self, n: u64) -> (r: u64)
        requires
            n > 0,
        ensures
            r < n,
            (r as int, final(self).state()) == bounded_draw(
                old(self).state(),
                n,
                u64::MAX as nat,
            ),
    {
        let rem: u64 = ((u64::MAX % n) + 1) % n;
        proof {
            lemma_remainder(n);
        }
        let mut fuel: u64 = u64::MAX;
        loop
            invariant
                n > 0,
                rem == 0x1_0000_0000_0000_0000int % (n as int),
                bounded_draw(self.state(), n, fuel as nat) == bounded_draw(
                    old(self).state(),
                    n,
                    u64::MAX as nat,
                ),
            decreases fuel,
        {
            let x: u64 = self.next_u64();
            assert(x * n <= 0xFFFF_FFFF_FFFF_FFFF * 0xFFFF_FFFF_FFFF_FFFF) by (nonlinear_arith)
                requires
                    0 <= x <= 0xFFFF_FFFF_FFFF_FFFF,
                    0 <= n <= 0xFFFF_FFFF_FFFF_FFFF,
            ;
            let m: u128 = (x as u128) * (n as u128);
            let low: u128 = m % 0x1_0000_0000_0000_0000;
            if low >= rem as u128 || fuel == 0 {
                let high: u128 = m / 0x1_0000_0000_0000_0000;
                assert(high < n) by (nonlinear_arith)
                    requires
                        m == x * n,
                        high == m / 0x1_0000_0000_0000_0000,
                        0 <= x < 0x1_0000_0000_0000_0000,
                        n > 0,
                ;
                return high as u64;
            }
            fuel = fuel - 1;
        }
    }
}

impl Clone for Rng {
    fn clone(&self) -> (r: Self)
        ensures
            r == *self,
    {
        Rng { s: self.s }
    }
}

/// `2^64 mod n`, computed without leaving 64 bits.
proof fn lemma_remainder(n: u64)
    requires
        n > 0,
    ensures
        (u64::MAX as int % n as int) + 1 <= u64::MAX,
        ((u64::MAX as int % n as int) + 1) % (n as int) == 0x1_0000_0000_0000_0000int % (n as int),
{
    let m = n as int;
    let a = u64::MAX as int;
    vstd::arithmetic::div_mod::lemma_add_mod_noop(a, 1, m);
    vstd::arithmetic::div_mod::lemma_mod_bound(a, m);
    if m == 1 {
    } else {
        vstd::arithmetic::div_mod::lemma_small_mod(1, m as nat);
    }
}

} // verus!
