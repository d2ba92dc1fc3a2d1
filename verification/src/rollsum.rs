//! A sum over the last bytes of a stream that is cheap to move on by one byte.

use vstd::prelude::*;

verus! {

/// The number of bytes that the sum looks back on.
pub const WINDOWSIZE: u32 = 64;

/// What is added to each byte before it is summed.
pub const ROLLSUM_CHAR_OFFSET: u32 = 31;

/// The number of bytes after which a chunk ends on average.
pub const AVERAGE_CHUNK_SIZE: usize = 8192;

/// The bits of a digest that are all zero where a chunk ends.
pub const SPLIT_MASK: u64 = 0x1fff;

/// The number of bytes after which a chunk ends whatever its digest is.
pub const MAX_CHUNK_SIZE: usize = 32768;

/// The bits of a digest that are all set where a list of the first, second, third and fourth
/// level ends. None of them is one of `SPLIT_MASK`.
pub const FAN_MASKS: [u64; 4] = [0x0001_e000, 0x001f_e000, 0x01ff_e000, 0x1fff_e000];

/// The rolling sum.
pub struct Rollsum {
    s1: u32,
    s2: u32,
    wofs: usize,
    window: [u8; 64],
}

/// The bytes of `w`, each with the offset added, summed.
pub open spec fn plain_sum(w: Seq<u8>) -> nat
    decreases w.len(),
{
    if w.len() == 0 {
        0
    } else {
        plain_sum(w.drop_last()) + w.last() as nat + 31
    }
}

/// The bytes of `w`, each with the offset added, summed with the weights `w.len()` for the first
/// down to 1 for the last.
pub open spec fn weighted_sum(w: Seq<u8>) -> nat
    decreases w.len(),
{
    if w.len() == 0 {
        0
    } else {
        weighted_sum(w.drop_last()) + plain_sum(w)
    }
}

/// The digest of a window: the plain sum in its upper half, the lower half of the weighted sum,
/// moved by a constant, in its lower half.
pub open spec fn window_digest(w: Seq<u8>) -> nat {
    plain_sum(w) * 65536 + (weighted_sum(w) + 60512) % 65536
}

/// The window before the first byte.
pub open spec fn zero_window() -> Seq<u8> {
    Seq::new(64, |i: int| 0u8)
}

/// The window `w` after the bytes `data`: the last ones of the two.
pub open spec fn slide(w: Seq<u8>, data: Seq<u8>) -> Seq<u8> {
    (w + data).skip(data.len() as int)
}

/// Moving over two runs of bytes is moving over both as one.
pub proof fn law_slide_concat(w: Seq<u8>, a: Seq<u8>, b: Seq<u8>)
    ensures
        slide(slide(w, a), b) == slide(w, a + b),
{
    assert(slide(slide(w, a), b) =~= slide(w, a + b));
}

/// The digest depends on the last window of bytes only: streams that agree there have the same
/// digest, whatever came before.
pub proof fn law_digest_is_local(a: Seq<u8>, b: Seq<u8>)
    requires
        a.len() >= 64,
        b.len() >= 64,
        a.skip(a.len() - 64) == b.skip(b.len() - 64),
    ensures
        window_digest(slide(zero_window(), a)) == window_digest(slide(zero_window(), b)),
{
    assert(slide(zero_window(), a) =~= a.skip(a.len() - 64));
    assert(slide(zero_window(), b) =~= b.skip(b.len() - 64));
}

proof fn lemma_sums_bounded(w: Seq<u8>)
    requires
        w.len() <= 64,
    ensures
        plain_sum(w) <= 286 * w.len(),
        weighted_sum(w) <= 18304 * w.len(),
    decreases w.len(),
{
    if w.len() > 0 {
        lemma_sums_bounded(w.drop_last());
    }
}

proof fn lemma_sums_drop_first(w: Seq<u8>)
    requires
        w.len() > 0,
    ensures
        plain_sum(w) == plain_sum(w.drop_first()) + w[0] as nat + 31,
        weighted_sum(w) == weighted_sum(w.drop_first()) + w.len() * (w[0] as nat + 31),
    decreases w.len(),
{
    if w.len() == 1 {
        assert(w.drop_last() =~= Seq::<u8>::empty());
        assert(w.drop_first() =~= Seq::<u8>::empty());
        reveal_with_fuel(plain_sum, 2);
        reveal_with_fuel(weighted_sum, 2);
    } else {
        let v = w.drop_last();
        lemma_sums_drop_first(v);
        assert(w.drop_first().drop_last() =~= v.drop_first());
        let c = w[0] as nat + 31;
        assert(v.len() * c + c == w.len() * c) by (nonlinear_arith)
            requires
                v.len() + 1 == w.len(),
        ;
    }
}

proof fn lemma_sums_of_zeros(n: nat)
    ensures
        plain_sum(Seq::new(n, |i: int| 0u8)) == 31 * n,
        2 * weighted_sum(Seq::new(n, |i: int| 0u8)) == 31 * (n * (n + 1)),
    decreases n,
{
    let z = Seq::new(n, |i: int| 0u8);
    if n > 0 {
        let m = (n - 1) as nat;
        lemma_sums_of_zeros(m);
        assert(z.drop_last() =~= Seq::new(m, |i: int| 0u8));
        assert(n * (n + 1) == m * (m + 1) + 2 * n) by (nonlinear_arith)
            requires
                n == m + 1,
        ;
    }
}

impl View for Rollsum {
    type V = Seq<u8>;

    /// The last bytes, the oldest first.
    closed spec fn view(&self) -> Seq<u8> {
        unrolled(self.window@, self.wofs as int)
    }
}

/// The bytes of a circular window, read from place `at` on.
spec fn unrolled(window: Seq<u8>, at: int) -> Seq<u8> {
    Seq::new(
        64,
        |i: int|
            if at + i < 64 {
                window[at + i]
            } else {
                window[at + i - 64]
            },
    )
}

impl Rollsum {
    #[verifier::type_invariant]
    spec fn consistent(&self) -> bool {
        &&& self.wofs < 64
        &&& self.s1 == plain_sum(self@)
        &&& self.s2 == weighted_sum(self@) + 60512
    }

    /// The sum before the first byte.
    pub fn new() -> (r: Self)
        ensures
            r@ == zero_window(),
    {
        proof {
            lemma_sums_of_zeros(64);
        }
        let n: u32 = WINDOWSIZE;
        assert(n * (n - 1) == 4032) by (nonlinear_arith)
            requires
                n == 64,
        ;
        let window: [u8; 64] = [0u8; 64];
        assert(unrolled(window@, 0) =~= zero_window());
        Self {
            s1: n * ROLLSUM_CHAR_OFFSET,
            s2: n * (n - 1) * ROLLSUM_CHAR_OFFSET,
            wofs: 0,
            window,
        }
    }

    /// The two sums after `drop` has left the window and `add` has come.
    fn add(&self, drop: u8, add: u8) -> (r: (u32, u32))
        requires
            drop == self@[0],
        ensures
            r.0 == plain_sum(self@.drop_first().push(add)),
            r.1 == weighted_sum(self@.drop_first().push(add)) + 60512,
    {
        proof {
            use_type_invariant(self);
            let w = self@;
            let v = w.drop_first();
            lemma_sums_drop_first(w);
            lemma_sums_bounded(w);
            lemma_sums_bounded(v);
            lemma_sums_bounded(v.push(add));
            assert(v.push(add).drop_last() =~= v);
        }
        let s1 = self.s1.wrapping_add(add as u32).wrapping_sub(drop as u32);
        let s2 = self.s2.wrapping_add(s1).wrapping_sub(
            WINDOWSIZE * (drop as u32 + ROLLSUM_CHAR_OFFSET),
        );
        (s1, s2)
    }

    /// Moves the window on by one byte.
    pub fn roll(&mut self, ch: u8)
        ensures
            final(self)@ == old(self)@.drop_first().push(ch),
    {
        proof {
            use_type_invariant(&*self);
        }
        let ghost w = self@;
        let drop: u8 = self.window[self.wofs];
        let (s1, s2) = self.add(drop, ch);
        let mut window: [u8; 64] = self.window;
        window[self.wofs] = ch;
        let wofs: usize = (self.wofs + 1) % 64;
        assert(unrolled(window@, wofs as int) =~= w.drop_first().push(ch));
        *self = Self { s1, s2, wofs, window };
    }

    /// Moves the window on over `buffer`.
    pub fn sum(&mut self, buffer: &[u8])
        ensures
            final(self)@ == slide(old(self)@, buffer@),
    {
        let ghost w = self@;
        let mut i: usize = 0;
        assert(slide(w, buffer@.take(0)) =~= w);
        while i < buffer.len()
            invariant
                i <= buffer@.len(),
                w.len() == 64,
                self@ == slide(w, buffer@.take(i as int)),
            decreases buffer@.len() - i,
        {
            self.roll(buffer[i]);
            assert(slide(w, buffer@.take(i as int)).drop_first().push(buffer@[i as int]) =~= slide(
                w,
                buffer@.take(i + 1),
            ));
            i += 1;
        }
        assert(buffer@.take(i as int) =~= buffer@);
    }

    /// The digest of the window.
    pub fn digest(&self) -> (d: u32)
        ensures
            d == window_digest(self@),
    {
        proof {
            use_type_invariant(self);
            lemma_sums_bounded(self@);
            let s1 = self.s1;
            let s2 = self.s2;
            assert((s1 << 16) | (s2 & 0xffff) == s1 * 65536 + s2 % 65536) by (bit_vector)
                requires
                    s1 < 0x8000,
            ;
        }
        (self.s1 << 16) | (self.s2 & 0xffff)
    }
}

/// The plain sum of bytes adds up the bytes, 31 more for each. In the weighted sum a byte counts once
/// for itself and once more for each byte that comes after it.
pub proof fn law_sums_add_up(a: Seq<u8>, b: Seq<u8>, x: u8)
    ensures
        plain_sum(Seq::<u8>::empty()) == 0,
        weighted_sum(Seq::<u8>::empty()) == 0,
        plain_sum(seq![x]) == x + 31,
        weighted_sum(seq![x]) == x + 31,
        plain_sum(a + b) == plain_sum(a) + plain_sum(b),
        weighted_sum(a + b) == weighted_sum(a) + b.len() * plain_sum(a) + weighted_sum(b),
    decreases b.len(),
{
    let one = seq![x];
    assert(one.drop_last() =~= Seq::<u8>::empty());
    assert(plain_sum(one.drop_last()) == 0);
    assert(weighted_sum(one.drop_last()) == 0);
    if b.len() == 0 {
        assert(a + b =~= a);
        assert(b.len() * plain_sum(a) == 0) by (nonlinear_arith)
            requires
                b.len() == 0,
        ;
    } else {
        let front = b.drop_last();
        law_sums_add_up(a, front, x);
        assert((a + b).drop_last() =~= a + front);
        let p = plain_sum(a);
        assert(front.len() * p + p == b.len() * p) by (nonlinear_arith)
            requires
                front.len() + 1 == b.len(),
        ;
    }
}

/// The digest is the plain sum of the last 64 bytes, and below it the sixteen lowest bits of their
/// weighted sum, moved so that those of 64 zeros are those of 64 times 63 times 31.
pub proof fn law_digest_of_the_last_bytes(data: Seq<u8>)
    requires
        data.len() >= 64,
    ensures
        ({
            let digest = window_digest(slide(zero_window(), data));
            let last = data.skip(data.len() - 64);
            &&& digest / 65536 == plain_sum(last)
            &&& digest % 65536 == (weighted_sum(last) - weighted_sum(
                Seq::new(64, |i: int| 0u8),
            ) + 64 * 63 * 31) % 65536
        }),
{
    let last = data.skip(data.len() - 64);
    assert(slide(zero_window(), data) =~= last);
    lemma_sums_of_zeros(64);
    assert(64 * (64 + 1) == 4160int) by (nonlinear_arith);
    assert(weighted_sum(Seq::new(64, |i: int| 0u8)) == 64480);
}

/// Before there are 64 bytes, zeros stand for those that are missing.
pub proof fn law_zeros_come_before_the_first_bytes(data: Seq<u8>)
    requires
        data.len() <= 64,
    ensures
        slide(zero_window(), data) == Seq::new((64 - data.len()) as nat, |i: int| 0u8) + data,
{
    assert(slide(zero_window(), data) =~= Seq::new((64 - data.len()) as nat, |i: int| 0u8) + data);
}

} // verus!
