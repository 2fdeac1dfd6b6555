//! The pseudorandom number generator of the rule seed manuals.
//!
//! The generator keeps 55 words. A draw takes the word under the cursor and
//! moves the cursor on; when the cursor has passed the last word, every word
//! is replaced and the cursor starts again.

use crate::binary64::{
    bit_length, lemma_bit_length_at_least, lemma_bit_length_below, lemma_nearest_canonical,
    lemma_nearest_exact, lemma_nearest_finite, lemma_nearest_wide, lemma_nearest_zero,
    lemma_of_nat, lemma_plus_below, lemma_units_exponent, nearest, scaled, Double,
};
use vstd::arithmetic::power2::{
    lemma2_to64, lemma2_to64_rest, lemma_pow2_adds, lemma_pow2_pos,
    lemma_pow2_strictly_increases, pow2,
};
use vstd::prelude::*;

verus! {

/// The number of words the generator keeps.
pub const SEED_LEN: usize = 55;

/// The upper bound of the values that [`RuleseedRandom::next_int`] returns,
/// and the largest rule seed.
pub const MAX_VALUE: u32 = 0x7FFF_FFFF;

/// The seed of the manual that the game ships with.
pub const VANILLA_SEED: u32 = 1;

/// `lhs - rhs` where that is not negative. Otherwise the difference wraps
/// around `2^32`, and `MAX_VALUE` is added to it, wrapping again.
pub open spec fn diffwrap(lhs: u32, rhs: u32) -> u32 {
    if lhs >= rhs {
        (lhs - rhs) as u32
    } else {
        ((lhs - rhs + 0x1_0000_0000 + 0x7FFF_FFFF) % 0x1_0000_0000) as u32
    }
}

/// The words after slots `i..55` have been replaced in turn, each by the
/// wrapped difference of itself and the slot 31 places on, around the end.
pub open spec fn reseed_from(words: Seq<u32>, i: int) -> Seq<u32>
    decreases 55 - i,
{
    if i < 0 || i >= 55 {
        words
    } else {
        reseed_from(words.update(i, diffwrap(words[i], words[(i + 31) % 55])), i + 1)
    }
}

/// The words after every slot has been replaced.
pub open spec fn reseed(words: Seq<u32>) -> Seq<u32> {
    reseed_from(words, 0)
}

/// The words after the values of the seeding sequence from its `i`th on have
/// been written: `next` goes to slot `21 * i % 55 - 1`, and the sequence goes
/// on with the wrapped difference of `last` and `next`.
pub open spec fn scatter_from(words: Seq<u32>, i: int, last: u32, next: u32) -> Seq<u32>
    decreases 55 - i,
{
    if i < 1 || i >= 55 {
        words
    } else {
        scatter_from(words.update(21 * i % 55 - 1, next), i + 1, next, diffwrap(last, next))
    }
}

/// The words that a seed is spread into, before they are mixed.
pub open spec fn scattered(seed: u32) -> Seq<u32> {
    let last = diffwrap(161_803_398, seed);
    scatter_from(Seq::new(55, |i: int| 0u32).update(54, last), 1, last, 1)
}

/// What a generator holds: its words and the place of its cursor.
pub struct RandomState {
    pub words: Seq<u32>,
    pub cursor: int,
}

impl RandomState {
    /// There are 55 words, each below `MAX_VALUE`, and the cursor is on one.
    pub open spec fn wf(self) -> bool {
        &&& self.words.len() == 55
        &&& 0 <= self.cursor < 55
        &&& forall|i: int| 0 <= i < 55 ==> self.words[i] < MAX_VALUE
    }

    /// The state of a generator that was just made from `seed`.
    pub open spec fn seeded(seed: u32) -> RandomState {
        let once = reseed(scattered(seed));
        let twice = reseed(once);
        let thrice = reseed(twice);
        let fourfold = reseed(thrice);
        RandomState { words: reseed(fourfold), cursor: 0 }
    }

    /// The word that the next draw takes.
    pub open spec fn word(self) -> u32 {
        self.words[self.cursor]
    }

    /// The state after one draw.
    pub open spec fn step(self) -> RandomState {
        if self.cursor + 1 >= 55 {
            RandomState { words: reseed(self.words), cursor: 0 }
        } else {
            RandomState { words: self.words, cursor: self.cursor + 1 }
        }
    }

    /// The state after `n` draws.
    pub open spec fn steps(self, n: nat) -> RandomState
        decreases n,
    {
        if n == 0 {
            self
        } else {
            self.step().steps((n - 1) as nat)
        }
    }

    /// The next draw as a number in the unit interval.
    pub open spec fn double(self) -> Double {
        unit_draw(self.word())
    }

    /// The next draw scaled to `0..max_value`.
    pub open spec fn below(self, max_value: u32) -> nat {
        if max_value <= 1 {
            0
        } else {
            scaled_draw(self.word(), max_value)
        }
    }

    /// The state after a draw scaled to `0..max_value`, which takes no word
    /// where only zero can come out.
    pub open spec fn after_below(self, max_value: u32) -> RandomState {
        if max_value <= 1 {
            self
        } else {
            self.step()
        }
    }
}

/// The binary64 number nearest to one over `MAX_VALUE`: `2^-31 + 2^-62`.
pub open spec fn unit_step() -> Double {
    Double::from_parts((0x10_0000_0020_0000, -83))
}

/// The draw that the word `word` gives: the word times one over `MAX_VALUE`.
pub open spec fn unit_draw(word: u32) -> Double {
    Double::of_nat(word as nat).times(unit_step())
}

/// The draw of `word` scaled to `0..max_value`.
pub open spec fn scaled_draw(word: u32, max_value: u32) -> nat {
    unit_draw(word).times(Double::of_nat(max_value as nat)).integer_part()
}

proof fn lemma_pow2_range(e: nat, lo: nat, hi: nat)
    requires
        lo <= e <= hi,
    ensures
        pow2(lo) <= pow2(e) <= pow2(hi),
{
    if lo < e {
        lemma_pow2_strictly_increases(lo, e);
    }
    if e < hi {
        lemma_pow2_strictly_increases(e, hi);
    }
}

/// A word below `MAX_VALUE` gives a draw below one, and scaling that draw to
/// `0..max_value` gives an integer below `max_value`: neither rounding
/// reaches the bound.
pub proof fn lemma_scaled_draw_in_range(word: u32, max_value: u32)
    requires
        word < MAX_VALUE,
        max_value >= 2,
    ensures
        unit_draw(word).wf(),
        unit_draw(word).exp() <= -53,
        unit_draw(word).times(Double::of_nat(max_value as nat)).wf(),
        scaled_draw(word, max_value) < max_value,
{
    lemma2_to64();
    lemma2_to64_rest();
    let v = word as nat;
    let n = max_value as nat;
    let c = 0x10_0000_0020_0000nat;
    Double::lemma_from_parts((c, -83));
    lemma_of_nat(n);
    lemma_bit_length_below(n, 32);
    lemma_bit_length_at_least(n, 1);
    let b = (53 - bit_length(n)) as nat;
    let nm = n * pow2(b);
    let scale = Double::of_nat(n);
    assert(scale.mant() == nm);
    assert(scale.exp() == -(b as int));
    assert(0x10_0000_0000_0000 <= nm < 0x20_0000_0000_0000);
    if v == 0 {
        lemma_nearest_zero(0);
        Double::lemma_from_parts((0, -1074));
        assert(Double::of_nat(0).mant() * c == 0);
        lemma_nearest_zero(-1074 - 83);
        let d = unit_draw(word);
        assert(d == Double::from_parts((0, -1074)));
        assert(d.mant() * nm == 0) by (nonlinear_arith)
            requires
                d.mant() == 0,
        ;
        lemma_nearest_zero(-1074 - b);
        let r = d.times(scale);
        assert(r == Double::from_parts((0, -1074)));
        lemma_pow2_pos(1074);
        vstd::arithmetic::div_mod::lemma_basic_div(0, pow2(1074) as int);
    } else {
        lemma_of_nat(v);
        lemma_bit_length_below(v, 31);
        let a = (53 - bit_length(v)) as nat;
        let big_a = pow2(a);
        lemma_pow2_range(a, 22, 52);
        let vm = v * big_a;
        assert(Double::of_nat(v).mant() == vm);
        assert(Double::of_nat(v).exp() == -(a as int));
        let first_product = vm * c;
        let e1 = -(a as int) - 83;
        lemma_pow2_adds(52, 52);
        lemma_pow2_adds(53, 53);
        lemma_pow2_adds(64, 40);
        lemma_pow2_adds(64, 42);
        assert(pow2(104) <= first_product < pow2(106)) by (nonlinear_arith)
            requires
                first_product == vm * c,
                0x10_0000_0000_0000 <= vm < 0x20_0000_0000_0000,
                c == 0x10_0000_0020_0000,
                pow2(104) == 0x10_0000_0000_0000 * 0x10_0000_0000_0000,
                pow2(106) == 0x20_0000_0000_0000 * 0x20_0000_0000_0000,
        ;
        lemma_bit_length_at_least(first_product, 104);
        lemma_bit_length_below(first_product, 106);
        lemma_nearest_wide(first_product, e1);
        let q1 = nearest(first_product, e1).0;
        let f1 = nearest(first_product, e1).1;
        let g = (f1 - e1) as nat;
        let big_g = pow2(g);
        lemma_pow2_range(g, 52, 54);
        lemma_pow2_range((bit_length(first_product) - 53) as nat, 52, 53);
        Double::lemma_from_parts((q1, f1));
        let d = unit_draw(word);
        assert(d == Double::from_parts((q1, f1)));
        // the draw stays below one by a margin
        let x = pow2((-f1) as nat);
        lemma_pow2_adds((-f1) as nat, g);
        lemma_pow2_adds(a, 83);
        lemma_pow2_adds(64, 19);
        assert(x * big_g == big_a * pow2(83));
        assert(v * c <= 0x7FFF_FFFE * 0x10_0000_0020_0000);
        assert(q1 * big_g + 0x8_0000_0000_0000 * big_a <= big_a * pow2(83)) by (nonlinear_arith)
            requires
                q1 * big_g <= first_product + 0x20_0000_0000_0000,
                first_product == v * big_a * c,
                v * c <= 0x7FFF_FFFE * 0x10_0000_0020_0000,
                big_a >= 0x40_0000,
                pow2(83) == 0x8_0000_0000_0000_0000_0000,
        ;
        assert(x - q1 >= 0x8_0000) by (nonlinear_arith)
            requires
                q1 * big_g + 0x8_0000_0000_0000 * big_a <= x * big_g,
                big_a >= 0x40_0000,
                0 < big_g <= 0x40_0000_0000_0000,
        ;
        lemma_pow2_range((-f1) as nat, 51, 83);
        if f1 > -53 {
            lemma_pow2_range((-f1) as nat, 51, 52);
            assert(false);
        }
        // scaling it
        let second_product = q1 * nm;
        let e2 = f1 - b;
        assert(pow2(104) <= second_product < pow2(106)) by (nonlinear_arith)
            requires
                second_product == q1 * nm,
                0x10_0000_0000_0000 <= q1 < 0x20_0000_0000_0000,
                0x10_0000_0000_0000 <= nm < 0x20_0000_0000_0000,
                pow2(104) == 0x10_0000_0000_0000 * 0x10_0000_0000_0000,
                pow2(106) == 0x20_0000_0000_0000 * 0x20_0000_0000_0000,
        ;
        lemma_bit_length_at_least(second_product, 104);
        lemma_bit_length_below(second_product, 106);
        lemma_nearest_wide(second_product, e2);
        let q2 = nearest(second_product, e2).0;
        let f2 = nearest(second_product, e2).1;
        let g2 = (f2 - e2) as nat;
        let big_g2 = pow2(g2);
        lemma_pow2_range((bit_length(second_product) - 53) as nat, 52, 53);
        lemma_pow2_pos(g2);
        Double::lemma_from_parts((q2, f2));
        let r = d.times(scale);
        assert(r == Double::from_parts((q2, f2)));
        let y = pow2((-f2) as nat);
        lemma_pow2_pos((-f2) as nat);
        lemma_pow2_adds((-f2) as nat, g2);
        lemma_pow2_adds(b, (-f1) as nat);
        assert(nm * x == n * (y * big_g2)) by (nonlinear_arith)
            requires
                nm == n * pow2(b),
                pow2(b) * x == y * big_g2,
        ;
        assert(q2 * big_g2 < n * y * big_g2) by (nonlinear_arith)
            requires
                q2 * big_g2 <= q1 * nm + 0x20_0000_0000_0000,
                x - q1 >= 0x8_0000,
                nm >= 0x10_0000_0000_0000,
                nm * x == n * (y * big_g2),
        ;
        assert(q2 < n * y) by (nonlinear_arith)
            requires
                q2 * big_g2 < n * y * big_g2,
                big_g2 > 0,
        ;
        assert(q2 / y < n) by (nonlinear_arith)
            requires
                q2 < n * y,
                y > 0,
        ;
    }
}

/// A pseudorandom number generator that yields the same numbers as the one
/// that generates the manuals.
pub struct RuleseedRandom {
    seed_array: [u32; 55],
    next_index: usize,
}

impl View for RuleseedRandom {
    type V = RandomState;

    closed spec fn view(&self) -> RandomState {
        RandomState { words: self.seed_array@, cursor: self.next_index as int }
    }
}

impl RuleseedRandom {
    /// Subtracts with the wrapping that the generator is built on.
    fn diffwrap(lhs: u32, rhs: u32) -> (r: u32)
        ensures
            r == diffwrap(lhs, rhs),
    {
        if lhs >= rhs {
            lhs - rhs
        } else {
            let wrapped: u64 = lhs as u64 + 0x1_0000_0000 - rhs as u64 + MAX_VALUE as u64;
            (wrapped % 0x1_0000_0000) as u32
        }
    }

    /// Replaces every word, once all of them have been drawn.
    fn reseed(&mut self)
        requires
            forall|k: int| 0 <= k < 55 ==> old(self).seed_array@[k] < MAX_VALUE,
        ensures
            final(self).seed_array@ == reseed(old(self).seed_array@),
            final(self).next_index == old(self).next_index,
            forall|k: int| 0 <= k < 55 ==> final(self).seed_array@[k] < MAX_VALUE,
    {
        let mut i: usize = 0;
        while i < 55
            invariant
                i <= 55,
                self.next_index == old(self).next_index,
                self.seed_array@.len() == 55,
                forall|k: int| 0 <= k < 55 ==> self.seed_array@[k] < MAX_VALUE,
                reseed_from(self.seed_array@, i as int) == reseed(old(self).seed_array@),
            decreases 55 - i,
        {
            let j: usize = (i + 31) % 55;
            let replaced: u32 = Self::diffwrap(self.seed_array[i], self.seed_array[j]);
            self.seed_array[i] = replaced;
            i = i + 1;
        }
    }

    /// Creates a generator from `seed`.
    pub fn new(seed: u32) -> (random: Self)
        requires
            seed <= MAX_VALUE,
        ensures
            random@ == RandomState::seeded(seed),
            random@.wf(),
    {
        let mut seed_array: [u32; 55] = [0; 55];
        let mut last: u32 = Self::diffwrap(161_803_398, seed);
        seed_array[54] = last;
        let mut next: u32 = 1;
        assert(seed_array@ =~= Seq::new(55, |i: int| 0u32).update(54, last));
        let mut i: usize = 1;
        while i < 55
            invariant
                1 <= i <= 55,
                last < MAX_VALUE,
                next < MAX_VALUE,
                seed_array@.len() == 55,
                forall|k: int| 0 <= k < 55 ==> seed_array@[k] < MAX_VALUE,
                scatter_from(seed_array@, i as int, last, next) == scattered(seed),
            decreases 55 - i,
        {
            let slot: usize = 21 * i % 55 - 1;
            seed_array[slot] = next;
            let current: u32 = next;
            next = Self::diffwrap(last, next);
            last = current;
            i = i + 1;
        }
        let mut random = RuleseedRandom { seed_array, next_index: 0 };
        random.reseed();
        random.reseed();
        random.reseed();
        random.reseed();
        random.reseed();
        random
    }

    /// One over `MAX_VALUE`, rounded.
    fn unit_step() -> (d: Double)
        ensures
            d == unit_step(),
            d.wf(),
            d.exp() == -83,
    {
        Double::from_canonical(0x10_0000_0020_0000, -83)
    }

    /// Draws a number from the unit interval: the word under the cursor times
    /// one over `MAX_VALUE`, rounded once for that constant and once for the
    /// product.
    pub fn next_double(&mut self) -> (d: Double)
        requires
            old(self)@.wf(),
        ensures
            d == old(self)@.double(),
            d.wf(),
            d.exp() <= -53,
            final(self)@ == old(self)@.step(),
            final(self)@.wf(),
    {
        let word: u32 = self.seed_array[self.next_index];
        proof {
            lemma_scaled_draw_in_range(word, 2);
        }
        self.next_index = self.next_index + 1;
        if self.next_index >= 55 {
            self.reseed();
            self.next_index = 0;
        }
        let step = Self::unit_step();
        Double::from_u32(word).mul(step)
    }

    /// Draws an integer below `max_value`, or zero where there is none.
    pub fn next_below(&mut self, max_value: u32) -> (r: u32)
        requires
            old(self)@.wf(),
        ensures
            r == old(self)@.below(max_value),
            max_value >= 1 ==> r < max_value,
            final(self)@ == old(self)@.after_below(max_value),
            final(self)@.wf(),
    {
        if max_value <= 1 {
            0
        } else {
            proof {
                lemma_scaled_draw_in_range(self@.word(), max_value);
            }
            let d = self.next_double();
            let scale = Double::from_u32(max_value);
            d.mul(scale).floor_u32()
        }
    }

    /// Draws an integer below `MAX_VALUE`.
    pub fn next_int(&mut self) -> (r: u32)
        requires
            old(self)@.wf(),
        ensures
            r == old(self)@.below(MAX_VALUE),
            r < MAX_VALUE,
            final(self)@ == old(self)@.step(),
            final(self)@.wf(),
    {
        self.next_below(MAX_VALUE)
    }

    /// Draws an integer from `lower_bound..upper_bound`, or `lower_bound`
    /// where the range is empty.
    pub fn next(&mut self, lower_bound: u32, upper_bound: u32) -> (r: u32)
        requires
            old(self)@.wf(),
            lower_bound <= upper_bound,
        ensures
            r == old(self)@.below((upper_bound - lower_bound) as u32) + lower_bound,
            lower_bound <= r,
            lower_bound < upper_bound ==> r < upper_bound,
            final(self)@ == old(self)@.after_below((upper_bound - lower_bound) as u32),
            final(self)@.wf(),
    {
        self.next_below(upper_bound - lower_bound) + lower_bound
    }

    /// Shuffles `slice` by sorting: a draw from the unit interval is taken
    /// for every item, in their order, and the items are put in the order of
    /// their draws. Items with the same draw stay in their order.
    /// [`RuleseedRandom::shuffle_fisher_yates`] is the better way to shuffle.
    pub fn shuffle_by_sorting<T>(&mut self, slice: &mut [T])
        requires
            old(self)@.wf(),
        ensures
            final(slice)@ == shuffled_by_sorting(old(self)@, old(slice)@),
            final(self)@ == old(self)@.steps(old(slice)@.len()),
            final(self)@.wf(),
    {
        let n: usize = slice.len();
        let mut keys: Vec<Double> = Vec::new();
        let mut drawn: usize = 0;
        while drawn < n
            invariant
                drawn <= n,
                n == slice@.len(),
                slice@ == old(slice)@,
                self@.wf(),
                self@ == old(self)@.steps(drawn as nat),
                keys@ == draws(old(self)@, drawn as nat),
                keys@.len() == drawn,
                forall|k: int| 0 <= k < keys@.len() ==> (#[trigger] keys@[k]).wf(),
            decreases n - drawn,
        {
            proof {
                lemma_steps_step(old(self)@, drawn as nat);
            }
            let key = self.next_double();
            keys.push(key);
            drawn = drawn + 1;
        }
        let ghost unsorted = keyed(keys@, slice@);
        assert(unsorted.take(0) =~= Seq::<(nat, T)>::empty());
        assert(keyed(keys@, slice@) =~= sort_by_key(unsorted.take(0)) + unsorted.skip(0));
        let mut i: usize = 0;
        while i < n
            invariant
                i <= n,
                n == slice@.len(),
                n == keys@.len(),
                unsorted.len() == n,
                forall|k: int| 0 <= k < keys@.len() ==> (#[trigger] keys@[k]).wf(),
                sort_by_key(unsorted.take(i as int)).len() == i,
                keyed(keys@, slice@) == sort_by_key(unsorted.take(i as int)) + unsorted.skip(
                    i as int,
                ),
            decreases n - i,
        {
            let ghost sorted = sort_by_key(unsorted.take(i as int));
            let ghost item = unsorted[i as int];
            let ghost rest = unsorted.skip(i + 1);
            let mut j: usize = i;
            assert(keyed(keys@, slice@) =~= sorted.take(j as int).push(item) + sorted.skip(j as int)
                + rest);
            while j > 0 && keys[j].lt(keys[j - 1])
                invariant
                    j <= i < n,
                    n == slice@.len(),
                    n == keys@.len(),
                    sorted.len() == i,
                    forall|k: int| 0 <= k < keys@.len() ==> (#[trigger] keys@[k]).wf(),
                    keyed(keys@, slice@) == sorted.take(j as int).push(item) + sorted.skip(j as int)
                        + rest,
                    forall|k: int| j <= k < i ==> (#[trigger] sorted[k]).0 > item.0,
                decreases j,
            {
                let ghost before = keyed(keys@, slice@);
                assert(before[j as int] == item);
                assert(before[j - 1] == sorted[j - 1]);
                let lower = keys[j - 1];
                let upper = keys[j];
                keys[j - 1] = upper;
                keys[j] = lower;
                slice.swap(j - 1, j);
                assert(keyed(keys@, slice@) =~= before.update(j - 1, before[j as int]).update(
                    j as int,
                    before[j - 1],
                ));
                assert(before.update(j - 1, before[j as int]).update(j as int, before[j - 1])
                    =~= sorted.take(j - 1).push(item) + sorted.skip(j - 1) + rest);
                j = j - 1;
            }
            proof {
                let current = keyed(keys@, slice@);
                if j > 0 {
                    assert(current[j as int] == item);
                    assert(current[j - 1] == sorted[j - 1]);
                }
                lemma_insert_at(sorted, item, j as int);
                assert(unsorted.take(i + 1).drop_last() =~= unsorted.take(i as int));
                assert(unsorted.take(i + 1).last() == item);
                assert(sort_by_key(unsorted.take(i + 1)) == insert_by_key(sorted, item));
                assert(current =~= sort_by_key(unsorted.take(i + 1)) + unsorted.skip(i + 1));
            }
            i = i + 1;
        }
        proof {
            assert(unsorted.take(n as int) =~= unsorted);
            assert(keyed(keys@, slice@) =~= sort_by_key(unsorted));
            assert(slice@ =~= shuffled_by_sorting(old(self)@, old(slice)@)) by {
                let sorted = sort_by_key(unsorted);
                assert forall|k: int| 0 <= k < n implies slice@[k] == sorted[k].1 by {
                    assert(keyed(keys@, slice@)[k] == sorted[k]);
                }
            }
        }
    }

    /// Shuffles `slice` from its last place down to its second: the item in
    /// each place changes places with one drawn from those up to it.
    pub fn shuffle_fisher_yates<T>(&mut self, slice: &mut [T])
        requires
            old(self)@.wf(),
            old(slice)@.len() <= u32::MAX,
        ensures
            final(self)@ == fisher_yates(old(self)@, old(slice)@, old(slice)@.len() - 1).0,
            final(slice)@ == fisher_yates(old(self)@, old(slice)@, old(slice)@.len() - 1).1,
            final(slice)@.len() == old(slice)@.len(),
            final(self)@.wf(),
    {
        let len: usize = slice.len();
        if len < 2 {
            return ;
        }
        let mut i: usize = len - 1;
        while i >= 1
            invariant
                i < len,
                len == slice@.len(),
                len <= u32::MAX,
                self@.wf(),
                fisher_yates(self@, slice@, i as int) == fisher_yates(
                    old(self)@,
                    old(slice)@,
                    len - 1,
                ),
            decreases i,
        {
            let j: usize = self.next_below((i + 1) as u32) as usize;
            slice.swap(i, j);
            i = i - 1;
        }
    }

    /// Draws one of the items of `slice`, or nothing where it is empty.
    pub fn choice<'s, T>(&mut self, slice: &'s [T]) -> (r: Option<&'s T>)
        requires
            old(self)@.wf(),
            slice@.len() <= u32::MAX,
        ensures
            slice@.len() == 0 ==> r is None,
            slice@.len() > 0 ==> r == Some(&slice@[old(self)@.below(slice@.len() as u32) as int]),
            final(self)@ == old(self)@.after_below(slice@.len() as u32),
            final(self)@.wf(),
    {
        let index: usize = self.next_below(slice.len() as u32) as usize;
        if index < slice.len() {
            Some(&slice[index])
        } else {
            None
        }
    }

    /// Draws a place in `weights`, each with the chance that its weight has
    /// in the sum of all. The draw is scaled to that sum; the weights are
    /// taken from it in turn, and the first place whose weight is more than
    /// what is left is drawn. The last place takes what rounding leaves over.
    pub fn weighted_index(&mut self, weights: &[Double]) -> (index: usize)
        requires
            old(self)@.wf(),
            0 < weights@.len() <= u32::MAX,
            forall|i: int| 0 <= i < weights@.len() ==> weights@[i].wf() && weights@[i].exp() <= 900,
        ensures
            index == weighted_index(
                weights@,
                old(self)@.double().times(total_weight(weights@, weights@.len() as int)),
                0,
            ),
            index < weights@.len(),
            index + 1 < weights@.len() ==> weights@[index as int].mant() > 0,
            final(self)@ == old(self)@.step(),
            final(self)@.wf(),
    {
        let len: usize = weights.len();
        let mut total = Double::zero();
        let mut i: usize = 0;
        proof {
            lemma_pow2_pos(2028);
            assert(total.units() == 0) by (nonlinear_arith)
                requires
                    total.units() == total.mant() * pow2((total.exp() + 1074) as nat),
                    total.mant() == 0,
            ;
        }
        while i < len
            invariant
                i <= len,
                len == weights@.len(),
                len <= u32::MAX,
                forall|k: int|
                    0 <= k < weights@.len() ==> weights@[k].wf() && weights@[k].exp() <= 900,
                total.wf(),
                total.units() <= i * pow2(2028),
                total == total_weight(weights@, i as int),
            decreases len - i,
        {
            proof {
                lemma_sum_stays_finite(total, weights@[i as int], i as nat);
            }
            total = total.add(weights[i]);
            i = i + 1;
        }
        proof {
            lemma_sum_stays_finite(total, Double::from_parts((0, -1074)), len as nat);
        }
        let mut left = self.next_double().mul(total);
        let mut at: usize = 0;
        while at + 1 < len
            invariant
                at < len,
                len == weights@.len(),
                forall|k: int| 0 <= k < weights@.len() ==> weights@[k].wf(),
                left.wf(),
                self@ == old(self)@.step(),
                self@.wf(),
                weighted_index(weights@, left, at as int) == weighted_index(
                    weights@,
                    old(self)@.double().times(total_weight(weights@, weights@.len() as int)),
                    0,
                ),
            decreases len - at,
        {
            if left.lt(weights[at]) {
                proof {
                    crate::binary64::lemma_units_zero(weights@[at as int]);
                }
                return at;
            }
            left = left.sub(weights[at]);
            at = at + 1;
        }
        at
    }

    /// Draws one of `elements`, the one in place `i` with the chance that
    /// `weights[i]` has in the sum of all weights.
    pub fn weighted_select<'s, T>(&mut self, elements: &'s [T], weights: &[Double]) -> (r: &'s T)
        requires
            old(self)@.wf(),
            0 < elements@.len() <= u32::MAX,
            weights@.len() == elements@.len(),
            forall|i: int| 0 <= i < weights@.len() ==> weights@[i].wf() && weights@[i].exp() <= 900,
        ensures
            *r == elements@[weighted_index(
                weights@,
                old(self)@.double().times(total_weight(weights@, weights@.len() as int)),
                0,
            )],
            final(self)@ == old(self)@.step(),
            final(self)@.wf(),
    {
        let index: usize = self.weighted_index(weights);
        &elements[index]
    }
}

/// The sum of the first `n` weights, each added in turn and the sum rounded
/// after each.
pub open spec fn total_weight(weights: Seq<Double>, n: int) -> Double
    decreases n,
{
    if n <= 0 {
        Double::from_parts((0, -1074))
    } else {
        total_weight(weights, n - 1).plus(weights[n - 1])
    }
}

/// The place that a weighted draw comes to when `left` is left of it before
/// place `i`: the first place from `i` on whose weight is more than what is
/// left after the weights before it have been taken off; the last place
/// where there is none.
pub open spec fn weighted_index(weights: Seq<Double>, left: Double, i: int) -> int
    decreases weights.len() - i,
{
    if i + 1 >= weights.len() {
        weights.len() - 1
    } else if left.units() < weights[i].units() {
        i
    } else {
        weighted_index(weights, left.minus(weights[i]), i + 1)
    }
}

/// The generator and the items after the places `i`, `i - 1`, down to 1 have
/// each changed places with a place drawn from `0..=i`.
pub open spec fn fisher_yates<T>(state: RandomState, items: Seq<T>, i: int) -> (
    RandomState,
    Seq<T>,
)
    decreases i,
{
    if i < 1 {
        (state, items)
    } else {
        let j = state.below((i + 1) as u32) as int;
        fisher_yates(
            state.after_below((i + 1) as u32),
            items.update(i, items[j]).update(j, items[i]),
            i - 1,
        )
    }
}

/// `slice::swap` exchanges the items at two places of a slice and leaves the
/// others where they are. It panics where a place is out of bounds.
pub assume_specification<V>[ <[V]>::swap ](slice: &mut [V], a: usize, b: usize)
    requires
        a < old(slice)@.len(),
        b < old(slice)@.len(),
    ensures
        final(slice)@ == old(slice)@.update(a as int, old(slice)@[b as int]).update(
            b as int,
            old(slice)@[a as int],
        ),
;

/// The wrapped difference of two words below `MAX_VALUE` is below
/// `MAX_VALUE`.
pub proof fn lemma_diffwrap_bounded(lhs: u32, rhs: u32)
    requires
        lhs < MAX_VALUE,
        rhs < MAX_VALUE,
    ensures
        diffwrap(lhs, rhs) < MAX_VALUE,
{
}

/// Replacing the words keeps them below `MAX_VALUE`.
pub proof fn lemma_reseed_bounded(words: Seq<u32>, i: int)
    requires
        words.len() == 55,
        0 <= i <= 55,
        forall|k: int| 0 <= k < 55 ==> words[k] < MAX_VALUE,
    ensures
        reseed_from(words, i).len() == 55,
        forall|k: int| 0 <= k < 55 ==> reseed_from(words, i)[k] < MAX_VALUE,
    decreases 55 - i,
{
    if i < 55 {
        lemma_diffwrap_bounded(words[i], words[(i + 31) % 55]);
        lemma_reseed_bounded(words.update(i, diffwrap(words[i], words[(i + 31) % 55])), i + 1);
    }
}

/// A draw leaves the generator as it should be.
pub proof fn lemma_step_wf(state: RandomState)
    requires
        state.wf(),
    ensures
        state.step().wf(),
        state.double().wf(),
        state.double().exp() <= -53,
{
    lemma_reseed_bounded(state.words, 0);
    lemma_scaled_draw_in_range(state.word(), 2);
}

/// A scaled draw leaves the generator as it should be, and is below its
/// bound.
pub proof fn lemma_below_wf(state: RandomState, max_value: u32)
    requires
        state.wf(),
    ensures
        state.after_below(max_value).wf(),
        max_value >= 1 ==> state.below(max_value) < max_value,
{
    lemma_step_wf(state);
    if max_value >= 2 {
        lemma_scaled_draw_in_range(state.word(), max_value);
    }
}

/// A weighted draw comes to one of the places, and to a place before the
/// last only where the weight of that place is not zero.
pub proof fn lemma_weighted_index(weights: Seq<Double>, left: Double, i: int)
    requires
        0 <= i < weights.len(),
    ensures
        i <= weighted_index(weights, left, i) < weights.len(),
        weighted_index(weights, left, i) + 1 < weights.len() ==> weights[weighted_index(
            weights,
            left,
            i,
        )].mant() > 0,
    decreases weights.len() - i,
{
    if i + 1 < weights.len() {
        if left.units() < weights[i].units() {
            crate::binary64::lemma_units_zero(weights[i]);
        } else {
            lemma_weighted_index(weights, left.minus(weights[i]), i + 1);
        }
    }
}

/// The first `n` draws from the unit interval.
pub open spec fn draws(state: RandomState, n: nat) -> Seq<Double>
    decreases n,
{
    if n == 0 {
        Seq::empty()
    } else {
        draws(state, (n - 1) as nat).push(state.steps((n - 1) as nat).double())
    }
}

/// One more draw after `n` is `n + 1` draws.
pub proof fn lemma_steps_step(state: RandomState, n: nat)
    ensures
        state.steps(n).step() == state.steps(n + 1),
    decreases n,
{
    assert(state.steps(n + 1) == state.step().steps(n));
    if n > 0 {
        assert(state.steps(n) == state.step().steps((n - 1) as nat));
        lemma_steps_step(state.step(), (n - 1) as nat);
    } else {
        assert(state.step().steps(0) == state.step());
    }
}

/// The items, each with the bit pattern of its key before it.
pub open spec fn keyed<T>(keys: Seq<Double>, items: Seq<T>) -> Seq<(nat, T)> {
    Seq::new(items.len(), |i: int| (keys[i].bits(), items[i]))
}

/// `sorted` with `item` put in after the last item whose key is not greater
/// than its own.
pub open spec fn insert_by_key<T>(sorted: Seq<(nat, T)>, item: (nat, T)) -> Seq<(nat, T)>
    decreases sorted.len(),
{
    if sorted.len() == 0 {
        seq![item]
    } else if sorted.last().0 <= item.0 {
        sorted.push(item)
    } else {
        insert_by_key(sorted.drop_last(), item).push(sorted.last())
    }
}

/// The items in the order of their keys; items with the same key stay in
/// their order.
pub open spec fn sort_by_key<T>(items: Seq<(nat, T)>) -> Seq<(nat, T)>
    decreases items.len(),
{
    if items.len() == 0 {
        Seq::empty()
    } else {
        insert_by_key(sort_by_key(items.drop_last()), items.last())
    }
}

/// The items in the order of the draws that are taken for them, one for each
/// item in their order.
pub open spec fn shuffled_by_sorting<T>(state: RandomState, items: Seq<T>) -> Seq<T> {
    let sorted = sort_by_key(keyed(draws(state, items.len()), items));
    Seq::new(items.len(), |i: int| sorted[i].1)
}

/// Putting an item in leaves the others in their places around it.
pub proof fn lemma_insert_at<T>(sorted: Seq<(nat, T)>, item: (nat, T), j: int)
    requires
        0 <= j <= sorted.len(),
        forall|k: int| j <= k < sorted.len() ==> (#[trigger] sorted[k]).0 > item.0,
        j > 0 ==> sorted[j - 1].0 <= item.0,
    ensures
        insert_by_key(sorted, item) == sorted.take(j).push(item) + sorted.skip(j),
        insert_by_key(sorted, item).len() == sorted.len() + 1,
    decreases sorted.len() - j,
{
    if j == sorted.len() {
        if sorted.len() == 0 {
            assert(seq![item] =~= sorted.take(j).push(item) + sorted.skip(j));
        } else {
            assert(sorted.push(item) =~= sorted.take(j).push(item) + sorted.skip(j));
        }
    } else {
        let shorter = sorted.drop_last();
        lemma_insert_at(shorter, item, j);
        assert(sorted[sorted.len() - 1].0 > item.0);
        assert((shorter.take(j).push(item) + shorter.skip(j)).push(sorted.last()) =~= sorted.take(
            j,
        ).push(item) + sorted.skip(j));
    }
}

/// The sum of up to `2^32` weights below `2^954` is below `2^986`: adding
/// one more weight to the sum of `n` keeps it below `n + 1` times `2^954`,
/// and its exponent below 935.
proof fn lemma_sum_stays_finite(total: Double, weight: Double, n: nat)
    requires
        total.wf(),
        weight.wf(),
        weight.exp() <= 900,
        n <= u32::MAX,
        total.units() <= n * pow2(2028),
    ensures
        total.exp() <= 935,
        total.plus(weight).wf(),
        total.plus(weight).units() <= (n + 1) * pow2(2028),
{
    lemma2_to64();
    lemma2_to64_rest();
    let unit = pow2(2028);
    lemma_pow2_pos(2028);
    lemma_pow2_adds(33, 2028);
    assert(total.units() < pow2(2061)) by (nonlinear_arith)
        requires
            total.units() <= n * unit,
            n < 0x2_0000_0000,
            pow2(2061) == 0x2_0000_0000 * unit,
            unit > 0,
    ;
    lemma_units_exponent(total, 2061);
    // a weight is not more than the unit
    let up = pow2((weight.exp() + 1074) as nat);
    lemma_pow2_pos((weight.exp() + 1074) as nat);
    lemma_pow2_adds(53, (weight.exp() + 1074) as nat);
    if weight.exp() + 1127 < 2028 {
        lemma_pow2_strictly_increases((weight.exp() + 1127) as nat, 2028);
    }
    assert(weight.units() <= unit) by (nonlinear_arith)
        requires
            weight.units() == weight.mant() * up,
            weight.mant() < 0x20_0000_0000_0000,
            0x20_0000_0000_0000 * up <= unit,
            up > 0,
    ;
    // n + 1 units can be written
    lemma_bit_length_below(n + 1, 33);
    lemma_nearest_finite(n + 1, 954);
    lemma_nearest_canonical(n + 1, 954);
    lemma_nearest_exact(n + 1, 954);
    let cap = Double::from_parts(nearest(n + 1, 954));
    Double::lemma_from_parts(nearest(n + 1, 954));
    assert(cap.units() == (n + 1) * unit);
    assert(total.units() + weight.units() <= (n + 1) * unit) by (nonlinear_arith)
        requires
            total.units() <= n * unit,
            weight.units() <= unit,
    ;
    lemma_plus_below(total, weight, cap);
}

} // verus!
