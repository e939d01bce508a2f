//! A small deterministic generator of pseudo-random numbers.

use vstd::prelude::*;

verus! {

/// One step of the generator: three shifts, each combined with the state
/// by exclusive or.
pub open spec fn xorshift(x: u64) -> u64 {
    let a = x ^ (x << 13);
    let b = a ^ (a >> 7);
    b ^ (b << 17)
}

/// The generator never comes to rest: a state that is not 0 is followed by
/// a state that is not 0. A generator made by `SimpleRng::new` starts from
/// such a state.
pub proof fn law_state_stays_nonzero(x: u64)
    requires
        x != 0,
    ensures
        xorshift(x) != 0,
{
    let a = x ^ (x << 13);
    let b = a ^ (a >> 7);
    assert(x != 0 ==> x ^ (x << 13) != 0) by (bit_vector);
    assert(a != 0 ==> a ^ (a >> 7) != 0) by (bit_vector);
    assert(b != 0 ==> b ^ (b << 17) != 0) by (bit_vector);
}

/// The number that is drawn from a state: the upper half of the state that
/// follows it.
pub open spec fn draw(state: u64) -> u32 {
    (xorshift(state) >> 32) as u32
}

/// The number between `min` and `max` that is drawn from a state.
pub open spec fn draw_between(state: u64, min: int, max: int) -> int {
    min + draw(state) as int % (max - min + 1)
}

/// The sequence with the values at `i` and `j` exchanged.
pub open spec fn swapped<T>(s: Seq<T>, i: int, j: int) -> Seq<T> {
    s.update(i, s[j]).update(j, s[i])
}

/// The values after the places from `i` down to 1 have each been exchanged
/// with a place at or before them that is drawn from the state, and the
/// state after it.
pub open spec fn shuffled<T>(state: u64, values: Seq<T>, i: int) -> (Seq<T>, u64)
    decreases i,
{
    if i <= 0 {
        (values, state)
    } else {
        shuffled(xorshift(state), swapped(values, i, draw_between(state, 0, i)), i - 1)
    }
}

/// Exchanging two values keeps the values that a sequence holds.
pub proof fn lemma_swapped_holds_the_same<T>(s: Seq<T>, i: int, j: int)
    requires
        0 <= i < s.len(),
        0 <= j < s.len(),
    ensures
        swapped(s, i, j).to_multiset() == s.to_multiset(),
        swapped(s, i, j).len() == s.len(),
{
    broadcast use {
        vstd::seq_lib::to_multiset_update,
        vstd::multiset::group_multiset_axioms,
        vstd::multiset::group_multiset_properties,
        vstd::seq_lib::group_to_multiset_ensures,
    };

    let first = s.update(i, s[j]);
    assert(first.to_multiset() == s.to_multiset().insert(s[j]).remove(s[i]));
    assert(first[j] == s[j]);
    assert(swapped(s, i, j).to_multiset() == first.to_multiset().insert(s[i]).remove(s[j]));
    assert(s.to_multiset().count(s[i]) > 0);
    assert(s.to_multiset().count(s[j]) > 0);
    assert(swapped(s, i, j).to_multiset() =~= s.to_multiset());
}

/// Shuffling keeps the values that a sequence holds.
pub proof fn lemma_shuffled_holds_the_same<T>(state: u64, values: Seq<T>, i: int)
    requires
        i < values.len(),
    ensures
        shuffled(state, values, i).0.to_multiset() == values.to_multiset(),
        shuffled(state, values, i).0.len() == values.len(),
    decreases i,
{
    if i > 0 {
        let j = draw_between(state, 0, i);
        lemma_swapped_holds_the_same(values, i, j);
        lemma_shuffled_holds_the_same(xorshift(state), swapped(values, i, j), i - 1);
    }
}

/// A generator of pseudo-random numbers. The same seed gives the same
/// numbers.
#[derive(Debug)]
pub struct SimpleRng {
    pub state: u64,
}

impl SimpleRng {
    /// A generator that starts from `seed`, or from 1 if the seed is 0.
    pub fn new(seed: u64) -> (rng: SimpleRng)
        ensures
            rng.state == if seed == 0 {
                1
            } else {
                seed
            },
    {
        if seed == 0 {
            SimpleRng { state: 1 }
        } else {
            SimpleRng { state: seed }
        }
    }

    /// Moves the generator one step on and returns the number drawn.
    pub fn next_u32(&mut self) -> (r: u32)
        ensures
            final(self).state == xorshift(old(self).state),
            r == draw(old(self).state),
    {
        let mut x: u64 = self.state;
        x ^= x << 13;
        x ^= x >> 7;
        x ^= x << 17;
        self.state = x;
        let upper: u64 = x >> 32;
        assert(upper <= 0xffff_ffff) by (bit_vector)
            requires
                upper == x >> 32,
        ;
        upper as u32
    }

    /// Draws a number between `min` and `max`, both included.
    pub fn gen_range_i32(&mut self, min: i32, max: i32) -> (r: i32)
        requires
            min <= max,
            max - min < i32::MAX,
        ensures
            final(self).state == xorshift(old(self).state),
            r == draw_between(old(self).state, min as int, max as int),
            min <= r <= max,
    {
        let span: u32 = (max - min + 1) as u32;
        let value: u32 = self.next_u32() % span;
        min + value as i32
    }

    /// Draws a number between `min` and `max`, both included.
    pub fn gen_range_i64(&mut self, min: i64, max: i64) -> (r: i64)
        requires
            min <= max,
            max - min < i64::MAX,
        ensures
            final(self).state == xorshift(old(self).state),
            r == draw_between(old(self).state, min as int, max as int),
            min <= r <= max,
    {
        let span: u64 = (max - min + 1) as u64;
        let value: u64 = self.next_u32() as u64 % span;
        min + value as i64
    }

    /// Puts the values in a random order: from the last place down to the
    /// second, each value is exchanged with one at or before its place.
    pub fn shuffle<T: Copy>(&mut self, values: &mut Vec<T>)
        requires
            old(values)@.len() <= i64::MAX,
        ensures
            (final(values)@, final(self).state) == shuffled(
                old(self).state,
                old(values)@,
                old(values)@.len() - 1,
            ),
            final(values)@.to_multiset() == old(values)@.to_multiset(),
            final(values)@.len() == old(values)@.len(),
    {
        proof {
            lemma_shuffled_holds_the_same(old(self).state, old(values)@, old(values)@.len() - 1);
        }
        if values.len() <= 1 {
            return;
        }
        let mut i: usize = values.len() - 1;
        while i >= 1
            invariant
                i < values@.len(),
                values@.len() == old(values)@.len(),
                values@.len() <= i64::MAX,
                shuffled(old(self).state, old(values)@, old(values)@.len() - 1) == shuffled(
                    self.state,
                    values@,
                    i as int,
                ),
            decreases i,
        {
            let j: usize = self.gen_range_i64(0, i as i64) as usize;
            let a: T = values[i];
            let b: T = values[j];
            values.set(i, b);
            values.set(j, a);
            i -= 1;
        }
    }
}

} // verus!
