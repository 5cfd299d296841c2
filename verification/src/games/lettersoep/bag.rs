//! The tile bag and the rack drawn from it.

use super::letters::{bag_count, bag_count_of, is_vowel, vowel};
use super::moves::{capital, capitals, count_of};
use super::rng::{draws_for, mulberry, shuffle_from, state_after, swap_at, Rng};
use vstd::prelude::*;

verus! {

/// The tiles of letter `k` (`A` being 0) left in the bag once the board's
/// letters are taken out; a letter the bag has run out of stays at zero.
pub open spec fn remaining(used: Seq<u8>, k: int) -> nat {
    let have = bag_count(capital(k));
    let taken = count_of(used, capital(k));
    if taken >= have {
        0
    } else {
        (have - taken) as nat
    }
}

/// The bag's tiles for the first `k` letters, in alphabetical order.
pub open spec fn bag_upto(used: Seq<u8>, k: int) -> Seq<u8>
    decreases k,
{
    if k <= 0 {
        seq![]
    } else {
        bag_upto(used, k - 1) + Seq::new(remaining(used, k - 1), |i: int| capital(k - 1))
    }
}

/// The bag, `A` tiles first.
pub open spec fn bag_of(used: Seq<u8>) -> Seq<u8> {
    bag_upto(used, 26)
}

/// How many vowels a sequence of letters holds.
pub open spec fn vowels_in(s: Seq<u8>) -> nat
    decreases s.len(),
{
    if s.len() == 0 {
        0
    } else {
        vowels_in(s.drop_last()) + if vowel(s.last()) {
            1nat
        } else {
            0nat
        }
    }
}

/// A rack with two to four vowels.
pub open spec fn balanced(rack: Seq<u8>) -> bool {
    2 <= vowels_in(rack) <= 4
}

/// Up to `tries` shuffles of the whole bag, keeping the first rack of seven
/// that is balanced; after the last try its rack is kept anyway. The result
/// is the rack and the final state.
pub open spec fn rack_draw(bag: Seq<u8>, s: u32, tries: nat) -> (Seq<u8>, u32)
    decreases tries,
{
    let (shuffled, st) = shuffle_from(bag, s, bag.len() - 1);
    if tries <= 1 || balanced(shuffled.take(7)) {
        (shuffled.take(7), st)
    } else {
        rack_draw(shuffled, st, (tries - 1) as nat)
    }
}

/// The count of letters `A` up to the one with index `k - 1` in `s`.
pub open spec fn capitals_count(s: Seq<u8>, k: int) -> nat
    decreases k,
{
    if k <= 0 {
        0
    } else {
        capitals_count(s, k - 1) + count_of(s, capital(k - 1))
    }
}

/// The bag's full count of the first `k` letters.
pub open spec fn full_count(k: int) -> nat
    decreases k,
{
    if k <= 0 {
        0
    } else {
        full_count(k - 1) + bag_count(capital(k - 1))
    }
}

proof fn lemma_capitals_count_push(s: Seq<u8>, x: u8, k: int)
    requires
        0 <= k <= 26,
    ensures
        capitals_count(s.push(x), k) == capitals_count(s, k) + if 65 <= x < 65 + k {
            1nat
        } else {
            0nat
        },
    decreases k,
{
    if k > 0 {
        lemma_capitals_count_push(s, x, k - 1);
        assert(s.push(x).drop_last() == s);
    }
}

proof fn lemma_capitals_count_bound(s: Seq<u8>)
    ensures
        capitals_count(s, 26) <= s.len(),
    decreases s.len(),
{
    if s.len() == 0 {
        assert(capitals_count(s, 26) == 0) by {
            lemma_capitals_count_empty(s, 26);
        }
    } else {
        lemma_capitals_count_bound(s.drop_last());
        assert(s.drop_last().push(s.last()) == s);
        lemma_capitals_count_push(s.drop_last(), s.last(), 26);
    }
}

proof fn lemma_capitals_count_empty(s: Seq<u8>, k: int)
    requires
        s.len() == 0,
    ensures
        capitals_count(s, k) == 0,
    decreases k,
{
    if k > 0 {
        lemma_capitals_count_empty(s, k - 1);
    }
}

proof fn lemma_bag_size(used: Seq<u8>, k: int)
    requires
        0 <= k <= 26,
    ensures
        bag_upto(used, k).len() + capitals_count(used, k) >= full_count(k),
        bag_upto(used, k).len() <= full_count(k),
    decreases k,
{
    if k > 0 {
        lemma_bag_size(used, k - 1);
    }
}

/// The bag holds 100 tiles less at most one per letter on the board.
pub proof fn lemma_bag_of_len(used: Seq<u8>)
    ensures
        bag_of(used).len() + used.len() >= 100,
        bag_of(used).len() <= 100,
{
    lemma_bag_size(used, 26);
    lemma_capitals_count_bound(used);
    assert(full_count(26) == 100) by {
        assert forall|k: int| 0 <= k < 26 implies #[trigger] capital(k) as int == 65 + k by {}
        assert(full_count(0) == 0);
        assert(full_count(1) == 6);
        assert(full_count(2) == 8);
        assert(full_count(3) == 10);
        assert(full_count(4) == 15);
        assert(full_count(5) == 33);
        assert(full_count(6) == 35);
        assert(full_count(7) == 38);
        assert(full_count(8) == 40);
        assert(full_count(9) == 44);
        assert(full_count(10) == 46);
        assert(full_count(11) == 49);
        assert(full_count(12) == 52);
        assert(full_count(13) == 55);
        assert(full_count(14) == 65);
        assert(full_count(15) == 71);
        assert(full_count(16) == 73);
        assert(full_count(17) == 74);
        assert(full_count(18) == 79);
        assert(full_count(19) == 84);
        assert(full_count(20) == 89);
        assert(full_count(21) == 92);
        assert(full_count(22) == 94);
        assert(full_count(23) == 96);
        assert(full_count(24) == 97);
        assert(full_count(25) == 98);
        assert(full_count(26) == 100);
    }
}

/// The letters of the bag.
fn fill_bag(used: &[u8]) -> (res: Vec<u8>)
    ensures
        res@ == bag_of(used@),
{
    let mut left: Vec<u8> = Vec::new();
    let mut k: usize = 0;
    while k < 26
        invariant
            k <= 26,
            left@.len() == k,
            forall|j: int| 0 <= j < k ==> #[trigger] left@[j] == bag_count(capital(j)),
        decreases 26 - k,
    {
        left.push(bag_count_of(65 + k as u8));
        k = k + 1;
    }
    let mut i: usize = 0;
    while i < used.len()
        invariant
            i <= used@.len(),
            left@.len() == 26,
            forall|j: int| 0 <= j < 26 ==> #[trigger] left@[j] == remaining(used@.take(i as int), j),
        decreases used@.len() - i,
    {
        let letter = used[i];
        let ghost prev = used@.take(i as int);
        assert(used@.take(i + 1) == prev.push(letter));
        proof {
            assert forall|j: int| 0 <= j < 26 implies count_of(used@.take(i + 1), capital(j)) == count_of(prev, capital(j)) + if letter == capital(j) {
                1nat
            } else {
                0nat
            } by {
                assert(prev.push(letter).drop_last() == prev);
            }
        }
        if 65 <= letter && letter <= 90 {
            let idx = (letter - 65) as usize;
            if left[idx] > 0 {
                let n = left[idx];
                left.set(idx, n - 1);
            }
        }
        i = i + 1;
    }
    assert(used@.take(used@.len() as int) == used@);
    let mut bag: Vec<u8> = Vec::new();
    let mut k: usize = 0;
    while k < 26
        invariant
            k <= 26,
            left@.len() == 26,
            forall|j: int| 0 <= j < 26 ==> #[trigger] left@[j] == remaining(used@, j),
            bag@ == bag_upto(used@, k as int),
        decreases 26 - k,
    {
        let letter = 65 + k as u8;
        let n = left[k];
        let ghost base = bag@;
        let mut t: u8 = 0;
        while t < n
            invariant
                t <= n,
                letter == capital(k as int),
                bag@ == base + Seq::new(t as nat, |i: int| capital(k as int)),
            decreases n - t,
        {
            bag.push(letter);
            t = t + 1;
            assert(bag@ == base + Seq::new(t as nat, |i: int| capital(k as int)));
        }
        k = k + 1;
    }
    bag
}

pub proof fn lemma_shuffle_len(items: Seq<u8>, s: u32, i: int)
    requires
        i < items.len() <= u32::MAX,
    ensures
        shuffle_from(items, s, i).0.len() == items.len(),
    decreases i,
{
    if i >= 1 {
        let bound = (i + 1) as u32;
        let st = state_after(s, draws_for(s, bound));
        let j = (mulberry(st) % bound) as int;
        lemma_shuffle_len(swap_at(items, i, j), st, i - 1);
    }
}

/// How many vowels the letters hold.
fn count_vowels(rack: &[u8]) -> (res: usize)
    ensures
        res == vowels_in(rack@),
{
    let mut n: usize = 0;
    let mut i: usize = 0;
    while i < rack.len()
        invariant
            i <= rack@.len(),
            n == vowels_in(rack@.take(i as int)),
            n <= i,
        decreases rack@.len() - i,
    {
        assert(rack@.take(i + 1).drop_last() == rack@.take(i as int));
        if is_vowel(rack[i]) {
            n = n + 1;
        }
        i = i + 1;
    }
    assert(rack@.take(rack@.len() as int) == rack@);
    n
}

/// Draw a rack of seven from the bag left once the board's letters are
/// out: shuffle the bag until the first seven hold two to four vowels,
/// forty tries at most.
pub fn draw_rack(rng: &mut Rng, used: &[u8]) -> (res: Vec<u8>)
    requires
        bag_of(used@).len() >= 7,
    ensures
        (res@, final(rng)@) == rack_draw(bag_of(used@), old(rng)@, 40),
{
    let mut bag = fill_bag(used);
    let ghost start = bag@;
    proof {
        lemma_bag_of_len(used@);
    }
    let mut t: usize = 0;
    while t < 40
        invariant
            t < 40,
            bag@.len() == start.len(),
            bag@.len() >= 7,
            bag@.len() <= u32::MAX,
            start == bag_of(used@),
            rack_draw(start, old(rng)@, 40) == rack_draw(bag@, rng@, (40 - t) as nat),
        decreases 40 - t,
    {
        let ghost b0 = bag@;
        let ghost s0 = rng@;
        rng.shuffle(bag.as_mut_slice());
        proof {
            lemma_shuffle_len(b0, s0, b0.len() - 1);
            assert(shuffle_from(b0, s0, b0.len() - 1) == (bag@, rng@));
        }
        let rack = vstd::slice::slice_subrange(bag.as_slice(), 0, 7);
        assert(rack@ == bag@.take(7));
        let vowels = count_vowels(rack);
        if (2 <= vowels && vowels <= 4) || t == 39 {
            assert(rack_draw(b0, s0, (40 - t) as nat) == (bag@.take(7), rng@));
            let res = vstd::slice::slice_to_vec(rack);
            assert(res@ == bag@.take(7));
            assert(rack_draw(start, old(rng)@, 40) == (res@, rng@));
            assert(start == bag_of(used@));
            return res;
        }
        assert(rack_draw(b0, s0, (40 - t) as nat) == rack_draw(bag@, rng@, (40 - t - 1) as nat));
        t = t + 1;
    }
    vstd::slice::slice_to_vec(vstd::slice::slice_subrange(bag.as_slice(), 0, 7))
}

proof fn lemma_shuffle_capitals(items: Seq<u8>, s: u32, i: int)
    requires
        i < items.len() <= u32::MAX,
        capitals(items),
    ensures
        capitals(shuffle_from(items, s, i).0),
    decreases i,
{
    if i >= 1 {
        let bound = (i + 1) as u32;
        let st = state_after(s, draws_for(s, bound));
        let j = (mulberry(st) % bound) as int;
        let sw = swap_at(items, i, j);
        assert forall|k: int| 0 <= k < sw.len() implies 65 <= #[trigger] sw[k] <= 90 by {
            if k == i {
                assert(sw[k] == items[j]);
            } else if k == j {
                assert(sw[k] == items[i]);
            } else {
                assert(sw[k] == items[k]);
            }
        }
        lemma_shuffle_len(items, s, i);
        lemma_shuffle_capitals(sw, st, i - 1);
    }
}

proof fn lemma_bag_upto_capitals(used: Seq<u8>, k: int)
    requires
        0 <= k <= 26,
    ensures
        capitals(bag_upto(used, k)),
    decreases k,
{
    if k > 0 {
        lemma_bag_upto_capitals(used, k - 1);
        let prev = bag_upto(used, k - 1);
        let more = Seq::new(remaining(used, k - 1), |i: int| capital(k - 1));
        assert forall|i: int| 0 <= i < bag_upto(used, k).len() implies 65 <= #[trigger] bag_upto(used, k)[i] <= 90 by {
            if i < prev.len() {
                assert(bag_upto(used, k)[i] == prev[i]);
            } else {
                assert(bag_upto(used, k)[i] == more[i - prev.len()]);
            }
        }
    }
}

/// A drawn rack holds seven capital letters.
pub proof fn lemma_rack_draw(bag: Seq<u8>, s: u32, tries: nat)
    requires
        7 <= bag.len() <= u32::MAX,
        capitals(bag),
    ensures
        rack_draw(bag, s, tries).0.len() == 7,
        capitals(rack_draw(bag, s, tries).0),
    decreases tries,
{
    let (shuffled, st) = shuffle_from(bag, s, bag.len() - 1);
    lemma_shuffle_len(bag, s, bag.len() - 1);
    lemma_shuffle_capitals(bag, s, bag.len() - 1);
    if !(tries <= 1 || balanced(shuffled.take(7))) {
        lemma_rack_draw(shuffled, st, (tries - 1) as nat);
    }
}

/// The bag holds capital letters only.
pub proof fn lemma_bag_of_capitals(used: Seq<u8>)
    ensures
        capitals(bag_of(used)),
{
    lemma_bag_upto_capitals(used, 26);
}


/// How a rack is drawn: a shuffle of the bag whose first seven tiles hold
/// two, three or four vowels is served at once; a shuffle holding fewer or
/// more is reshuffled while tries remain; the last try's rack is served
/// whatever it holds.
pub proof fn lemma_rack_vowels(bag: Seq<u8>, s: u32, tries: nat)
    ensures
        ({
            let (shuffled, st) = shuffle_from(bag, s, bag.len() - 1);
            let v = vowels_in(shuffled.take(7));
            &&& 2 <= v <= 4 ==> rack_draw(bag, s, tries) == (shuffled.take(7), st)
            &&& tries <= 1 ==> rack_draw(bag, s, tries) == (shuffled.take(7), st)
            &&& tries > 1 && (v < 2 || v > 4) ==> rack_draw(bag, s, tries) == rack_draw(
                shuffled,
                st,
                (tries - 1) as nat,
            )
        }),
{
}


/// The vowels of a rack are its `A`, `E`, `I`, `O` and `U` tiles.
pub proof fn lemma_vowels_in(s: Seq<u8>)
    ensures
        vowels_in(s) == s.filter(|b: u8| b == 65u8 || b == 69u8 || b == 73u8 || b == 79u8 || b == 85u8).len(),
    decreases s.len(),
{
    let p = |b: u8| b == 65u8 || b == 69u8 || b == 73u8 || b == 79u8 || b == 85u8;
    reveal(Seq::filter);
    if s.len() > 0 {
        lemma_vowels_in(s.drop_last());
        assert(s.filter(p) == if p(s.last()) {
            s.drop_last().filter(p).push(s.last())
        } else {
            s.drop_last().filter(p)
        });
        assert(vowel(s.last()) == p(s.last()));
    }
}

} // verus!
