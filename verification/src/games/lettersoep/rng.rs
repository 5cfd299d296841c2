//! FNV-1a hashing and the Mulberry32 generator.

use vstd::prelude::*;
use vstd::string::StringSliceAdditionalSpecFns;

verus! {

pub const FNV_OFFSET: u32 = 0x811c9dc5;

pub const FNV_PRIME: u32 = 0x01000193;

/// FNV-1a over a byte sequence.
pub open spec fn fnv1a_of(bytes: Seq<u8>) -> u32
    decreases bytes.len(),
{
    if bytes.len() == 0 {
        FNV_OFFSET
    } else {
        (fnv1a_of(bytes.drop_last()) ^ (bytes.last() as u32)).wrapping_mul(FNV_PRIME)
    }
}

/// FNV-1a 32-bit hash of a string's UTF-8 bytes.
pub fn fnv1a(input: &str) -> (res: u32)
    ensures
        res == fnv1a_of(input.spec_bytes()),
{
    let bytes = input.as_bytes();
    let mut hash: u32 = FNV_OFFSET;
    let mut i: usize = 0;
    while i < bytes.len()
        invariant
            bytes@ == input.spec_bytes(),
            i <= bytes@.len(),
            hash == fnv1a_of(bytes@.take(i as int)),
        decreases bytes@.len() - i,
    {
        assert(bytes@.take(i + 1).drop_last() == bytes@.take(i as int));
        hash = hash ^ (bytes[i] as u32);
        hash = hash.wrapping_mul(FNV_PRIME);
        i = i + 1;
    }
    assert(bytes@.take(bytes@.len() as int) == bytes@);
    hash
}

/// The Mulberry32 state increment.
pub const MULBERRY_STEP: u32 = 0x6d2b79f5;

/// The multiplicative inverse of the increment modulo 2^32.
const STEP_INVERSE: u32 = 0xdc58aa5d;

/// The state after one draw.
pub open spec fn advance(s: u32) -> u32 {
    s.wrapping_add(MULBERRY_STEP)
}

/// The output Mulberry32 derives from a state.
pub open spec fn mulberry(s: u32) -> u32 {
    let z1 = (s ^ (s >> 15u32)).wrapping_mul(s | 1);
    let z2 = z1 ^ z1.wrapping_add((z1 ^ (z1 >> 7u32)).wrapping_mul(z1 | 61));
    z2 ^ (z2 >> 14u32)
}

/// The state after `k` draws.
pub open spec fn state_after(s: u32, k: nat) -> u32
    decreases k,
{
    if k == 0 {
        s
    } else {
        advance(state_after(s, (k - 1) as nat))
    }
}

/// Mulberry32: a 32-bit state advanced by a constant and mixed into each
/// output.
pub struct Rng {
    state: u32,
}

impl View for Rng {
    type V = u32;

    closed spec fn view(&self) -> u32 {
        self.state
    }
}

/// The largest multiple of `bound` not above 2^32: draws at or above it are
/// rejected so that every residue is equally likely.
pub open spec fn draw_limit(bound: u32) -> int {
    0x1_0000_0000int - (0x1_0000_0000int % (bound as int))
}

/// The draw that a state yields is accepted for `bound`.
pub open spec fn accepted(s: u32, bound: u32) -> bool {
    (mulberry(s) as int) < draw_limit(bound)
}

/// `k` draws from `s` end at the first accepted draw.
pub open spec fn first_accept(s: u32, bound: u32, k: nat) -> bool {
    &&& k >= 1
    &&& accepted(state_after(s, k), bound)
    &&& forall|j: nat| 1 <= j < k ==> !accepted(#[trigger] state_after(s, j), bound)
}

/// How many draws `next_below` makes from state `s`.
pub open spec fn draws_for(s: u32, bound: u32) -> nat {
    choose|k: nat| first_accept(s, bound, k)
}

/// The draws needed from `s` until the state is zero.
spec fn steps_to_zero(s: u32) -> u32 {
    (((0u32 - s) as u32) * STEP_INVERSE) as u32
}

proof fn lemma_advance_bits(s: u32)
    ensures
        advance(s) == (s + MULBERRY_STEP) as u32,
        steps_to_zero(s) == 0 ==> s == 0,
        s != 0 ==> steps_to_zero(advance(s)) + 1 == steps_to_zero(s),
{
    assert(((s + 0x6d2b79f5u32) > u32::MAX ==> ((s + 0x6d2b79f5u32 - 0x1_0000_0000) as u32 == (s
        + 0x6d2b79f5u32) as u32))) by (bit_vector);
    assert((((0u32 - s) as u32) * 0xdc58aa5du32) as u32 == 0 ==> s == 0) by (bit_vector);
    assert(s != 0 ==> (((0u32 - ((s + 0x6d2b79f5u32) as u32)) as u32) * 0xdc58aa5du32) as u32 + 1
        == (((0u32 - s) as u32) * 0xdc58aa5du32) as u32) by (bit_vector);
}

proof fn lemma_zero_state_output()
    ensures
        mulberry(0) == 0,
{
    assert((0u32 ^ (0u32 >> 15u32)) == 0u32) by (bit_vector);
    assert((0u32 | 1u32) == 1u32) by (bit_vector);
    assert((0u32 ^ (0u32 >> 7u32)) == 0u32) by (bit_vector);
    assert((0u32 | 61u32) == 61u32) by (bit_vector);
    assert((0u32 ^ 0u32) == 0u32) by (bit_vector);
    assert((0u32 ^ (0u32 >> 14u32)) == 0u32) by (bit_vector);
    assert(0u32.wrapping_mul(1u32) == 0u32);
    assert(0u32.wrapping_mul(61u32) == 0u32);
    assert(0u32.wrapping_add(0u32) == 0u32);
}

proof fn lemma_first_accept_unique(s: u32, bound: u32, k: nat)
    requires
        first_accept(s, bound, k),
    ensures
        draws_for(s, bound) == k,
{
    let c = draws_for(s, bound);
    assert(first_accept(s, bound, c));
    if c < k {
        assert(!accepted(state_after(s, c), bound));
    } else if c > k {
        assert(!accepted(state_after(s, k), bound));
    }
}

/// The sequence with positions `i` and `j` exchanged.
pub open spec fn swap_at<T>(s: Seq<T>, i: int, j: int) -> Seq<T> {
    s.update(i, s[j]).update(j, s[i])
}

/// Fisher-Yates from position `i` down to 1: each position is exchanged
/// with one drawn below it (itself included). The result is the shuffled
/// sequence and the final state.
pub open spec fn shuffle_from<T>(items: Seq<T>, state: u32, i: int) -> (Seq<T>, u32)
    decreases i,
{
    if i < 1 {
        (items, state)
    } else {
        let bound = (i + 1) as u32;
        let st = state_after(state, draws_for(state, bound));
        let j = (mulberry(st) % bound) as int;
        shuffle_from(swap_at(items, i, j), st, i - 1)
    }
}

/// `slice::swap`. Trusted: exchanges the two elements.
#[verifier::external_body]
fn swap_items<T>(items: &mut [T], i: usize, j: usize)
    requires
        i < old(items)@.len(),
        j < old(items)@.len(),
    ensures
        final(items)@ == swap_at(old(items)@, i as int, j as int),
{
    items.swap(i, j);
}

impl Rng {
    pub fn new(seed: u32) -> (res: Self)
        ensures
            res@ == seed,
    {
        Self { state: seed }
    }

    /// The next output: advance the state, then mix it.
    pub fn next_u32(&mut self) -> (res: u32)
        ensures
            final(self)@ == advance(old(self)@),
            res == mulberry(final(self)@),
    {
        self.state = self.state.wrapping_add(MULBERRY_STEP);
        let z = self.state;
        let z = (z ^ (z >> 15)).wrapping_mul(z | 1);
        let z = z ^ z.wrapping_add((z ^ (z >> 7)).wrapping_mul(z | 61));
        z ^ (z >> 14)
    }

    /// Integer in [0, bound) without modulo bias, via rejection sampling.
    pub fn next_below(&mut self, bound: u32) -> (res: u32)
        requires
            bound > 0,
        ensures
            first_accept(old(self)@, bound, draws_for(old(self)@, bound)),
            final(self)@ == state_after(old(self)@, draws_for(old(self)@, bound)),
            res == mulberry(final(self)@) % bound,
            res < bound,
    {
        let ghost s0 = self.state;
        let limit: u64 = 4_294_967_296u64 - (4_294_967_296u64 % bound as u64);
        assert(limit == draw_limit(bound));
        assert(limit >= 1) by (nonlinear_arith)
            requires
                limit == 4_294_967_296int - (4_294_967_296int % (bound as int)),
                bound > 0,
                bound <= u32::MAX,
        ;
        let mut value = self.next_u32() as u64;
        let ghost mut k: nat = 1;
        assert(state_after(s0, 0) == s0);
        proof {
            lemma_zero_state_output();
        }
        while value >= limit
            invariant
                limit == draw_limit(bound),
                limit >= 1,
                mulberry(0) == 0,
                k >= 1,
                self.state == state_after(s0, k),
                value == mulberry(self.state),
                forall|j: nat| 1 <= j < k ==> !accepted(#[trigger] state_after(s0, j), bound),
            decreases steps_to_zero(self.state),
        {
            proof {
                lemma_advance_bits(self.state);
                assert(self.state != 0);
                assert(!accepted(state_after(s0, k), bound));
            }
            value = self.next_u32() as u64;
            proof {
                k = k + 1;
                assert(forall|j: nat| 1 <= j < k ==> !accepted(#[trigger] state_after(s0, j), bound));
            }
        }
        proof {
            lemma_first_accept_unique(s0, bound, k);
        }
        (value % bound as u64) as u32
    }

    /// In-place Fisher-Yates shuffle.
    pub fn shuffle<T>(&mut self, items: &mut [T])
        requires
            old(items)@.len() <= u32::MAX,
        ensures
            (final(items)@, final(self)@) == shuffle_from(
                old(items)@,
                old(self)@,
                old(items)@.len() - 1,
            ),
    {
        let n = items.len();
        if n < 2 {
            assert(shuffle_from(items@, self@, n - 1) == (items@, self@));
            return;
        }
        let mut i: usize = n - 1;
        while i >= 1
            invariant
                items@.len() == n,
                n <= u32::MAX,
                i < n,
                shuffle_from(old(items)@, old(self)@, n - 1) == shuffle_from(
                    items@,
                    self@,
                    i as int,
                ),
            decreases i,
        {
            let j = self.next_below((i + 1) as u32) as usize;
            swap_items(items, i, j);
            i = i - 1;
        }
        assert(shuffle_from(items@, self@, 0) == (items@, self@));
    }
}

/// Shuffling only reorders: the shuffled sequence holds the same items.
pub proof fn lemma_shuffle_permutes<T>(items: Seq<T>, state: u32, i: int)
    requires
        i < items.len() <= u32::MAX,
    ensures
        shuffle_from(items, state, i).0.to_multiset() == items.to_multiset(),
        shuffle_from(items, state, i).0.len() == items.len(),
    decreases i,
{
    if i >= 1 {
        let bound = (i + 1) as u32;
        let st = state_after(state, draws_for(state, bound));
        let j = (mulberry(st) % bound) as int;
        let once = items.update(i, items[j]);
        let sw = swap_at(items, i, j);
        vstd::seq_lib::to_multiset_update(items, i, items[j]);
        vstd::seq_lib::to_multiset_update(once, j, items[i]);
        assert(sw.to_multiset() =~= items.to_multiset()) by {
            broadcast use vstd::multiset::group_multiset_axioms;
            items.to_multiset_ensures();
            assert(items.to_multiset().count(items[j]) > 0);
            assert(items.to_multiset().count(items[i]) > 0);
        }
        lemma_shuffle_permutes(sw, st, i - 1);
    }
}

} // verus!
