use vstd::multiset::group_multiset_axioms;
use vstd::prelude::*;
use vstd::seq_lib::to_multiset_update;

verus! {

/// A deterministic pseudo-random generator (SplitMix64). The same seed gives
/// the same sequence of draws on every run.
#[derive(Clone, Copy, Debug)]
pub struct Rng {
    state: u64,
}

impl View for Rng {
    type V = u64;

    closed spec fn view(&self) -> u64 {
        self.state
    }
}

impl Rng {
    /// The state that follows `state`.
    pub open spec fn step(state: u64) -> u64 {
        state.wrapping_add(0x9E37_79B9_7F4A_7C15u64)
    }

    /// The value that the generator gives out in `state`.
    pub open spec fn output(state: u64) -> u64 {
        let a: u64 = (state ^ (state >> 30u64)).wrapping_mul(0xBF58_476D_1CE4_E5B9u64);
        let b: u64 = (a ^ (a >> 27u64)).wrapping_mul(0x94D0_49BB_1331_11EBu64);
        b ^ (b >> 31u64)
    }

    /// The number below `bound` that a generator in `state` draws next.
    pub open spec fn pick(state: u64, bound: nat) -> nat {
        (Self::output(Self::step(state)) as nat) % bound
    }

    /// The state after `draws` draws from `state`.
    pub open spec fn state_after(state: u64, draws: nat) -> u64
        decreases draws,
    {
        if draws == 0 {
            state
        } else {
            Self::state_after(Self::step(state), (draws - 1) as nat)
        }
    }

    /// A generator started from `seed`.
    pub fn new(seed: u64) -> (rng: Self)
        ensures
            rng@ == seed,
    {
        Rng { state: seed }
    }

    /// Advances the generator and gives out the value of its new state.
    pub fn next_u64(&mut self) -> (value: u64)
        ensures
            final(self)@ == Self::step(old(self)@),
            value == Self::output(final(self)@),
    {
        self.state = self.state.wrapping_add(0x9E37_79B9_7F4A_7C15u64);
        let a: u64 = (self.state ^ (self.state >> 30u64)).wrapping_mul(0xBF58_476D_1CE4_E5B9u64);
        let b: u64 = (a ^ (a >> 27u64)).wrapping_mul(0x94D0_49BB_1331_11EBu64);
        b ^ (b >> 31u64)
    }

    /// Draws a number below `bound`.
    pub fn below(&mut self, bound: usize) -> (value: usize)
        requires
            bound >= 1,
        ensures
            final(self)@ == Self::step(old(self)@),
            value == Self::pick(old(self)@, bound as nat),
            value < bound,
    {
        let raw: u64 = self.next_u64();
        (raw % (bound as u64)) as usize
    }
}

/// `s` with the entries at `i` and `j` exchanged.
pub open spec fn swapped(s: Seq<usize>, i: int, j: int) -> Seq<usize> {
    s.update(i, s[j]).update(j, s[i])
}

/// Fisher-Yates from position `upto` down to position 1: each position in
/// turn is exchanged with a drawn position at or below it.
pub open spec fn shuffled_from(s: Seq<usize>, state: u64, upto: nat) -> Seq<usize>
    decreases upto,
{
    if upto == 0 {
        s
    } else {
        shuffled_from(
            swapped(s, upto as int, Rng::pick(state, upto + 1) as int),
            Rng::step(state),
            (upto - 1) as nat,
        )
    }
}

/// The Fisher-Yates shuffle of `s` by a generator in `state`.
pub open spec fn shuffled(s: Seq<usize>, state: u64) -> Seq<usize> {
    if s.len() == 0 {
        s
    } else {
        shuffled_from(s, state, (s.len() - 1) as nat)
    }
}

/// Number of draws that shuffling a sequence of length `len` takes.
pub open spec fn shuffle_draws(len: nat) -> nat {
    if len == 0 {
        0
    } else {
        (len - 1) as nat
    }
}

/// Exchanging two entries keeps the entries, each as often as before.
pub proof fn lemma_swapped_is_permutation(s: Seq<usize>, i: int, j: int)
    requires
        0 <= i < s.len(),
        0 <= j < s.len(),
    ensures
        swapped(s, i, j).len() == s.len(),
        swapped(s, i, j).to_multiset() == s.to_multiset(),
{
    broadcast use group_multiset_axioms;

    let t = s.update(i, s[j]);
    let m = s.to_multiset();
    to_multiset_update(s, i, s[j]);
    to_multiset_update(t, j, s[i]);
    s.to_multiset_ensures();
    assert(s.contains(s[i]) && s.contains(s[j]));
    assert(t[j] == s[j]);
    assert(m.count(s[i]) > 0 && m.count(s[j]) > 0);
    let m1 = m.insert(s[j]).remove(s[i]);
    assert(t.to_multiset() == m1);
    assert(swapped(s, i, j).to_multiset() == m1.insert(s[i]).remove(s[j]));
    assert forall|v: usize| m1.insert(s[i]).remove(s[j]).count(v) == m.count(v) by {
        assert(m.insert(s[j]).count(s[i]) > 0);
        assert(m1.insert(s[i]).count(s[j]) > 0);
    }
    assert(m1.insert(s[i]).remove(s[j]) =~= m);
}

/// A shuffle keeps the entries, each as often as before, whatever the state.
pub proof fn lemma_shuffled_from_is_permutation(s: Seq<usize>, state: u64, upto: nat)
    requires
        upto < s.len(),
    ensures
        shuffled_from(s, state, upto).len() == s.len(),
        shuffled_from(s, state, upto).to_multiset() == s.to_multiset(),
    decreases upto,
{
    if upto > 0 {
        let j = Rng::pick(state, upto + 1) as int;
        lemma_swapped_is_permutation(s, upto as int, j);
        lemma_shuffled_from_is_permutation(
            swapped(s, upto as int, j),
            Rng::step(state),
            (upto - 1) as nat,
        );
    }
}

/// A shuffle keeps the entries, each as often as before, whatever the state.
pub proof fn lemma_shuffled_is_permutation(s: Seq<usize>, state: u64)
    ensures
        shuffled(s, state).len() == s.len(),
        shuffled(s, state).to_multiset() == s.to_multiset(),
        forall|v: usize| shuffled(s, state).contains(v) <==> s.contains(v),
{
    if s.len() > 0 {
        lemma_shuffled_from_is_permutation(s, state, (s.len() - 1) as nat);
    }
    let t = shuffled(s, state);
    s.to_multiset_ensures();
    t.to_multiset_ensures();
    assert forall|v: usize| t.contains(v) <==> s.contains(v) by {
        assert(t.contains(v) <==> t.to_multiset().count(v) > 0);
        assert(s.contains(v) <==> s.to_multiset().count(v) > 0);
    }
}

/// Shuffles `items` in place with draws from `rng`.
pub fn shuffle(items: &mut Vec<usize>, rng: &mut Rng)
    ensures
        final(items)@ == shuffled(old(items)@, old(rng)@),
        final(rng)@ == Rng::state_after(old(rng)@, shuffle_draws(old(items)@.len())),
        final(items)@.len() == old(items)@.len(),
        final(items)@.to_multiset() == old(items)@.to_multiset(),
        forall|v: usize| final(items)@.contains(v) <==> old(items)@.contains(v),
{
    proof {
        lemma_shuffled_is_permutation(old(items)@, old(rng)@);
    }
    let n: usize = items.len();
    if n < 2 {
        return ;
    }
    let mut i: usize = n - 1;
    while i > 0
        invariant
            i < n,
            items@.len() == n,
            n == old(items)@.len(),
            shuffled_from(items@, rng@, i as nat) == shuffled(old(items)@, old(rng)@),
            Rng::state_after(rng@, i as nat) == Rng::state_after(
                old(rng)@,
                shuffle_draws(old(items)@.len()),
            ),
        decreases i,
    {
        let j: usize = rng.below(i + 1);
        let high: usize = items[i];
        let low: usize = items[j];
        items.set(i, low);
        items.set(j, high);
        i -= 1;
    }
}

} // verus!
