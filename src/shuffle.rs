use vstd::prelude::*;
use crate::plan::FileInfo;
use crate::rng::{initial_state, xorshift_step, XorShift64};

verus! {

/// `s` with the items at `i` and `j` exchanged.
pub open spec fn swapped<T>(s: Seq<T>, i: int, j: int) -> Seq<T> {
    s.update(i, s[j]).update(j, s[i])
}

/// Fisher-Yates from index `i` down to 1, drawing from the generator state
/// `state`: at each index, the next state modulo `i + 1` picks the item to
/// exchange with.
pub open spec fn fisher_yates<T>(s: Seq<T>, state: u64, i: nat) -> Seq<T>
    decreases i,
{
    if i == 0 {
        s
    } else {
        let x = xorshift_step(state);
        let j = (x as int) % (i as int + 1);
        fisher_yates(swapped(s, i as int, j), x, (i - 1) as nat)
    }
}

/// The order that `s` is put in by a shuffle with `seed`.
pub open spec fn shuffled<T>(s: Seq<T>, seed: u64) -> Seq<T> {
    if s.len() <= 1 {
        s
    } else {
        fisher_yates(s, initial_state(seed), (s.len() - 1) as nat)
    }
}

proof fn lemma_swapped_multiset<T>(s: Seq<T>, i: int, j: int)
    requires
        0 <= i < s.len(),
        0 <= j < s.len(),
    ensures
        swapped(s, i, j).to_multiset() == s.to_multiset(),
{
    let t = s.update(i, s[j]);
    vstd::seq_lib::to_multiset_update(s, i, s[j]);
    vstd::seq_lib::to_multiset_update(t, j, s[i]);
    assert(t[j] == s[j]);
    let m = s.to_multiset();
    vstd::seq_lib::to_multiset_contains(s, s[i]);
    assert(m.count(s[i]) > 0);
    assert(m.insert(s[j]).remove(s[i]).insert(s[i]).remove(s[j]) =~= m) by {
        broadcast use vstd::multiset::group_multiset_axioms;

    }
}

proof fn lemma_fisher_yates_multiset<T>(s: Seq<T>, state: u64, i: nat)
    requires
        i < s.len(),
    ensures
        fisher_yates(s, state, i).to_multiset() == s.to_multiset(),
        fisher_yates(s, state, i).len() == s.len(),
    decreases i,
{
    if i > 0 {
        let x = xorshift_step(state);
        let j = (x as int) % (i as int + 1);
        lemma_swapped_multiset(s, i as int, j);
        lemma_fisher_yates_multiset(swapped(s, i as int, j), x, (i - 1) as nat);
    }
}

/// A shuffle only reorders: it holds the same items, each as many times.
pub proof fn lemma_shuffle_permutes<T>(s: Seq<T>, seed: u64)
    ensures
        shuffled(s, seed).len() == s.len(),
        shuffled(s, seed).to_multiset() == s.to_multiset(),
{
    if s.len() > 1 {
        lemma_fisher_yates_multiset(s, initial_state(seed), (s.len() - 1) as nat);
    }
}

/// Two shuffles of the same items with the same seed give the same order.
pub proof fn lemma_shuffle_deterministic<T>(a: Seq<T>, b: Seq<T>, seed: u64)
    requires
        a == b,
    ensures
        shuffled(a, seed) == shuffled(b, seed),
{
}

/// Shuffles `files` in place with Fisher-Yates over a generator seeded
/// with `seed`.
pub fn shuffle_in_place(files: &mut [FileInfo], seed: u64)
    ensures
        final(files)@ == shuffled(old(files)@, seed),
        final(files)@.to_multiset() == old(files)@.to_multiset(),
{
    proof {
        lemma_shuffle_permutes(files@, seed);
    }
    let mut rng = XorShift64::new(seed);
    let n = files.len();
    if n <= 1 {
        return;
    }
    let mut i: usize = n - 1;
    while i > 0
        invariant
            rng.wf(),
            n == files@.len(),
            1 <= n,
            i < n,
            fisher_yates(files@, rng.state, i as nat) == shuffled(old(files)@, seed),
        decreases i,
    {
        let ghost before = files@;
        let ghost st = rng.state;
        let x = rng.next_u64();
        let j = (x % (i as u64 + 1)) as usize;
        let a = files[i].clone();
        let b = files[j].clone();
        files[i] = b;
        files[j] = a;
        proof {
            assert(files@ =~= swapped(before, i as int, j as int));
            assert(fisher_yates(before, st, i as nat) == fisher_yates(
                swapped(before, i as int, j as int),
                x,
                (i - 1) as nat,
            ));
        }
        i = i - 1;
    }
}

} // verus!
