//! The primes that the workers share when the search begins at zero: what
//! they have found so far, and divide later candidates by.
use vstd::prelude::*;
use vstd::relations::{sorted_by, total_ordering};
use vstd::seq_lib::{lemma_no_dup_in_concat, lemma_sorted_unique};
use crate::partition::SubRange;
use crate::primality::{fresh_primes, holds_primes_up_to, is_prime, is_prime_list, lemma_fresh_primes};

verus! {

/// The order of the natural numbers on `usize`.
pub open spec fn at_most() -> spec_fn(usize, usize) -> bool {
    |a: usize, b: usize| a <= b
}

/// The ascending arrangement of the elements of `known` and `found`
/// together.
pub open spec fn merged(known: Seq<usize>, found: Seq<usize>) -> Seq<usize> {
    (known + found).sort_by(at_most())
}

/// The last element of a list, if it has one; of an ascending list this is
/// its maximum.
pub open spec fn last_of(list: Seq<usize>) -> Option<usize> {
    if list.len() == 0 {
        None
    } else {
        Some(list.last())
    }
}

/// `merged` is ascending and holds exactly the elements of both lists, each
/// as often as both hold it together.
pub proof fn lemma_merged(known: Seq<usize>, found: Seq<usize>)
    ensures
        merged(known, found).to_multiset() == (known + found).to_multiset(),
        merged(known, found).len() == known.len() + found.len(),
        forall|i: int, j: int|
            0 <= i < j < merged(known, found).len() ==> merged(known, found)[i] <= merged(
                known,
                found,
            )[j],
        forall|v: usize|
            merged(known, found).contains(v) <==> known.contains(v) || found.contains(v),
{
    broadcast use vstd::seq_lib::group_to_multiset_ensures;

    let all = known + found;
    let sorted = merged(known, found);
    assert(total_ordering(at_most()));
    all.lemma_sort_by_ensures(at_most());
    assert(sorted.len() == all.len()) by {
        vstd::seq_lib::to_multiset_len(sorted);
        vstd::seq_lib::to_multiset_len(all);
    }
    assert forall|i: int, j: int| 0 <= i < j < sorted.len() implies sorted[i] <= sorted[j] by {
        assert(at_most()(sorted[i], sorted[j]));
    }
    assert forall|v: usize| sorted.contains(v) <==> known.contains(v) || found.contains(v) by {
        assert(sorted.to_multiset().count(v) == all.to_multiset().count(v));
        if all.contains(v) {
            let i = choose|i: int| 0 <= i < all.len() && all[i] == v;
            if i < known.len() {
                assert(known[i] == v);
            } else {
                assert(found[i - known.len()] == v);
            }
        }
        if known.contains(v) {
            let i = choose|i: int| 0 <= i < known.len() && known[i] == v;
            assert(all[i] == v);
        }
        if found.contains(v) {
            let i = choose|i: int| 0 <= i < found.len() && found[i] == v;
            assert(all[known.len() + i] == v);
        }
    }
}

/// An ascending list with the elements of both lists, each as often as both
/// hold it together, is `merged`.
pub proof fn lemma_merged_is_unique(known: Seq<usize>, found: Seq<usize>, other: Seq<usize>)
    requires
        other.to_multiset() == (known + found).to_multiset(),
        forall|i: int, j: int| 0 <= i < j < other.len() ==> other[i] <= other[j],
    ensures
        other == merged(known, found),
{
    assert(total_ordering(at_most()));
    (known + found).lemma_sort_by_ensures(at_most());
    assert(sorted_by(other, at_most()));
    lemma_sorted_unique(other, merged(known, found), at_most());
}

/// Two lists of primes without a common element merge into a list of
/// primes.
pub proof fn lemma_merged_primes(known: Seq<usize>, found: Seq<usize>)
    requires
        is_prime_list(known),
        is_prime_list(found),
        forall|i: int, j: int| 0 <= i < known.len() && 0 <= j < found.len() ==> known[i] != found[j],
    ensures
        is_prime_list(merged(known, found)),
{
    let all = known + found;
    let sorted = merged(known, found);
    lemma_merged(known, found);
    lemma_no_dup_in_concat(known, found);
    all.lemma_multiset_has_no_duplicates();
    sorted.lemma_multiset_has_no_duplicates_conv();
    assert forall|i: int| 0 <= i < sorted.len() implies is_prime(#[trigger] sorted[i] as int) by {
        let v = sorted[i];
        assert(sorted.contains(v));
        if known.contains(v) {
            let j = choose|j: int| 0 <= j < known.len() && known[j] == v;
        } else {
            let j = choose|j: int| 0 <= j < found.len() && found[j] == v;
        }
    }
}

/// `<[usize]>::sort`, called on the whole vector: afterwards the elements
/// stand in ascending order, and they are the elements from before, each as
/// often as before.
#[verifier::external_body]
fn sort_ascending(list: &mut Vec<usize>)
    ensures
        final(list)@.to_multiset() == old(list)@.to_multiset(),
        forall|i: int, j: int| 0 <= i < j < final(list)@.len() ==> final(list)@[i] <= final(list)@[j],
{
    list.sort();
}

/// What an accumulator stands for: the primes found so far, in ascending
/// order, and the bound up to which no prime is missing among them.
pub struct Known {
    pub primes: Seq<usize>,
    pub searched: int,
}

/// The bound of an accumulator after the search of `sub`: it moves to the
/// end of a sub-range that begins at or below the number after it.
pub open spec fn advanced(sub: SubRange, searched: int) -> int {
    if sub.start <= searched + 1 && searched < sub.end {
        sub.end as int
    } else {
        searched
    }
}

/// The primes found so far by all workers: a strictly ascending list of
/// primes, which lacks no prime up to the bound `searched`.
pub struct KnownPrimes {
    primes: Vec<usize>,
    searched: usize,
}

impl View for KnownPrimes {
    type V = Known;

    closed spec fn view(&self) -> Known {
        Known { primes: self.primes@, searched: self.searched as int }
    }
}

impl KnownPrimes {
    #[verifier::type_invariant]
    spec fn complete(self) -> bool {
        &&& is_prime_list(self.primes@)
        &&& holds_primes_up_to(self.primes@, self.searched as int)
    }

    /// An accumulator that holds nothing yet. No prime lies below 2, so
    /// nothing is missing up to 1.
    pub fn new() -> (known: KnownPrimes)
        ensures
            known@ == (Known { primes: Seq::empty(), searched: 1 }),
    {
        KnownPrimes { primes: Vec::new(), searched: 1 }
    }

    /// The primes found so far, in ascending order.
    pub fn primes(&self) -> (list: &Vec<usize>)
        ensures
            list@ == self@.primes,
            is_prime_list(list@),
            holds_primes_up_to(list@, self@.searched),
    {
        proof {
            use_type_invariant(self);
        }
        &self.primes
    }

    /// The bound up to which no prime is missing.
    pub fn searched(&self) -> (bound: usize)
        ensures
            bound == self@.searched,
    {
        self.searched
    }

    /// The largest prime found so far, if there is one.
    pub fn largest(&self) -> (top: Option<usize>)
        ensures
            top == last_of(self@.primes),
    {
        if self.primes.len() > 0 {
            Some(self.primes[self.primes.len() - 1])
        } else {
            None
        }
    }

    /// Whether `value` is among the primes found so far.
    pub fn holds(&self, value: usize) -> (held: bool)
        ensures
            held == self@.primes.contains(value),
    {
        let mut i: usize = 0;
        while i < self.primes.len()
            invariant
                i <= self.primes@.len(),
                forall|k: int| 0 <= k < i ==> self.primes@[k] != value,
            decreases self.primes@.len() - i,
        {
            if self.primes[i] == value {
                return true;
            }
            i = i + 1;
        }
        false
    }

    /// The elements of the ascending list `found` that are not held yet, in
    /// the same order.
    pub fn fresh_of(&self, found: &Vec<usize>) -> (fresh: Vec<usize>)
        requires
            forall|i: int, j: int| 0 <= i < j < found@.len() ==> found@[i] < found@[j],
        ensures
            forall|i: int, j: int| 0 <= i < j < fresh@.len() ==> fresh@[i] < fresh@[j],
            forall|v: usize|
                fresh@.contains(v) <==> found@.contains(v) && !self@.primes.contains(v),
    {
        let mut fresh: Vec<usize> = Vec::new();
        let mut i: usize = 0;
        while i < found.len()
            invariant
                i <= found@.len(),
                forall|a: int, b: int| 0 <= a < b < found@.len() ==> found@[a] < found@[b],
                forall|a: int, b: int| 0 <= a < b < fresh@.len() ==> fresh@[a] < fresh@[b],
                forall|k: int|
                    0 <= k < fresh@.len() ==> exists|j: int|
                        0 <= j < i && found@[j] == #[trigger] fresh@[k],
                forall|k: int| 0 <= k < fresh@.len() ==> !self@.primes.contains(#[trigger] fresh@[k]),
                forall|j: int|
                    0 <= j < i && !self@.primes.contains(#[trigger] found@[j]) ==> fresh@.contains(
                        found@[j],
                    ),
            decreases found@.len() - i,
        {
            let value: usize = found[i];
            if !self.holds(value) {
                let ghost before = fresh@;
                proof {
                    assert forall|k: int| 0 <= k < before.len() implies before[k] < value by {
                        let j = choose|j: int| 0 <= j < i && found@[j] == before[k];
                    }
                }
                fresh.push(value);
                proof {
                    assert forall|j: int|
                        0 <= j < i + 1 && !self@.primes.contains(
                            #[trigger] found@[j],
                        ) implies fresh@.contains(found@[j]) by {
                        if j < i {
                            assert(before.contains(found@[j]));
                            let k = choose|k: int| 0 <= k < before.len() && before[k] == found@[j];
                            assert(fresh@[k] == found@[j]);
                        } else {
                            assert(fresh@[fresh@.len() - 1] == found@[j]);
                        }
                    }
                }
            }
            i = i + 1;
        }
        proof {
            assert forall|v: usize|
                fresh@.contains(v) <==> found@.contains(v) && !self@.primes.contains(v) by {
                if fresh@.contains(v) {
                    let k = choose|k: int| 0 <= k < fresh@.len() && fresh@[k] == v;
                    let j = choose|j: int| 0 <= j < i && found@[j] == fresh@[k];
                }
                if found@.contains(v) && !self@.primes.contains(v) {
                    let j = choose|j: int| 0 <= j < found@.len() && found@[j] == v;
                }
            }
        }
        fresh
    }

    /// Takes in the primes of `sub` that were not held yet, restores the
    /// ascending order, and moves the bound on.
    pub(crate) fn absorb(&mut self, sub: SubRange, fresh: &Vec<usize>)
        requires
            fresh@ == fresh_primes(sub.start as int, sub.end as int, old(self)@.primes),
        ensures
            final(self)@ == (Known {
                primes: merged(old(self)@.primes, fresh@),
                searched: advanced(sub, old(self)@.searched),
            }),
    {
        proof {
            use_type_invariant(&*self);
        }
        let ghost before = self.primes@;
        let ghost bound = self.searched as int;
        assert(before == old(self)@.primes && bound == old(self)@.searched);
        let reaches: bool = sub.start == 0 || sub.start - 1 <= self.searched;
        let searched: usize = if reaches && self.searched < sub.end {
            sub.end
        } else {
            self.searched
        };
        let mut taken = KnownPrimes::new();
        core::mem::swap(self, &mut taken);
        let mut list: Vec<usize> = taken.primes;
        let mut i: usize = 0;
        while i < fresh.len()
            invariant
                i <= fresh@.len(),
                list@ == before + fresh@.subrange(0, i as int),
            decreases fresh@.len() - i,
        {
            list.push(fresh[i]);
            i = i + 1;
        }
        assert(list@ == before + fresh@);
        sort_ascending(&mut list);
        proof {
            lemma_fresh_primes(sub.start as int, sub.end as int, before);
            assert forall|a: int, b: int| 0 <= a < before.len() && 0 <= b < fresh@.len() implies before[a]
                != fresh@[b] by {
                assert(fresh@.contains(fresh@[b]));
                assert(before.contains(before[a]));
            }
            lemma_merged_is_unique(before, fresh@, list@);
            lemma_merged_primes(before, fresh@);
            lemma_merged(before, fresh@);
            assert forall|q: int| 2 <= q <= searched && is_prime(q) implies #[trigger] list@.contains(
                q as usize,
            ) by {
                if q <= bound {
                    assert(before.contains(q as usize));
                } else if !before.contains(q as usize) {
                    assert(fresh@.contains(q as usize));
                }
            }
        }
        *self = KnownPrimes { primes: list, searched };
    }
}

} // verus!
