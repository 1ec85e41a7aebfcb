//! Trial division over an inclusive range of candidates.
use vstd::prelude::*;
use vstd::arithmetic::div_mod::lemma_fundamental_div_mod;

verus! {

/// `p` is a prime number: at least 2 and divisible by nothing strictly
/// between 1 and itself.
pub open spec fn is_prime(p: int) -> bool {
    p >= 2 && forall|d: int| 2 <= d < p ==> #[trigger] (p % d) != 0
}

/// A list of witnesses that trial division can scan: ascending, and free of
/// zero.
pub open spec fn scannable(known: Seq<usize>) -> bool {
    &&& forall|i: int| 0 <= i < known.len() ==> 0 < #[trigger] known[i]
    &&& forall|i: int, j: int| 0 <= i < j < known.len() ==> known[i] <= known[j]
}

/// No witness up to `p` itself divides `p`.
pub open spec fn survives(known: Seq<usize>, p: int) -> bool {
    forall|i: int| 0 <= i < known.len() && #[trigger] known[i] <= p ==> p % (known[i] as int) != 0
}

/// The verdict of trial division on the candidate `p`. Without witnesses
/// the candidate is tested against every smaller integer, and the verdict
/// is primality itself. With witnesses only they are tried, so the verdict
/// is as good as the list is complete.
pub open spec fn admitted(known: Option<Seq<usize>>, p: int) -> bool {
    match known {
        Some(witnesses) => p >= 2 && survives(witnesses, p),
        None => is_prime(p),
    }
}

/// `answer` is the largest prime of `lo..=hi`, or `None` where the interval
/// holds no prime.
pub open spec fn is_largest_prime_of(lo: int, hi: int, answer: Option<usize>) -> bool {
    match answer {
        Some(largest) => {
            &&& lo <= largest <= hi
            &&& is_prime(largest as int)
            &&& forall|q: int| largest < q <= hi ==> !is_prime(q)
        },
        None => forall|q: int| lo <= q <= hi ==> !is_prime(q),
    }
}

/// The admitted candidates of `lo..=hi`, in ascending order.
pub open spec fn selected(lo: int, hi: int, known: Option<Seq<usize>>) -> Seq<usize>
    decreases hi - lo + 1,
{
    if hi < lo {
        Seq::empty()
    } else if admitted(known, hi) {
        selected(lo, hi - 1, known).push(hi as usize)
    } else {
        selected(lo, hi - 1, known)
    }
}

/// What `selected` holds: each admitted candidate of the range once, and
/// nothing else, in strictly ascending order.
pub proof fn lemma_selected(lo: int, hi: int, known: Option<Seq<usize>>)
    requires
        0 <= lo,
        hi <= usize::MAX,
    ensures
        forall|i: int|
            0 <= i < selected(lo, hi, known).len() ==> {
                let p = #[trigger] selected(lo, hi, known)[i];
                lo <= p <= hi && p >= 2 && admitted(known, p as int)
            },
        forall|i: int, j: int|
            0 <= i < j < selected(lo, hi, known).len() ==> selected(lo, hi, known)[i] < selected(
                lo,
                hi,
                known,
            )[j],
        forall|p: int|
            lo <= p <= hi && admitted(known, p) ==> #[trigger] selected(lo, hi, known).contains(
                p as usize,
            ),
    decreases hi - lo + 1,
{
    if hi >= lo {
        lemma_selected(lo, hi - 1, known);
        let rest = selected(lo, hi - 1, known);
        let all = selected(lo, hi, known);
        assert forall|p: int| lo <= p <= hi && admitted(known, p) implies #[trigger] all.contains(
            p as usize,
        ) by {
            if p == hi {
                assert(all[all.len() - 1] == hi as usize);
            } else {
                assert(rest.contains(p as usize));
                let i = choose|i: int| 0 <= i < rest.len() && rest[i] == p as usize;
                assert(all[i] == p as usize);
            }
        }
    }
}

/// A range of a single candidate, searched without witnesses, holds that
/// candidate if it is prime and nothing if it is not.
pub proof fn lemma_single_candidate(p: int)
    requires
        0 <= p <= usize::MAX,
    ensures
        is_prime(p) ==> selected(p, p, None) == seq![p as usize],
        !is_prime(p) ==> selected(p, p, None) == Seq::<usize>::empty(),
{
    reveal_with_fuel(selected, 2);
    assert(selected(p, p - 1, None) == Seq::<usize>::empty());
    if is_prime(p) {
        assert(selected(p, p, None) == Seq::<usize>::empty().push(p as usize));
    }
}

/// Two searches with the same bounds and the same witnesses find the same
/// numbers: the result depends on nothing but these.
pub proof fn lemma_search_is_repeatable(
    start: usize,
    end: usize,
    known_first: Option<Seq<usize>>,
    known_second: Option<Seq<usize>>,
    found_first: Seq<usize>,
    found_second: Seq<usize>,
)
    requires
        known_first == known_second,
        found_first == selected(start as int, end as int, known_first),
        found_second == selected(start as int, end as int, known_second),
    ensures
        found_first == found_second,
{
}

/// Every number from 2 upwards has a prime divisor.
pub proof fn lemma_prime_divisor(n: int) -> (q: int)
    requires
        n >= 2,
    ensures
        is_prime(q),
        q <= n,
        n % q == 0,
    decreases n,
{
    if is_prime(n) {
        assert(n % n == 0) by (nonlinear_arith)
            requires
                n >= 2,
        ;
        n
    } else {
        let d = choose|d: int| 2 <= d < n && #[trigger] (n % d) == 0;
        let q = lemma_prime_divisor(d);
        lemma_fundamental_div_mod(n, d);
        lemma_fundamental_div_mod(d, q);
        let a = n / d;
        let b = d / q;
        assert(n == q * (b * a)) by (nonlinear_arith)
            requires
                n == d * a,
                d == q * b,
        ;
        vstd::arithmetic::div_mod::lemma_mod_multiples_basic(b * a, q);
        assert(n == (b * a) * q) by (nonlinear_arith)
            requires
                n == q * (b * a),
        ;
        q
    }
}

/// A strictly ascending list of primes.
pub open spec fn is_prime_list(list: Seq<usize>) -> bool {
    &&& forall|i: int| 0 <= i < list.len() ==> is_prime(#[trigger] list[i] as int)
    &&& forall|i: int, j: int| 0 <= i < j < list.len() ==> list[i] < list[j]
}

/// The list holds every prime up to `bound`.
pub open spec fn holds_primes_up_to(list: Seq<usize>, bound: int) -> bool {
    forall|q: int| 2 <= q <= bound && is_prime(q) ==> #[trigger] list.contains(q as usize)
}

/// Trial division against witnesses decides primality where the list is
/// complete: if it is a list of primes that holds every prime up to half of
/// `p`, then `p` is admitted exactly if it is a prime that the list does not
/// hold yet.
pub proof fn lemma_complete_witnesses_decide(known: Seq<usize>, p: int)
    requires
        is_prime_list(known),
        holds_primes_up_to(known, p / 2),
        p <= usize::MAX,
    ensures
        admitted(Some(known), p) <==> is_prime(p) && !known.contains(p as usize),
{
    if admitted(Some(known), p) {
        if known.contains(p as usize) {
            let i = choose|i: int| 0 <= i < known.len() && known[i] == p as usize;
            assert(known[i] <= p);
            assert(p % p == 0) by (nonlinear_arith)
                requires
                    p >= 2,
            ;
        }
        let q = lemma_prime_divisor(p);
        if q < p {
            lemma_fundamental_div_mod(p, q);
            let c = p / q;
            assert(c >= 2) by (nonlinear_arith)
                requires
                    p == q * c,
                    2 <= q < p,
            ;
            assert(2 * q <= p) by (nonlinear_arith)
                requires
                    p == q * c,
                    c >= 2,
                    q >= 2,
            ;
            assert(q <= p / 2);
            assert(known.contains(q as usize));
            let i = choose|i: int| 0 <= i < known.len() && known[i] == q as usize;
            assert(known[i] <= p);
        }
    }
    if is_prime(p) && !known.contains(p as usize) {
        assert forall|i: int| 0 <= i < known.len() && #[trigger] known[i] <= p implies p % (
        known[i] as int) != 0 by {
            assert(known.contains(known[i]));
            let d = known[i] as int;
            assert(is_prime(d));
            assert(2 <= d < p);
        }
    }
}

/// The primes of `lo..=hi` that `known` does not hold, in ascending order.
pub open spec fn fresh_primes(lo: int, hi: int, known: Seq<usize>) -> Seq<usize>
    decreases hi - lo + 1,
{
    if hi < lo {
        Seq::empty()
    } else if is_prime(hi) && !known.contains(hi as usize) {
        fresh_primes(lo, hi - 1, known).push(hi as usize)
    } else {
        fresh_primes(lo, hi - 1, known)
    }
}

/// What `fresh_primes` holds: each prime of the range that `known` lacks,
/// once, and nothing else, in strictly ascending order.
pub proof fn lemma_fresh_primes(lo: int, hi: int, known: Seq<usize>)
    requires
        0 <= lo,
        hi <= usize::MAX,
    ensures
        is_prime_list(fresh_primes(lo, hi, known)),
        forall|v: usize| #[trigger]
            fresh_primes(lo, hi, known).contains(v) <==> lo <= v <= hi && is_prime(v as int)
                && !known.contains(v),
    decreases hi - lo + 1,
{
    if hi >= lo {
        lemma_fresh_primes(lo, hi - 1, known);
        let rest = fresh_primes(lo, hi - 1, known);
        let all = fresh_primes(lo, hi, known);
        assert forall|i: int| 0 <= i < rest.len() implies #[trigger] rest[i] < hi by {
            assert(rest.contains(rest[i]));
        }
        assert forall|v: usize| #[trigger]
            all.contains(v) <==> lo <= v <= hi && is_prime(v as int) && !known.contains(v) by {
            if all.contains(v) {
                let i = choose|i: int| 0 <= i < all.len() && all[i] == v;
                if i < rest.len() {
                    assert(rest.contains(v));
                }
            }
            if lo <= v <= hi && is_prime(v as int) && !known.contains(v) {
                if v == hi {
                    assert(all[all.len() - 1] == v);
                } else {
                    assert(rest.contains(v));
                    let i = choose|i: int| 0 <= i < rest.len() && rest[i] == v;
                    assert(all[i] == v);
                }
            }
        }
    }
}

/// Two strictly ascending lists with the same elements are the same list.
pub proof fn lemma_ascending_unique(one: Seq<usize>, other: Seq<usize>)
    requires
        forall|i: int, j: int| 0 <= i < j < one.len() ==> one[i] < one[j],
        forall|i: int, j: int| 0 <= i < j < other.len() ==> other[i] < other[j],
        forall|v: usize| one.contains(v) <==> other.contains(v),
    ensures
        one == other,
    decreases one.len(),
{
    if one.len() == 0 {
        if other.len() > 0 {
            assert(other.contains(other[0]));
        }
        assert(one =~= other);
    } else {
        let top = one.last();
        assert(one.contains(top));
        assert(other.contains(top));
        let at = choose|k: int| 0 <= k < other.len() && other[k] == top;
        assert(other.contains(other.last()));
        assert(one.contains(other.last()));
        let back = choose|k: int| 0 <= k < one.len() && one[k] == other.last();
        assert(at == other.len() - 1);
        let front = one.drop_last();
        let rest = other.drop_last();
        assert forall|v: usize| front.contains(v) <==> rest.contains(v) by {
            if front.contains(v) {
                let i = choose|i: int| 0 <= i < front.len() && front[i] == v;
                assert(one[i] == v);
                assert(one.contains(v));
                let k = choose|k: int| 0 <= k < other.len() && other[k] == v;
                assert(k < other.len() - 1);
                assert(rest[k] == v);
            }
            if rest.contains(v) {
                let k = choose|k: int| 0 <= k < rest.len() && rest[k] == v;
                assert(other[k] == v);
                assert(other.contains(v));
                let i = choose|i: int| 0 <= i < one.len() && one[i] == v;
                assert(i < one.len() - 1);
                assert(front[i] == v);
            }
        }
        lemma_ascending_unique(front, rest);
        assert(one =~= front.push(top));
        assert(other =~= rest.push(top));
    }
}

/// The witnesses behind an optional borrowed list.
pub open spec fn witnesses_of(known_primes: Option<&Vec<usize>>) -> Option<Seq<usize>> {
    match known_primes {
        Some(list) => Some(list@),
        None => None,
    }
}

/// A candidate without a divisor from 2 up to its half has none below
/// itself.
proof fn lemma_half_is_enough(p: int)
    requires
        p >= 2,
        forall|d: int| 2 <= d <= p / 2 ==> #[trigger] (p % d) != 0,
    ensures
        is_prime(p),
{
    assert forall|d: int| 2 <= d < p implies #[trigger] (p % d) != 0 by {
        if d > p / 2 && p % d == 0 {
            let q = p / d;
            lemma_fundamental_div_mod(p, d);
            assert(p == d * q);
            assert(q >= 2) by (nonlinear_arith)
                requires
                    p == d * q,
                    2 <= d < p,
            ;
            assert(d * q >= d * 2) by (nonlinear_arith)
                requires
                    q >= 2,
                    d >= 2,
            ;
        }
    }
}

/// Decides by trial division against every integer from 2 up to half of
/// `p` whether `p` is prime.
fn divides_none(p: usize) -> (verdict: bool)
    requires
        p >= 2,
    ensures
        verdict == is_prime(p as int),
{
    let half: usize = p / 2;
    let mut d: usize = 2;
    while d <= half
        invariant
            2 <= d <= half + 1,
            half == p / 2,
            p >= 2,
            forall|e: int| 2 <= e < d ==> #[trigger] ((p as int) % e) != 0,
        decreases half + 1 - d,
    {
        if p % d == 0 {
            assert(d < p);
            return false;
        }
        d = d + 1;
    }
    proof {
        lemma_half_is_enough(p as int);
    }
    true
}

/// Decides by trial division against the witnesses up to `p` whether `p`
/// passes. The scan stops at the first witness above `p`.
fn passes_witnesses(p: usize, known: &Vec<usize>) -> (verdict: bool)
    requires
        scannable(known@),
    ensures
        verdict == survives(known@, p as int),
{
    let mut verdict: bool = true;
    let mut i: usize = 0;
    while i < known.len()
        invariant_except_break
            i <= known.len(),
        invariant
            scannable(known@),
            verdict == (forall|k: int| 0 <= k < i ==> (p as int) % (#[trigger] known[k] as int) != 0),
            forall|k: int| 0 <= k < i ==> #[trigger] known[k] <= p,
        ensures
            i <= known.len(),
            i < known.len() ==> known[i as int] > p,
        decreases known.len() - i,
    {
        let witness: usize = known[i];
        if witness > p {
            break;
        } else if p % witness == 0 {
            verdict = false;
        }
        i = i + 1;
    }
    proof {
        if verdict {
            assert forall|k: int| 0 <= k < known.len() && #[trigger] known[k] <= p implies (p as int)
                % (known[k] as int) != 0 by {
                if k >= i {
                    assert(known[i as int] <= known[k]);
                }
            }
        }
    }
    verdict
}

/// Collects every number of `start..=end` that trial division admits, in
/// ascending order; 0 and 1 are never admitted.
///
/// Without `known_primes` each candidate is divided by every integer from 2
/// up to its half, and the result is exactly the primes of the range. With
/// `known_primes` each candidate is divided only by the listed witnesses that
/// do not exceed it, and is kept when none of them divides it.
///
/// The result is always `Ok`.
pub fn calculate_prime(start: usize, end: usize, known_primes: Option<&Vec<usize>>) -> (found:
    Result<Vec<usize>, String>)
    requires
        known_primes matches Some(list) ==> scannable(list@),
    ensures
        found is Ok,
        found->Ok_0@ == selected(start as int, end as int, witnesses_of(known_primes)),
{
    let mut primes: Vec<usize> = Vec::new();
    if start > end {
        return Ok(primes);
    }
    let mut p: usize = start;
    loop
        invariant_except_break
            start <= p <= end,
            primes@ == selected(start as int, p as int - 1, witnesses_of(known_primes)),
        invariant
            known_primes matches Some(list) ==> scannable(list@),
        ensures
            primes@ == selected(start as int, end as int, witnesses_of(known_primes)),
        decreases end - p,
    {
        let mut keep: bool = false;
        if p >= 2 {
            keep = match known_primes {
                Some(list) => passes_witnesses(p, list),
                None => divides_none(p),
            };
        }
        assert(keep == admitted(witnesses_of(known_primes), p as int));
        if keep {
            primes.push(p);
        }
        if p == end {
            break;
        }
        p = p + 1;
    }
    Ok(primes)
}

} // verus!
