//! Longest increasing subsequences by patience sorting.

use vstd::prelude::*;

verus! {

/// Whether `seq` never decreases from left to right.
pub open spec fn is_sorted(seq: Seq<isize>) -> bool {
    forall|a: int, b: int| 0 <= a <= b < seq.len() ==> seq[a] <= seq[b]
}

/// Binary search by value: the index just left of the first element above `n`.
///
/// The value at the result, if there is one, is at most `n`, and the value just
/// right of it, if there is one, is above `n`. On a sorted slice that makes the
/// result the greatest index whose value is at most `n`, or -1 where every
/// value is above `n`.
pub fn find_greatest_index_leq(seq: &[isize], n: isize) -> (lo: isize)
    requires
        seq@.len() <= isize::MAX,
    ensures
        -1 <= lo < seq@.len(),
        lo >= 0 ==> seq@[lo as int] <= n,
        lo + 1 < seq@.len() ==> seq@[lo + 1] > n,
        is_sorted(seq@) ==> forall|k: int|
            0 <= k < seq@.len() ==> (#[trigger] seq@[k] <= n <==> k <= lo),
{
    let len: usize = seq.len();
    if len > 0 && seq[len - 1] <= n {
        return (len - 1) as isize;
    }
    let mut lo: isize = -1;
    let mut hi: isize = len as isize;
    while lo + 1 < hi
        invariant
            len == seq@.len(),
            len <= isize::MAX,
            -1 <= lo < hi <= len,
            lo >= 0 ==> seq@[lo as int] <= n,
            hi < len ==> seq@[hi as int] > n,
            hi == len ==> (len == 0 || seq@[len - 1] > n),
        decreases hi - lo,
    {
        let mid: isize = lo + 1 + (hi - (lo + 1)) / 2;
        if seq[mid as usize] > n {
            hi = mid;
        } else {
            lo = mid;
        }
    }
    lo
}

/// The indices that a result of [`longest_positive_increasing_subsequence`] holds.
pub open spec fn as_indices(seq: Seq<isize>) -> Seq<int> {
    seq.map_values(|x: isize| x as int)
}

/// Whether `run` lists indices of `positions`, each at least `start` and below
/// `end`, in rising order, at which the values are not negative and strictly
/// rise.
pub open spec fn is_increasing_run(positions: Seq<isize>, start: int, end: int, run: Seq<int>) -> bool {
    &&& forall|k: int|
        0 <= k < run.len() ==> start <= #[trigger] run[k] < end && positions[run[k]] >= 0
    &&& forall|a: int, b: int|
        0 <= a < b < run.len() ==> run[a] < run[b] && positions[run[a]] < positions[run[b]]
}

/// The length of the longest run that ends at index `at`: nothing where `at`
/// lies before `start` or the value there is negative, and else one more than
/// the length of the longest run that ends before `at` on a smaller value.
pub open spec fn longest_to(positions: Seq<isize>, start: int, at: int) -> int
    decreases at, 1int,
{
    if at < 0 || at < start || at >= positions.len() || positions[at] < 0 {
        0
    } else {
        1 + longest_below(positions, start, positions[at] as int, at)
    }
}

/// The length of the longest run that ends before index `upto` on a value
/// below `value`.
pub open spec fn longest_below(positions: Seq<isize>, start: int, value: int, upto: int) -> int
    decreases upto, 0int,
{
    if upto <= 0 || upto <= start {
        0
    } else {
        let rest = longest_below(positions, start, value, upto - 1);
        let here = longest_to(positions, start, upto - 1);
        if positions[upto - 1] < value && here > rest {
            here
        } else {
            rest
        }
    }
}

/// Whether the element at `at` is the first of those with the least value
/// among the elements before `bound` at which the longest run has the length
/// `length`.
pub open spec fn first_lowest(positions: Seq<isize>, start: int, at: int, length: int, bound: int) -> bool {
    &&& longest_to(positions, start, at) == length
    &&& forall|x: int|
        start <= x < bound && x != at && #[trigger] longest_to(positions, start, x) == length ==> if x < at {
            positions[x] > positions[at]
        } else {
            positions[x] >= positions[at]
        }
}

/// What the links say of one element: `rank[x]` is the length of the run that
/// the links in `pre` spell out backwards from `x`, or 0 where `x` ends none.
spec fn link_ok(positions: Seq<isize>, start: int, seen: int, pre: Seq<isize>, rank: Seq<int>, x: int) -> bool {
    &&& rank[x] >= 0
    &&& rank[x] >= 1 ==> start <= x < seen && positions[x] >= 0
    &&& rank[x] == 1 ==> pre[x] == -1
    &&& rank[x] > 1 ==> {
        &&& start <= pre[x] < x
        &&& rank[pre[x] as int] == rank[x] - 1
        &&& positions[pre[x] as int] < positions[x]
        &&& first_lowest(positions, start, pre[x] as int, rank[x] - 1, x)
    }
    &&& rank[x] >= 1 ==> longest_to(positions, start, x) == rank[x]
}

spec fn links_ok(positions: Seq<isize>, start: int, seen: int, pre: Seq<isize>, rank: Seq<int>) -> bool {
    &&& pre.len() == positions.len()
    &&& rank.len() == positions.len()
    &&& forall|x: int| 0 <= x < rank.len() ==> #[trigger] link_ok(positions, start, seen, pre, rank, x)
}

/// The piles themselves: pile `k` is topped by the element at `ends[k]`, whose
/// value is `tails[k]` and which ends a run of length `k + 1`.
spec fn piles_ok(
    positions: Seq<isize>,
    start: int,
    seen: int,
    tails: Seq<isize>,
    ends: Seq<usize>,
    rank: Seq<int>,
) -> bool {
    &&& tails.len() == ends.len()
    &&& forall|k: int|
        0 <= k < tails.len() ==> {
            &&& start <= #[trigger] ends[k] < seen
            &&& ends[k] < positions.len()
            &&& positions[ends[k] as int] == tails[k]
            &&& rank[ends[k] as int] == k + 1
        }
    &&& forall|a: int, b: int| 0 <= a < b < tails.len() ==> tails[a] < tails[b]
}

/// No run among the elements seen so far is longer than there are piles, and
/// none of a given length ends on a smaller value than its pile's top.
spec fn piles_least(positions: Seq<isize>, start: int, seen: int, tails: Seq<isize>) -> bool {
    forall|run: Seq<int>|
        #[trigger] is_increasing_run(positions, start, seen, run) && run.len() > 0 ==> {
            &&& run.len() <= tails.len()
            &&& tails[run.len() - 1] <= positions[run.last()]
        }
}

/// Each pile is topped by the first of the lowest elements seen that end a
/// run of the pile's length, and no element seen ends a longer run than there
/// are piles.
spec fn piles_first(positions: Seq<isize>, start: int, seen: int, tails: Seq<isize>, ends: Seq<usize>) -> bool {
    &&& forall|k: int| 0 <= k < ends.len() ==> first_lowest(positions, start, #[trigger] ends[k] as int, k + 1, seen)
    &&& forall|x: int| start <= x < seen ==> #[trigger] longest_to(positions, start, x) <= tails.len()
}

proof fn lemma_below_at_most(positions: Seq<isize>, start: int, value: int, upto: int, most: int)
    requires
        most >= 0,
        forall|x: int|
            start <= x < upto && 0 <= x && positions[x] < value ==> #[trigger] longest_to(positions, start, x)
                <= most,
    ensures
        0 <= longest_below(positions, start, value, upto) <= most,
    decreases upto,
{
    if upto > 0 && upto > start {
        lemma_below_at_most(positions, start, value, upto - 1, most);
        lemma_longest_to_bounds(positions, start, upto - 1);
    }
}

proof fn lemma_longest_to_bounds(positions: Seq<isize>, start: int, at: int)
    ensures
        0 <= longest_to(positions, start, at),
        longest_to(positions, start, at) >= 1 <==> 0 <= at && start <= at < positions.len() && positions[at] >= 0,
    decreases at, 1int,
{
    if !(at < 0 || at < start || at >= positions.len() || positions[at] < 0) {
        lemma_longest_below_bounds(positions, start, positions[at] as int, at);
    }
}

proof fn lemma_longest_below_bounds(positions: Seq<isize>, start: int, value: int, upto: int)
    ensures
        0 <= longest_below(positions, start, value, upto),
    decreases upto, 0int,
{
    if upto > 0 && upto > start {
        lemma_longest_below_bounds(positions, start, value, upto - 1);
        lemma_longest_to_bounds(positions, start, upto - 1);
    }
}

proof fn lemma_below_at_least(positions: Seq<isize>, start: int, value: int, upto: int, y: int)
    requires
        0 <= y,
        start <= y < upto,
        positions[y] < value,
    ensures
        longest_below(positions, start, value, upto) >= longest_to(positions, start, y),
    decreases upto,
{
    if y < upto - 1 {
        lemma_below_at_least(positions, start, value, upto - 1, y);
    } else {
        lemma_longest_below_bounds(positions, start, value, upto - 1);
    }
}

/// The longest run to a new element is one longer than there are piles with
/// a lower top.
proof fn lemma_height(
    positions: Seq<isize>,
    start: int,
    seen: int,
    tails: Seq<isize>,
    ends: Seq<usize>,
    rank: Seq<int>,
    lower: int,
)
    requires
        0 <= start <= seen < positions.len(),
        positions[seen] >= 0,
        piles_ok(positions, start, seen, tails, ends, rank),
        piles_first(positions, start, seen, tails, ends),
        0 <= lower <= tails.len(),
        forall|k: int| 0 <= k < tails.len() ==> (#[trigger] tails[k] < positions[seen] <==> k < lower),
    ensures
        longest_to(positions, start, seen) == lower + 1,
{
    let n = positions[seen] as int;
    assert forall|x: int| start <= x < seen && 0 <= x && positions[x] < n implies #[trigger] longest_to(
        positions,
        start,
        x,
    ) <= lower by {
        let r = longest_to(positions, start, x);
        lemma_longest_to_bounds(positions, start, x);
        if r >= 1 {
            assert(r <= tails.len());
            let top = ends[r - 1] as int;
            assert(first_lowest(positions, start, top, r, seen));
            assert(positions[top] == tails[r - 1]);
            assert(tails[r - 1] <= positions[x]);
            assert(tails[r - 1] < positions[seen]);
        }
    }
    lemma_below_at_most(positions, start, n, seen, lower);
    if lower >= 1 {
        let top = ends[lower - 1] as int;
        assert(first_lowest(positions, start, top, lower, seen));
        assert(positions[top] == tails[lower - 1]);
        lemma_below_at_least(positions, start, n, seen, top);
    }
}

proof fn lemma_run_widens(positions: Seq<isize>, start: int, end: int, wider: int, run: Seq<int>)
    requires
        is_increasing_run(positions, start, end, run),
        end <= wider,
    ensures
        is_increasing_run(positions, start, wider, run),
{
}

proof fn lemma_piles_least_skip(positions: Seq<isize>, start: int, seen: int, tails: Seq<isize>)
    requires
        0 <= seen < positions.len(),
        positions[seen] < 0,
        piles_least(positions, start, seen, tails),
    ensures
        piles_least(positions, start, seen + 1, tails),
{
    assert forall|run: Seq<int>|
        #[trigger] is_increasing_run(positions, start, seen + 1, run) && run.len() > 0 implies {
        &&& run.len() <= tails.len()
        &&& tails[run.len() - 1] <= positions[run.last()]
    } by {
        assert forall|k: int| 0 <= k < run.len() implies #[trigger] run[k] < seen by {
            assert(positions[run[k]] >= 0);
        }
        assert(is_increasing_run(positions, start, seen, run));
    }
}

proof fn lemma_piles_least_step(
    positions: Seq<isize>,
    start: int,
    seen: int,
    tails: Seq<isize>,
    after: Seq<isize>,
    j: int,
)
    requires
        0 <= seen < positions.len(),
        positions[seen] >= 0,
        piles_least(positions, start, seen, tails),
        forall|a: int, b: int| 0 <= a < b < tails.len() ==> tails[a] < tails[b],
        -1 <= j < tails.len(),
        forall|k: int| 0 <= k < tails.len() ==> (#[trigger] tails[k] <= positions[seen] <==> k <= j),
        // a tie keeps the piles as they are; otherwise the element tops pile `j + 1`
        j >= 0 && tails[j] == positions[seen] ==> after == tails,
        !(j >= 0 && tails[j] == positions[seen]) ==> {
            &&& j + 1 == tails.len() ==> after == tails.push(positions[seen])
            &&& j + 1 < tails.len() ==> after == tails.update(j + 1, positions[seen])
        },
    ensures
        piles_least(positions, start, seen + 1, after),
{
    let n = positions[seen];
    assert forall|run: Seq<int>|
        #[trigger] is_increasing_run(positions, start, seen + 1, run) && run.len() > 0 implies {
        &&& run.len() <= after.len()
        &&& after[run.len() - 1] <= positions[run.last()]
    } by {
        let m = run.len() as int;
        if run.last() < seen {
            assert forall|k: int| 0 <= k < m implies #[trigger] run[k] < seen by {
                if k < m - 1 {
                    assert(run[k] < run[m - 1]);
                }
            }
            assert(is_increasing_run(positions, start, seen, run));
            assert(tails[m - 1] <= positions[run.last()]);
        } else {
            assert(run[m - 1] == seen);
            let head = run.drop_last();
            if m > 1 {
                assert forall|k: int| 0 <= k < head.len() implies start <= #[trigger] head[k] < seen
                    && positions[head[k]] >= 0 by {
                    assert(head[k] == run[k]);
                    assert(run[k] < run[m - 1]);
                }
                assert forall|a: int, b: int| 0 <= a < b < head.len() implies head[a] < head[b]
                    && positions[head[a]] < positions[head[b]] by {
                    assert(head[a] == run[a] && head[b] == run[b]);
                }
                assert(is_increasing_run(positions, start, seen, head));
                assert(head.last() == run[m - 2]);
                assert(positions[run[m - 2]] < positions[run[m - 1]]);
                assert(tails[m - 2] <= positions[head.last()]);
                assert(tails[m - 2] <= n);
                assert(m - 2 <= j);
                if j >= 0 && tails[j] == n {
                    assert(tails[m - 2] < tails[j]);
                    if m - 2 == j {
                        assert(false);
                    }
                }
            }
        }
    }
}

/// The indices of a longest strictly increasing subsequence of the values of
/// `positions` that are not negative, looked for from index `new_start` on.
///
/// The result lists indices in rising order at which the values rise, and no
/// such list is longer. Negative values stand for "no position" and are passed
/// over. Of the longest lists it is this one: its last member is the first of
/// the lowest elements that end a run of the full length, and each member
/// before is the first of the lowest elements that end a run of its length
/// before the member that follows it. So of two elements with one value that
/// could stand at one place the earlier stands there.
pub fn longest_positive_increasing_subsequence(positions: &[isize], new_start: usize) -> (seq: Vec<
    isize,
>)
    requires
        positions@.len() <= isize::MAX,
    ensures
        is_increasing_run(positions@, new_start as int, positions@.len() as int, as_indices(seq@)),
        forall|other: Seq<int>| #[trigger]
            is_increasing_run(positions@, new_start as int, positions@.len() as int, other)
                ==> other.len() <= seq@.len(),
        forall|k: int|
            0 <= k < seq@.len() ==> first_lowest(
                positions@,
                new_start as int,
                #[trigger] seq@[k] as int,
                k + 1,
                if k + 1 < seq@.len() {
                    seq@[k + 1] as int
                } else {
                    positions@.len() as int
                },
            ),
{
    let len: usize = positions.len();
    let mut tails: Vec<isize> = Vec::new();
    let mut ends: Vec<usize> = Vec::new();
    let mut pre: Vec<isize> = Vec::new();
    while pre.len() < len
        invariant
            pre.len() <= len,
            forall|x: int| 0 <= x < pre.len() ==> pre[x] == -1,
        decreases len - pre.len(),
    {
        pre.push(-1);
    }
    let ghost mut rank: Seq<int> = Seq::new(len as nat, |x: int| 0int);
    let ghost start = new_start as int;
    let mut i: usize = new_start;
    proof {
        assert forall|run: Seq<int>|
            #[trigger] is_increasing_run(positions@, start, i as int, run) && run.len() > 0 implies {
            &&& run.len() <= tails@.len()
            &&& tails@[run.len() - 1] <= positions@[run.last()]
        } by {
            assert(start <= run[0] < i);
        }
    }
    while i < len
        invariant
            len == positions@.len(),
            len <= isize::MAX,
            start == new_start,
            new_start <= i,
            tails.len() + new_start <= i,
            links_ok(positions@, start, i as int, pre@, rank),
            piles_ok(positions@, start, i as int, tails@, ends@, rank),
            piles_least(positions@, start, i as int, tails@),
            piles_first(positions@, start, i as int, tails@, ends@),
        decreases len - i,
    {
        let n: isize = positions[i];
        if n < 0 {
            proof {
                lemma_piles_least_skip(positions@, start, i as int, tails@);
                assert(longest_to(positions@, start, i as int) == 0);
                assert forall|x: int| 0 <= x < rank.len() implies #[trigger] link_ok(
                    positions@,
                    start,
                    i + 1,
                    pre@,
                    rank,
                    x,
                ) by {
                    assert(link_ok(positions@, start, i as int, pre@, rank, x));
                }
            }
        } else {
            let ghost links = pre@;
            let ghost ranks = rank;
            let ghost before = tails@;
            let ghost tops = ends@;
            assert(is_sorted(tails@));
            let j: isize = find_greatest_index_leq(tails.as_slice(), n);
            if j >= 0 && tails[j as usize] == n {
                proof {
                    lemma_piles_least_step(positions@, start, i as int, before, tails@, j as int);
                    lemma_height(positions@, start, i as int, tails@, ends@, rank, j as int);
                    assert(first_lowest(positions@, start, ends@[j as int] as int, j + 1, i as int));
                    assert forall|x: int| 0 <= x < rank.len() implies #[trigger] link_ok(
                        positions@,
                        start,
                        i + 1,
                        pre@,
                        rank,
                        x,
                    ) by {
                        assert(link_ok(positions@, start, i as int, pre@, rank, x));
                    }
                }
            } else {
                let link: isize = if j >= 0 {
                    ends[j as usize] as isize
                } else {
                    -1
                };
                pre.set(i, link);
                let pile: usize = (j + 1) as usize;
                if pile == tails.len() {
                    tails.push(n);
                    ends.push(i);
                } else {
                    tails.set(pile, n);
                    ends.set(pile, i);
                }
                proof {
                    rank = rank.update(i as int, pile + 1);
                    lemma_piles_least_step(positions@, start, i as int, before, tails@, j as int);
                    lemma_height(positions@, start, i as int, before, tops, ranks, j + 1);
                    if j >= 0 {
                        assert(first_lowest(positions@, start, tops[j as int] as int, j + 1, i as int));
                    }
                    if pile < before.len() {
                        assert(first_lowest(positions@, start, tops[pile as int] as int, pile + 1, i as int));
                    }
                    assert forall|k: int| 0 <= k < ends@.len() implies first_lowest(
                        positions@,
                        start,
                        #[trigger] ends@[k] as int,
                        k + 1,
                        i + 1,
                    ) by {
                        if k != pile {
                            assert(ends@[k] == tops[k]);
                            assert(first_lowest(positions@, start, tops[k] as int, k + 1, i as int));
                        }
                    }
                    assert(ranks[i as int] == 0) by {
                        assert(link_ok(positions@, start, i as int, links, ranks, i as int));
                    }
                    assert forall|x: int| 0 <= x < rank.len() implies #[trigger] link_ok(
                        positions@,
                        start,
                        i + 1,
                        pre@,
                        rank,
                        x,
                    ) by {
                        assert(link_ok(positions@, start, i as int, links, ranks, x));
                        if x != i && ranks[x] > 1 {
                            assert(links[x] < x);
                        }
                    }
                }
            }
        }
        i += 1;
    }
    let count: usize = tails.len();
    let mut seq: Vec<isize> = Vec::new();
    if count == 0 {
        proof {
            assert(as_indices(seq@).len() == 0);
            assert forall|other: Seq<int>| #[trigger]
                is_increasing_run(positions@, start, len as int, other) implies other.len() <= 0 by {
                if other.len() > 0 {
                    lemma_run_widens(positions@, start, len as int, i as int, other);
                    assert(other.len() <= tails@.len());
                }
            }
        }
        return seq;
    }
    while seq.len() < count
        invariant
            seq.len() <= count,
        decreases count - seq.len(),
    {
        seq.push(0);
    }
    let mut k: usize = count;
    let mut cur: usize = ends[count - 1];
    proof {
        assert(first_lowest(positions@, start, ends@[count - 1] as int, count as int, i as int));
    }
    while k > 0
        invariant
            len == positions@.len(),
            len <= isize::MAX,
            start == new_start,
            count == tails@.len(),
            seq.len() == count,
            k <= count,
            links_ok(positions@, start, i as int, pre@, rank),
            k > 0 ==> cur < len && rank[cur as int] == k,
            forall|a: int| k <= a < count ==> 0 <= #[trigger] seq@[a] < len && rank[seq@[a] as int] == a + 1,
            forall|a: int, b: int|
                k <= a < b < count ==> seq@[a] < seq@[b] && positions@[seq@[a] as int]
                    < positions@[seq@[b] as int],
            0 < k < count ==> cur < seq@[k as int] && positions@[cur as int] < positions@[seq@[k as int] as int],
            0 < k ==> first_lowest(
                positions@,
                start,
                cur as int,
                k as int,
                if k < count {
                    seq@[k as int] as int
                } else {
                    len as int
                },
            ),
            forall|a: int|
                k <= a < count ==> first_lowest(
                    positions@,
                    start,
                    #[trigger] seq@[a] as int,
                    a + 1,
                    if a + 1 < count {
                        seq@[a + 1] as int
                    } else {
                        len as int
                    },
                ),
        decreases k,
    {
        assert(link_ok(positions@, start, i as int, pre@, rank, cur as int));
        let ghost chosen = seq@;
        k -= 1;
        seq.set(k, cur as isize);
        proof {
            assert forall|a: int| k <= a < count implies first_lowest(
                positions@,
                start,
                #[trigger] seq@[a] as int,
                a + 1,
                if a + 1 < count {
                    seq@[a + 1] as int
                } else {
                    len as int
                },
            ) by {
                if a > k {
                    assert(seq@[a] == chosen[a]);
                    assert(first_lowest(
                        positions@,
                        start,
                        chosen[a] as int,
                        a + 1,
                        if a + 1 < count {
                            chosen[a + 1] as int
                        } else {
                            len as int
                        },
                    ));
                }
            }
        }
        if k > 0 {
            cur = pre[cur] as usize;
        }
    }
    proof {
        let run = as_indices(seq@);
        assert forall|a: int| 0 <= a < run.len() implies start <= #[trigger] run[a] < len
            && positions@[run[a]] >= 0 by {
            assert(run[a] == seq@[a]);
            assert(link_ok(positions@, start, i as int, pre@, rank, run[a]));
        }
        assert forall|a: int, b: int| 0 <= a < b < run.len() implies run[a] < run[b]
            && positions@[run[a]] < positions@[run[b]] by {
            assert(run[a] == seq@[a] && run[b] == seq@[b]);
        }
        assert forall|other: Seq<int>| #[trigger]
            is_increasing_run(positions@, start, len as int, other) implies other.len() <= seq@.len() by {
            if other.len() > 0 {
                lemma_run_widens(positions@, start, len as int, i as int, other);
                assert(other.len() <= tails@.len());
            }
        }
    }
    seq
}

} // verus!
