//! The sequence in which returned records are merged.
//!
//! A store answers in whatever sequence it likes. Records are merged in the
//! sequence of the paths that were asked for, so that on a collision the
//! later path wins whichever way the answer was arranged. A record stands
//! at the place of the last path that names it, so a path that is listed
//! twice counts where it is listed last; records that share a place, and
//! those that no path names, which come last, keep the sequence in which the
//! store returned them.

use vstd::prelude::*;

verus! {

/// The place of `name` among the requested paths: the index of the last path
/// equal to it, or the number of paths when none is.
pub open spec fn path_rank(paths: Seq<Seq<char>>, name: Seq<char>) -> int {
    match paths.index_of_last(name) {
        Some(index) => index,
        None => paths.len() as int,
    }
}

/// The place of each name among the requested paths.
pub open spec fn name_ranks(paths: Seq<Seq<char>>, names: Seq<Seq<char>>) -> Seq<int> {
    Seq::new(names.len(), |j: int| path_rank(paths, names[j]))
}

/// The indices below `n` whose rank is `level`, ascending.
pub open spec fn ranked_at(ranks: Seq<int>, level: int, n: int) -> Seq<int>
    decreases n,
{
    if n <= 0 {
        Seq::empty()
    } else if ranks[n - 1] == level {
        ranked_at(ranks, level, n - 1).push(n - 1)
    } else {
        ranked_at(ranks, level, n - 1)
    }
}

/// The indices whose rank is below `levels`: by rank first, and within one
/// rank ascending.
pub open spec fn merge_order(ranks: Seq<int>, levels: int) -> Seq<int>
    decreases levels,
{
    if levels <= 0 {
        Seq::empty()
    } else {
        merge_order(ranks, levels - 1) + ranked_at(ranks, levels - 1, ranks.len() as int)
    }
}

/// The sequence in which the records called `names` are merged when `paths`
/// were asked for, as indices into `names`.
pub open spec fn record_order(paths: Seq<Seq<char>>, names: Seq<Seq<char>>) -> Seq<int> {
    merge_order(name_ranks(paths, names), paths.len() as int + 1)
}

/// Whether, under the given ranks, index `i` is merged before index `j`: its
/// rank is lower, or the ranks are equal and `i` is the lower index.
pub open spec fn merges_before(ranks: Seq<int>, i: int, j: int) -> bool {
    ranks[i] < ranks[j] || (ranks[i] == ranks[j] && i < j)
}

/// The rank of a name is a position among the paths or their number. In
/// the first case the path at that position is the name and no later path
/// is; in the second no path is the name.
pub proof fn lemma_path_rank(paths: Seq<Seq<char>>, name: Seq<char>)
    ensures
        0 <= path_rank(paths, name) <= paths.len(),
        path_rank(paths, name) < paths.len() ==> paths[path_rank(paths, name)] == name,
        path_rank(paths, name) < paths.len() <==> paths.contains(name),
        forall|j: int| path_rank(paths, name) < j < paths.len() ==> paths[j] != name,
        forall|j: int|
            0 <= j < paths.len() && path_rank(paths, name) == paths.len() ==> paths[j] != name,
{
    paths.index_of_last_ensures(name);
}

/// Two names that stand at the same place among the paths, and are named
/// by a path at all, are the same name.
pub proof fn lemma_path_rank_tells_names_apart(
    paths: Seq<Seq<char>>,
    one: Seq<char>,
    other: Seq<char>,
)
    requires
        paths.contains(one),
        path_rank(paths, one) == path_rank(paths, other),
    ensures
        one == other,
{
    lemma_path_rank(paths, one);
    lemma_path_rank(paths, other);
}

/// The indices that [`ranked_at`] gives are those below `n` with the rank
/// `level`, each of them, in ascending sequence.
pub proof fn lemma_ranked_at(ranks: Seq<int>, level: int, n: int)
    requires
        0 <= n <= ranks.len(),
    ensures
        forall|k: int|
            0 <= k < ranked_at(ranks, level, n).len() ==> {
                &&& 0 <= #[trigger] ranked_at(ranks, level, n)[k] < n
                &&& ranks[ranked_at(ranks, level, n)[k]] == level
            },
        forall|a: int, b: int|
            0 <= a < b < ranked_at(ranks, level, n).len() ==> ranked_at(ranks, level, n)[a]
                < ranked_at(ranks, level, n)[b],
        forall|j: int|
            0 <= j < n && ranks[j] == level ==> ranked_at(ranks, level, n).contains(j),
    decreases n,
{
    if n > 0 {
        lemma_ranked_at(ranks, level, n - 1);
        let front = ranked_at(ranks, level, n - 1);
        let whole = ranked_at(ranks, level, n);
        assert forall|j: int| 0 <= j < n && ranks[j] == level implies whole.contains(j) by {
            if j < n - 1 {
                assert(front.contains(j));
                let k = choose|k: int| 0 <= k < front.len() && front[k] == j;
                assert(whole[k] == j);
            } else {
                assert(whole[whole.len() - 1] == j);
            }
        }
    }
}

/// The merge sequence holds indices of ranks below `levels` only, holds each
/// of those, and is sorted by rank and, within one rank, by index. So no
/// index occurs twice.
pub proof fn lemma_merge_order(ranks: Seq<int>, levels: int)
    requires
        0 <= levels,
    ensures
        forall|k: int|
            0 <= k < merge_order(ranks, levels).len() ==> {
                &&& 0 <= #[trigger] merge_order(ranks, levels)[k] < ranks.len()
                &&& 0 <= ranks[merge_order(ranks, levels)[k]] < levels
            },
        forall|a: int, b: int|
            0 <= a < b < merge_order(ranks, levels).len() ==> merges_before(
                ranks,
                #[trigger] merge_order(ranks, levels)[a],
                #[trigger] merge_order(ranks, levels)[b],
            ),
        forall|j: int|
            0 <= j < ranks.len() && 0 <= ranks[j] < levels ==> merge_order(ranks, levels).contains(
                j,
            ),
    decreases levels,
{
    if levels > 0 {
        lemma_merge_order(ranks, levels - 1);
        lemma_ranked_at(ranks, levels - 1, ranks.len() as int);
        let front = merge_order(ranks, levels - 1);
        let added = ranked_at(ranks, levels - 1, ranks.len() as int);
        let whole = merge_order(ranks, levels);
        assert forall|k: int| 0 <= k < whole.len() implies {
            &&& 0 <= #[trigger] whole[k] < ranks.len()
            &&& 0 <= ranks[whole[k]] < levels
        } by {
            if k >= front.len() {
                assert(whole[k] == added[k - front.len()]);
            }
        }
        assert forall|a: int, b: int| 0 <= a < b < whole.len() implies merges_before(
            ranks,
            #[trigger] whole[a],
            #[trigger] whole[b],
        ) by {
            if b < front.len() {
            } else if a < front.len() {
                assert(whole[b] == added[b - front.len()]);
                assert(whole[a] == front[a]);
            } else {
                assert(whole[a] == added[a - front.len()]);
                assert(whole[b] == added[b - front.len()]);
            }
        }
        assert forall|j: int|
            0 <= j < ranks.len() && 0 <= ranks[j] < levels implies whole.contains(j) by {
            if ranks[j] < levels - 1 {
                assert(front.contains(j));
                let k = choose|k: int| 0 <= k < front.len() && front[k] == j;
                assert(whole[k] == j);
            } else {
                assert(added.contains(j));
                let k = choose|k: int| 0 <= k < added.len() && added[k] == j;
                assert(whole[front.len() + k] == j);
            }
        }
    }
}

/// Every record takes part in the merge exactly once: the merge sequence of
/// `names` under `paths` is a rearrangement of their indices. It follows the
/// paths: of two records, the one whose name stands earlier among the paths
/// is merged first, and of two with the same place the one returned first.
pub proof fn lemma_merge_order_rearranges(paths: Seq<Seq<char>>, names: Seq<Seq<char>>)
    ensures
        record_order(paths, names).len() == names.len(),
        record_order(paths, names).no_duplicates(),
        forall|j: int| 0 <= j < names.len() <==> record_order(paths, names).contains(j),
        is_rearrangement(record_order(paths, names), names.len()),
        forall|a: int, b: int|
            0 <= a < b < names.len() ==> merges_before(
                name_ranks(paths, names),
                #[trigger] record_order(paths, names)[a],
                #[trigger] record_order(paths, names)[b],
            ),
{
    let ranks = name_ranks(paths, names);
    let order = record_order(paths, names);
    lemma_merge_order(ranks, paths.len() as int + 1);
    assert forall|j: int| 0 <= j < names.len() implies order.contains(j) by {
        lemma_path_rank(paths, names[j]);
    }
    assert forall|j: int| order.contains(j) implies 0 <= j < names.len() by {
        let k = choose|k: int| 0 <= k < order.len() && order[k] == j;
        assert(0 <= order[k] < ranks.len());
    }
    assert forall|a: int, b: int| 0 <= a < order.len() && 0 <= b < order.len() && a
        != b implies order[a] != order[b] by {
        if a < b {
            assert(merges_before(ranks, order[a], order[b]));
        } else {
            assert(merges_before(ranks, order[b], order[a]));
        }
    }
    let all = Set::new(|j: int| 0 <= j < names.len());
    assert(order.to_set() =~= all);
    order.unique_seq_to_set();
    vstd::set_lib::lemma_int_range(0, names.len() as int);
    assert(all =~= vstd::set_lib::set_int_range(0, names.len() as int));
    assert forall|k: int| 0 <= k < names.len() implies 0 <= #[trigger] order[k]
        < names.len() by {
        assert(order.contains(order[k]));
    }
}

/// Names of which none occurs twice, each of them asked for, stand at places
/// of their own among the paths.
pub proof fn lemma_requested_names_stand_apart(paths: Seq<Seq<char>>, names: Seq<Seq<char>>)
    requires
        names.no_duplicates(),
        forall|i: int| 0 <= i < names.len() ==> paths.contains(#[trigger] names[i]),
    ensures
        name_ranks(paths, names).no_duplicates(),
{
    let ranks = name_ranks(paths, names);
    assert forall|i: int, j: int|
        0 <= i < ranks.len() && 0 <= j < ranks.len() && i != j implies ranks[i] != ranks[j] by {
        if ranks[i] == ranks[j] {
            assert(paths.contains(names[i]));
            lemma_path_rank_tells_names_apart(paths, names[i], names[j]);
        }
    }
}

/// Whether `arrangement` lists each index below `count` exactly once.
pub open spec fn is_rearrangement(arrangement: Seq<int>, count: nat) -> bool {
    &&& arrangement.len() == count
    &&& arrangement.no_duplicates()
    &&& forall|k: int| 0 <= k < count ==> 0 <= #[trigger] arrangement[k] < count
    &&& forall|j: int| 0 <= j < count ==> arrangement.contains(j)
}

/// Two sequences that hold the same indices, each in strictly rising rank,
/// are the same sequence: where no two records share a rank, the ranks alone
/// fix the sequence of the merge.
pub proof fn lemma_rising_ranks_fix_the_sequence(ranks: Seq<int>, one: Seq<int>, other: Seq<int>)
    requires
        one.len() == other.len(),
        forall|a: int, b: int|
            0 <= a < b < one.len() ==> ranks[#[trigger] one[a]] < ranks[#[trigger] one[b]],
        forall|a: int, b: int|
            0 <= a < b < other.len() ==> ranks[#[trigger] other[a]] < ranks[#[trigger] other[b]],
        forall|j: int| one.contains(j) <==> other.contains(j),
    ensures
        one == other,
    decreases one.len(),
{
    if one.len() > 0 {
        let last = one.len() - 1;
        assert(one.contains(one[last]));
        assert(other.contains(other[last]));
        let i = choose|i: int| 0 <= i < one.len() && one[i] == other[last];
        let j = choose|j: int| 0 <= j < other.len() && other[j] == one[last];
        if i < last {
            assert(ranks[one[i]] < ranks[one[last]]);
        }
        if j < last {
            assert(ranks[other[j]] < ranks[other[last]]);
        }
        assert(one[last] == other[last]);
        let one_front = one.drop_last();
        let other_front = other.drop_last();
        assert forall|x: int| one_front.contains(x) <==> other_front.contains(x) by {
            if one_front.contains(x) {
                let k = choose|k: int| 0 <= k < one_front.len() && one_front[k] == x;
                assert(one[k] == x);
                assert(ranks[one[k]] < ranks[one[last]]);
                assert(one.contains(x));
                let m = choose|m: int| 0 <= m < other.len() && other[m] == x;
                assert(m != last);
                assert(other_front[m] == x);
            }
            if other_front.contains(x) {
                let k = choose|k: int| 0 <= k < other_front.len() && other_front[k] == x;
                assert(other[k] == x);
                assert(ranks[other[k]] < ranks[other[last]]);
                assert(other.contains(x));
                let m = choose|m: int| 0 <= m < one.len() && one[m] == x;
                assert(m != last);
                assert(one_front[m] == x);
            }
        }
        assert forall|a: int, b: int| 0 <= a < b < one_front.len() implies ranks[
            #[trigger] one_front[a]] < ranks[#[trigger] one_front[b]] by {
            assert(ranks[one[a]] < ranks[one[b]]);
        }
        assert forall|a: int, b: int| 0 <= a < b < other_front.len() implies ranks[
            #[trigger] other_front[a]] < ranks[#[trigger] other_front[b]] by {
            assert(ranks[other[a]] < ranks[other[b]]);
        }
        lemma_rising_ranks_fix_the_sequence(ranks, one_front, other_front);
        assert(one =~= one_front.push(one[last]));
        assert(other =~= other_front.push(other[last]));
    } else {
        assert(one =~= other);
    }
}

/// Finds the place of `name` among the requested paths.
pub fn rank_of(paths: &Vec<String>, name: &String) -> (rank: usize)
    ensures
        rank == path_rank(paths.deep_view(), name@),
{
    let mut i: usize = paths.len();
    while i > 0
        invariant
            i <= paths.len(),
            forall|j: int| i <= j < paths.len() ==> paths.deep_view()[j] != name@,
        decreases i,
    {
        i -= 1;
        if paths[i] == *name {
            proof {
                lemma_path_rank(paths.deep_view(), name@);
                assert(paths.deep_view()[i as int] == name@);
            }
            return i;
        }
    }
    proof {
        lemma_path_rank(paths.deep_view(), name@);
    }
    paths.len()
}

/// The indices in a sequence of machine integers, as mathematical ones.
pub open spec fn indices(order: Seq<usize>) -> Seq<int> {
    Seq::new(order.len(), |k: int| order[k] as int)
}

/// Arranges the records called `names` for merging: returns their indices,
/// by the place of each name among `paths` and, within one place, ascending.
pub fn merge_order_of(paths: &Vec<String>, names: &Vec<String>) -> (order: Vec<usize>)
    ensures
        indices(order@) == record_order(paths.deep_view(), names.deep_view()),
{
    let ghost want = name_ranks(paths.deep_view(), names.deep_view());
    let mut ranks: Vec<usize> = Vec::new();
    let mut j: usize = 0;
    while j < names.len()
        invariant
            j <= names.len(),
            ranks.len() == j,
            want == name_ranks(paths.deep_view(), names.deep_view()),
            forall|k: int| 0 <= k < j ==> ranks[k] as int == want[k],
        decreases names.len() - j,
    {
        let rank = rank_of(paths, &names[j]);
        ranks.push(rank);
        j += 1;
    }
    assert(indices(ranks@) =~= want);
    let mut order: Vec<usize> = Vec::new();
    let mut level: usize = 0;
    assert(indices(order@) =~= merge_order(want, 0));
    loop
        invariant_except_break
            level <= paths.len(),
            indices(order@) == merge_order(want, level as int),
        invariant
            indices(ranks@) == want,
        ensures
            indices(order@) == merge_order(want, paths.len() + 1),
        decreases paths.len() - level,
    {
        let ghost done = indices(order@);
        let mut j: usize = 0;
        assert(indices(order@) =~= done + ranked_at(want, level as int, 0));
        while j < ranks.len()
            invariant
                j <= ranks.len(),
                indices(ranks@) == want,
                indices(order@) == done + ranked_at(want, level as int, j as int),
            decreases ranks.len() - j,
        {
            let ghost before = indices(order@);
            assert(want[j as int] == ranks[j as int] as int);
            if ranks[j] == level {
                order.push(j);
                assert(indices(order@) =~= before.push(j as int));
                assert(indices(order@) =~= done + ranked_at(want, level as int, j + 1));
            }
            j += 1;
        }
        assert(indices(order@) == merge_order(want, level + 1));
        if level == paths.len() {
            break ;
        }
        level += 1;
    }
    order
}

} // verus!
