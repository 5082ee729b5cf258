//! Decisions the driver takes on the lints that pattern matching collects:
//! in which order they are emitted, and at which lint root each is reported.
use vstd::prelude::*;

verus! {

/// Sort key of a pending lint: the local definition index of the function it
/// points at, then the position of the pattern item in its pattern.
pub open spec fn key_lt(a: (u32, usize), b: (u32, usize)) -> bool {
    a.0 < b.0 || (a.0 == b.0 && a.1 < b.1)
}

/// Pending lint `i` is emitted before pending lint `j`: its key is smaller,
/// or the keys are equal and it was collected first (the sort is stable).
pub open spec fn emitted_before(keys: Seq<(u32, usize)>, i: int, j: int) -> bool {
    key_lt(keys[i], keys[j]) || (keys[i] == keys[j] && i < j)
}

/// `a` sorts no later than `b`.
fn key_le(a: (u32, usize), b: (u32, usize)) -> (r: bool)
    ensures
        r == !key_lt(b, a),
{
    a.0 < b.0 || (a.0 == b.0 && a.1 <= b.1)
}

/// The order in which pending lints are emitted, given the sort key of each
/// one in the order they were collected: a stable sort by key. The result
/// lists every index of `keys` once.
pub fn lint_emission_order(keys: &Vec<(u32, usize)>) -> (order: Vec<usize>)
    ensures
        order.len() == keys.len(),
        forall|i: int| 0 <= i < order.len() ==> #[trigger] order@[i] < keys.len(),
        forall|m: usize| m < keys.len() ==> #[trigger] order@.contains(m),
        forall|i: int, j: int|
            0 <= i < j < order.len() ==> emitted_before(
                keys@,
                #[trigger] order@[i] as int,
                #[trigger] order@[j] as int,
            ),
        // Plain lexicographic order on (def index, pattern item index), ties
        // kept in collection order.
        forall|i: int, j: int|
            #![trigger order@[i], order@[j]]
            0 <= i < j < order.len() ==> {
                ||| keys@[order@[i] as int].0 < keys@[order@[j] as int].0
                ||| keys@[order@[i] as int].0 == keys@[order@[j] as int].0
                    && keys@[order@[i] as int].1 < keys@[order@[j] as int].1
                ||| keys@[order@[i] as int] == keys@[order@[j] as int] && order@[i] < order@[j]
            },
        // A lint with a smaller key is emitted before one with a larger key.
        forall|p: int, q: int|
            #![trigger order@[p], order@[q]]
            0 <= p < order.len() && 0 <= q < order.len() && (keys@[order@[p] as int].0
                < keys@[order@[q] as int].0 || (keys@[order@[p] as int].0
                == keys@[order@[q] as int].0 && keys@[order@[p] as int].1
                < keys@[order@[q] as int].1)) ==> p < q,
{
    let n = keys.len();
    let mut order: Vec<usize> = Vec::new();
    let mut m: usize = 0;
    while m < n
        invariant
            m <= n,
            n == keys.len(),
            order.len() == m,
            forall|i: int| 0 <= i < order.len() ==> #[trigger] order@[i] < m,
            forall|x: usize| x < m ==> #[trigger] order@.contains(x),
            forall|i: int, j: int|
                0 <= i < j < order.len() ==> emitted_before(
                    keys@,
                    #[trigger] order@[i] as int,
                    #[trigger] order@[j] as int,
                ),
        decreases n - m,
    {
        let key = keys[m];
        let mut pos: usize = 0;
        while pos < order.len() && key_le(keys[order[pos]], key)
            invariant
                pos <= order.len(),
                m < n,
                n == keys.len(),
                key == keys@[m as int],
                order.len() == m,
                forall|i: int| 0 <= i < order.len() ==> #[trigger] order@[i] < m,
                forall|q: int| 0 <= q < pos ==> emitted_before(keys@, #[trigger] order@[q] as int, m as int),
            decreases order.len() - pos,
        {
            pos = pos + 1;
        }
        let ghost old_order = order@;
        proof {
            if pos < old_order.len() {
                assert(emitted_before(keys@, m as int, old_order[pos as int] as int));
            }
            assert forall|q: int| pos <= q < old_order.len() implies emitted_before(
                keys@,
                m as int,
                #[trigger] old_order[q] as int,
            ) by {
                if q > pos {
                    assert(emitted_before(keys@, old_order[pos as int] as int, old_order[q] as int));
                }
            }
        }
        order.insert(pos, m);
        proof {
            let new_order = order@;
            assert(new_order == old_order.insert(pos as int, m));
            assert forall|i: int| 0 <= i < new_order.len() implies #[trigger] new_order[i] < m + 1 by {
                if i < pos {
                    assert(new_order[i] == old_order[i]);
                } else if i > pos {
                    assert(new_order[i] == old_order[i - 1]);
                }
            }
            assert forall|x: usize| x < m + 1 implies #[trigger] new_order.contains(x) by {
                if x == m {
                    assert(new_order[pos as int] == m);
                } else {
                    assert(old_order.contains(x));
                    let i = choose|i: int| 0 <= i < old_order.len() && old_order[i] == x;
                    if i < pos {
                        assert(new_order[i] == old_order[i]);
                    } else {
                        assert(new_order[i + 1] == old_order[i]);
                    }
                }
            }
            assert forall|i: int, j: int| 0 <= i < j < new_order.len() implies emitted_before(
                keys@,
                #[trigger] new_order[i] as int,
                #[trigger] new_order[j] as int,
            ) by {
                if j < pos {
                    assert(new_order[i] == old_order[i] && new_order[j] == old_order[j]);
                } else if j == pos {
                    assert(new_order[i] == old_order[i]);
                } else if i < pos {
                    assert(new_order[i] == old_order[i] && new_order[j] == old_order[j - 1]);
                } else if i == pos {
                    assert(new_order[j] == old_order[j - 1]);
                } else {
                    assert(new_order[i] == old_order[i - 1] && new_order[j] == old_order[j - 1]);
                }
            }
        }
        m = m + 1;
    }
    order
}

/// The lint root chosen among the roots that the primary labels resolve to,
/// in label order: the last label that resolves wins, and the function's own
/// root stands when none does.
pub open spec fn preferred_root<T>(roots: Seq<Option<T>>, fallback: T) -> T
    decreases roots.len(),
{
    if roots.len() == 0 {
        fallback
    } else {
        match roots.last() {
            Some(r) => r,
            None => preferred_root(roots.drop_last(), fallback),
        }
    }
}

/// Picks the lint root for a match: primary labels are preferred from last
/// to first, so that a nested `#[allow]` on a later label takes effect, and
/// the function's own root is used when no label resolves to one.
pub fn preferred_lint_root<T: Copy>(roots: &Vec<Option<T>>, fallback: T) -> (root: T)
    ensures
        root == preferred_root(roots@, fallback),
        // The last label that resolves gives the root.
        forall|k: int|
            0 <= k < roots.len() && #[trigger] roots@[k] is Some && (forall|j: int|
                k < j < roots.len() ==> roots@[j] is None) ==> root == roots@[k]->0,
        // No label resolves: the function's own root.
        (forall|j: int| 0 <= j < roots.len() ==> roots@[j] is None) ==> root == fallback,
{
    let mut k = roots.len();
    proof {
        assert(roots@.take(k as int) =~= roots@);
    }
    while k > 0
        invariant
            k <= roots.len(),
            preferred_root(roots@, fallback) == preferred_root(roots@.take(k as int), fallback),
            forall|j: int| k <= j < roots.len() ==> roots@[j] is None,
        decreases k,
    {
        proof {
            assert(roots@.take(k as int).drop_last() =~= roots@.take(k - 1));
        }
        k = k - 1;
        if let Some(r) = roots[k] {
            return r;
        }
    }
    proof {
        assert(roots@.take(0) =~= Seq::<Option<T>>::empty());
    }
    fallback
}

/// Some already kept lint has the same key as the lint whose comparisons are
/// `row` (`row[j]`: same key as lint `j`; a missing entry counts as `false`).
pub open spec fn same_as_kept(row: Seq<bool>, kept: Seq<usize>) -> bool {
    exists|k: int| 0 <= k < kept.len() && kept[k] < row.len() && #[trigger] row[kept[k] as int]
}

/// The lints kept among the first `n`, in order: a lint is kept when no lint
/// kept before it has the same key, so the first occurrence of each key stays.
pub open spec fn first_occurrences(same_key: Seq<Seq<bool>>, n: nat) -> Seq<usize>
    decreases n,
{
    if n == 0 {
        Seq::empty()
    } else {
        let prev = first_occurrences(same_key, (n - 1) as nat);
        if same_as_kept(same_key[n - 1], prev) {
            prev
        } else {
            prev.push((n - 1) as usize)
        }
    }
}

/// Drops every pending lint whose key equals that of a lint kept before it,
/// and returns the indices of the kept ones in order. `same_key[i][j]` tells
/// whether lint `i` has the same key as lint `j` (only `j < i` is consulted).
pub fn dedupe_first_occurrences(same_key: &Vec<Vec<bool>>) -> (kept: Vec<usize>)
    ensures
        kept@ == first_occurrences(deep_rows(same_key@), same_key.len() as nat),
        // Kept indices are in range and strictly increasing.
        forall|k: int| 0 <= k < kept.len() ==> #[trigger] kept@[k] < same_key.len(),
        forall|k1: int, k2: int|
            0 <= k1 < k2 < kept.len() ==> #[trigger] kept@[k1] < #[trigger] kept@[k2],
        // Lint `i` is kept exactly when no kept lint before it has the same key.
        forall|i: usize|
            i < same_key.len() ==> (#[trigger] kept@.contains(i) <==> !exists|j: usize|
                #![trigger same_key@[i as int]@[j as int]]
                j < i && kept@.contains(j) && j < same_key@[i as int].len()
                    && same_key@[i as int]@[j as int]),
{
    let ghost rows = deep_rows(same_key@);
    let mut kept: Vec<usize> = Vec::new();
    let mut i: usize = 0;
    while i < same_key.len()
        invariant
            i <= same_key.len(),
            rows == deep_rows(same_key@),
            kept@ == first_occurrences(rows, i as nat),
            forall|k: int| 0 <= k < kept.len() ==> #[trigger] kept@[k] < i,
            forall|k1: int, k2: int|
                0 <= k1 < k2 < kept.len() ==> #[trigger] kept@[k1] < #[trigger] kept@[k2],
            forall|x: usize|
                x < i ==> (#[trigger] kept@.contains(x) <==> !exists|j: usize|
                    #![trigger same_key@[x as int]@[j as int]]
                    j < x && kept@.contains(j) && j < same_key@[x as int].len()
                        && same_key@[x as int]@[j as int]),
        decreases same_key.len() - i,
    {
        let row = &same_key[i];
        let mut found = false;
        let mut k: usize = 0;
        while k < kept.len()
            invariant
                k <= kept.len(),
                row@ == rows[i as int],
                found <==> exists|k2: int|
                    0 <= k2 < k && kept@[k2] < row@.len() && #[trigger] row@[kept@[k2] as int],
            decreases kept.len() - k,
        {
            let j = kept[k];
            if j < row.len() && row[j] {
                found = true;
            }
            k = k + 1;
        }
        proof {
            assert(found == same_as_kept(rows[i as int], kept@));
        }
        let ghost before = kept@;
        if !found {
            kept.push(i);
        }
        proof {
            assert forall|y: usize| #[trigger] kept@.contains(y) <==> before.contains(y) || (!found
                && y == i) by {
                if kept@.contains(y) {
                    let k = choose|k: int| 0 <= k < kept@.len() && kept@[k] == y;
                    if k < before.len() {
                        assert(before[k] == y);
                    }
                }
                if before.contains(y) {
                    let k = choose|k: int| 0 <= k < before.len() && before[k] == y;
                    assert(kept@[k] == y);
                }
                if !found && y == i {
                    assert(kept@[before.len() as int] == y);
                }
            }
            assert(found <==> exists|j: usize|
                #![trigger same_key@[i as int]@[j as int]]
                j < i && before.contains(j) && j < same_key@[i as int].len()
                    && same_key@[i as int]@[j as int]) by {
                if found {
                    let k2 = choose|k2: int|
                        0 <= k2 < before.len() && before[k2] < row@.len() && #[trigger] row@[before[k2] as int];
                    let j = before[k2];
                    assert(j < i && before.contains(j) && j < same_key@[i as int].len()
                        && same_key@[i as int]@[j as int]);
                }
                if exists|j: usize|
                    #![trigger same_key@[i as int]@[j as int]]
                    j < i && before.contains(j) && j < same_key@[i as int].len()
                        && same_key@[i as int]@[j as int] {
                    let j = choose|j: usize|
                        #![trigger same_key@[i as int]@[j as int]]
                        j < i && before.contains(j) && j < same_key@[i as int].len()
                            && same_key@[i as int]@[j as int];
                    let k2 = choose|k2: int| 0 <= k2 < before.len() && before[k2] == j;
                    assert(before[k2] < row@.len() && row@[before[k2] as int]);
                }
            }
            assert forall|x: usize| x < i + 1 implies (#[trigger] kept@.contains(x) <==> !exists|j: usize|
                #![trigger same_key@[x as int]@[j as int]]
                j < x && kept@.contains(j) && j < same_key@[x as int].len()
                    && same_key@[x as int]@[j as int]) by {
                assert(kept@.contains(x) <==> before.contains(x) || (!found && x == i));
                if x < i {
                    assert(!before.contains(x as usize) ==> !(before.contains(x) || x == i));
                    assert forall|j: usize| j < x implies (#[trigger] kept@.contains(j) <==> before.contains(j)) by {
                        assert(kept@.contains(j) <==> before.contains(j) || (!found && j == i));
                    }
                    assert(!before.contains(i)) by {
                        if before.contains(i) {
                            let k = choose|k: int| 0 <= k < before.len() && before[k] == i;
                        }
                    }
                } else {
                    assert(!before.contains(i)) by {
                        if before.contains(i) {
                            let k = choose|k: int| 0 <= k < before.len() && before[k] == i;
                        }
                    }
                    assert forall|j: usize| j < x implies (#[trigger] kept@.contains(j) <==> before.contains(j)) by {
                        assert(kept@.contains(j) <==> before.contains(j) || (!found && j == i));
                    }
                }
            }
        }
        i = i + 1;
    }
    kept
}

/// The rows of a matrix of booleans.
pub open spec fn deep_rows(m: Seq<Vec<bool>>) -> Seq<Seq<bool>> {
    Seq::new(m.len(), |i: int| m[i]@)
}

/// Emission order is the plain lexicographic order on (def index, pattern
/// item index), with ties in collection order.
pub proof fn lemma_emission_order_is_lexicographic(keys: Seq<(u32, usize)>, i: int, j: int)
    ensures
        emitted_before(keys, i, j) <==> {
            ||| keys[i].0 < keys[j].0
            ||| keys[i].0 == keys[j].0 && keys[i].1 < keys[j].1
            ||| keys[i].0 == keys[j].0 && keys[i].1 == keys[j].1 && i < j
        },
{
}

/// The preferred root is that of the last label that resolves, and the
/// fallback when no label resolves.
pub proof fn lemma_preferred_root_is_last_resolving<T>(roots: Seq<Option<T>>, fallback: T)
    ensures
        forall|k: int|
            0 <= k < roots.len() && #[trigger] roots[k] is Some && (forall|j: int|
                k < j < roots.len() ==> roots[j] is None) ==> preferred_root(roots, fallback)
                == roots[k]->0,
        (forall|j: int| 0 <= j < roots.len() ==> roots[j] is None) ==> preferred_root(
            roots,
            fallback,
        ) == fallback,
    decreases roots.len(),
{
    if roots.len() > 0 {
        let init = roots.drop_last();
        lemma_preferred_root_is_last_resolving(init, fallback);
        let last = roots.len() - 1;
        assert forall|k: int|
            0 <= k < roots.len() && #[trigger] roots[k] is Some && (forall|j: int|
                k < j < roots.len() ==> roots[j] is None) implies preferred_root(roots, fallback)
            == roots[k]->0 by {
            if k < last {
                assert(roots[last] is None);
                assert(init[k] is Some);
                assert forall|j: int| k < j < init.len() implies init[j] is None by {
                    assert(roots[j] is None);
                }
            }
        }
        if forall|j: int| 0 <= j < roots.len() ==> roots[j] is None {
            assert(roots[last] is None);
            assert forall|j: int| 0 <= j < init.len() implies init[j] is None by {
                assert(roots[j] is None);
            }
        }
    }
}

/// A lint is dropped when some kept lint before it has the same key.
spec fn kept_rule(same_key: Seq<Vec<bool>>, kept: Seq<usize>) -> bool {
    forall|i: usize|
        i < same_key.len() ==> (#[trigger] kept.contains(i) <==> !exists|j: usize|
            #![trigger same_key[i as int]@[j as int]]
            j < i && kept.contains(j) && j < same_key[i as int]@.len() && same_key[i as int]@[j as int])
}

/// When the comparisons come from keys (`same_key[i][j]` tells whether lint
/// `j` has the key of lint `i`, for every `j < i`), the lints that
/// `dedupe_first_occurrences` keeps are exactly the first occurrence of each
/// distinct key.
pub proof fn lemma_dedupe_keeps_first_of_each_key<K>(
    keys: Seq<K>,
    same_key: Seq<Vec<bool>>,
    kept: Seq<usize>,
)
    requires
        same_key.len() == keys.len(),
        forall|i: int| 0 <= i < keys.len() ==> #[trigger] same_key[i]@.len() == i,
        forall|i: int, j: int|
            0 <= j < i < keys.len() ==> #[trigger] same_key[i]@[j] == (keys[j] == keys[i]),
        forall|i: usize|
            i < same_key.len() ==> (#[trigger] kept.contains(i) <==> !exists|j: usize|
                #![trigger same_key[i as int]@[j as int]]
                j < i && kept.contains(j) && j < same_key[i as int]@.len()
                    && same_key[i as int]@[j as int]),
    ensures
        forall|i: usize|
            i < keys.len() ==> (#[trigger] kept.contains(i) <==> forall|j: int|
                0 <= j < i ==> keys[j] != keys[i as int]),
{
    assert(kept_rule(same_key, kept));
    assert forall|i: usize| i < keys.len() implies (#[trigger] kept.contains(i) <==> forall|j: int|
        0 <= j < i ==> keys[j] != keys[i as int]) by {
        lemma_first_of_key_upto(keys, same_key, kept, i);
    }
}

/// Induction for `lemma_dedupe_keeps_first_of_each_key`: the rule holds of
/// every index up to `n`.
proof fn lemma_first_of_key_upto<K>(keys: Seq<K>, same_key: Seq<Vec<bool>>, kept: Seq<usize>, n: usize)
    requires
        n < keys.len(),
        same_key.len() == keys.len(),
        forall|i: int| 0 <= i < keys.len() ==> #[trigger] same_key[i]@.len() == i,
        forall|i: int, j: int|
            0 <= j < i < keys.len() ==> #[trigger] same_key[i]@[j] == (keys[j] == keys[i]),
        kept_rule(same_key, kept),
    ensures
        forall|i: usize|
            i <= n ==> (#[trigger] kept.contains(i) <==> forall|j: int|
                0 <= j < i ==> keys[j] != keys[i as int]),
    decreases n,
{
    if n > 0 {
        lemma_first_of_key_upto(keys, same_key, kept, (n - 1) as usize);
    }
    assert(kept.contains(n) <==> !exists|j: usize|
        #![trigger same_key[n as int]@[j as int]]
        j < n && kept.contains(j) && j < same_key[n as int]@.len() && same_key[n as int]@[j as int]);
    if exists|j: int| 0 <= j < n && keys[j] == keys[n as int] {
        let j = choose|j: int| 0 <= j < n && keys[j] == keys[n as int];
        lemma_kept_with_key(keys, same_key, kept, n, j as usize);
        let j2 = choose|j2: usize| j2 < n && kept.contains(j2) && keys[j2 as int] == keys[n as int];
        assert(same_key[n as int]@[j2 as int]);
    } else {
        if exists|j: usize|
            #![trigger same_key[n as int]@[j as int]]
            j < n && kept.contains(j) && j < same_key[n as int]@.len() && same_key[n as int]@[j as int] {
            let j = choose|j: usize|
                #![trigger same_key[n as int]@[j as int]]
                j < n && kept.contains(j) && j < same_key[n as int]@.len()
                    && same_key[n as int]@[j as int];
            assert(keys[j as int] == keys[n as int]);
        }
    }
}

/// Some kept lint before `n` has the key of lint `n`, given one earlier lint
/// `j` with that key and the rule for every index below `n`.
proof fn lemma_kept_with_key<K>(
    keys: Seq<K>,
    same_key: Seq<Vec<bool>>,
    kept: Seq<usize>,
    n: usize,
    j: usize,
)
    requires
        j < n < keys.len(),
        keys[j as int] == keys[n as int],
        forall|i: usize|
            i < n ==> (#[trigger] kept.contains(i) <==> forall|j: int|
                0 <= j < i ==> keys[j] != keys[i as int]),
    ensures
        exists|j2: usize| j2 < n && kept.contains(j2) && keys[j2 as int] == keys[n as int],
    decreases j,
{
    if kept.contains(j) {
        assert(j < n && kept.contains(j) && keys[j as int] == keys[n as int]);
    } else {
        let j1 = choose|j1: int| 0 <= j1 < j && keys[j1] == keys[j as int];
        lemma_kept_with_key(keys, same_key, kept, n, j1 as usize);
    }
}

} // verus!
