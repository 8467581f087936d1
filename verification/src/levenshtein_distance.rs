//! Levenshtein distance.

use crate::hamming_distance::chars_vec;
use vstd::prelude::*;

verus! {

/// The minimum number of single-character insertions, deletions, and
/// substitutions that turn `s` into `t`, by the standard recurrence.
pub open spec fn edit_distance(s: Seq<char>, t: Seq<char>) -> nat
    decreases s.len() + t.len(),
{
    if s.len() == 0 {
        t.len()
    } else if t.len() == 0 {
        s.len()
    } else {
        let del = edit_distance(s.drop_last(), t) + 1;
        let ins = edit_distance(s, t.drop_last()) + 1;
        let sub = edit_distance(s.drop_last(), t.drop_last()) + if s.last() == t.last() {
            0nat
        } else {
            1nat
        };
        if del <= ins && del <= sub {
            del
        } else if ins <= sub {
            ins
        } else {
            sub
        }
    }
}

/// The distance never exceeds the longer input.
pub proof fn lemma_edit_distance_bound(s: Seq<char>, t: Seq<char>)
    ensures
        edit_distance(s, t) <= s.len() + t.len(),
    decreases s.len() + t.len(),
{
    if s.len() > 0 && t.len() > 0 {
        lemma_edit_distance_bound(s.drop_last(), t.drop_last());
    }
}

/// Computes the Levenshtein distance of two strings with a rolling
/// one-dimensional table over the dynamic-programming recurrence.
pub fn levenshtein_distance(source: &str, target: &str) -> (r: usize)
    requires
        source@.len() + target@.len() < usize::MAX,
    ensures
        r == edit_distance(source@, target@),
{
    let s = chars_vec(source);
    let t = chars_vec(target);
    if s.len() == 0 {
        proof {
            assert(source@.len() == 0);
        }
        return t.len();
    }
    if t.len() == 0 {
        return s.len();
    }
    let m = s.len();
    let n = t.len();

    let mut distances: Vec<usize> = Vec::new();
    let mut j0: usize = 0;
    while j0 <= n
        invariant
            n == t@.len(),
            t@ == target@,
            n < usize::MAX,
            j0 <= n + 1,
            distances@.len() == j0,
            forall|k: int| 0 <= k < j0 ==> distances@[k] == k,
        decreases n + 1 - j0,
    {
        distances.push(j0);
        j0 += 1;
    }
    proof {
        assert forall|k: int| 0 <= k <= n implies distances@[k] == edit_distance(
            source@.take(0),
            target@.take(k),
        ) by {
            assert(source@.take(0) =~= Seq::<char>::empty());
            lemma_prefix_distance(target@, k);
        }
    }

    let mut i: usize = 0;
    while i < m
        invariant
            m == s@.len(),
            n == t@.len(),
            s@ == source@,
            t@ == target@,
            m + n < usize::MAX,
            m > 0,
            n > 0,
            i <= m,
            distances@.len() == n + 1,
            forall|k: int| 0 <= k <= n ==> distances@[k] == edit_distance(
                source@.take(i as int),
                target@.take(k),
            ),
        decreases m - i,
    {
        let mut sub = distances[0];
        distances[0] = i + 1;
        proof {
            assert(source@.take(i + 1).drop_last() =~= source@.take(i as int));
            assert(target@.take(0) =~= Seq::<char>::empty());
            lemma_prefix_distance_left(source@, i + 1);
        }
        let mut j: usize = 0;
        while j < n
            invariant
                m == s@.len(),
                n == t@.len(),
                s@ == source@,
                t@ == target@,
                m + n < usize::MAX,
                i < m,
                j <= n,
                distances@.len() == n + 1,
                sub == edit_distance(source@.take(i as int), target@.take(j as int)),
                forall|k: int| 0 <= k <= j ==> distances@[k] == edit_distance(
                    source@.take(i + 1),
                    target@.take(k),
                ),
                forall|k: int| j < k <= n ==> distances@[k] == edit_distance(
                    source@.take(i as int),
                    target@.take(k),
                ),
            decreases n - j,
        {
            proof {
                lemma_edit_distance_bound(source@.take(i + 1), target@.take(j as int));
                lemma_edit_distance_bound(source@.take(i as int), target@.take(j + 1));
                lemma_edit_distance_bound(source@.take(i as int), target@.take(j as int));
            }
            let a = distances[j];
            let b = distances[j + 1];
            let shorter = if a < b {
                a
            } else {
                b
            };
            let diff: usize = if s[i] != t[j] {
                1
            } else {
                0
            };
            let dist = if shorter + 1 < sub + diff {
                shorter + 1
            } else {
                sub + diff
            };
            proof {
                assert(source@.take(i + 1).drop_last() =~= source@.take(i as int));
                assert(target@.take(j + 1).drop_last() =~= target@.take(j as int));
                assert(source@.take(i + 1).last() == source@[i as int]);
                assert(target@.take(j + 1).last() == target@[j as int]);
                assert(dist == edit_distance(source@.take(i + 1), target@.take(j + 1)));
            }
            sub = distances[j + 1];
            distances[j + 1] = dist;
            j += 1;
        }
        i += 1;
    }
    proof {
        assert(source@.take(m as int) =~= source@);
        assert(target@.take(n as int) =~= target@);
    }
    distances[n]
}

/// Distance from the empty string to a prefix: its length.
proof fn lemma_prefix_distance(t: Seq<char>, k: int)
    requires
        0 <= k <= t.len(),
    ensures
        edit_distance(Seq::<char>::empty(), t.take(k)) == k,
{
    assert(t.take(k).len() == k);
}

/// Distance from a prefix to the empty string: its length.
proof fn lemma_prefix_distance_left(s: Seq<char>, k: int)
    requires
        0 <= k <= s.len(),
    ensures
        edit_distance(s.take(k), Seq::<char>::empty()) == k,
{
    assert(s.take(k).len() == k);
}

/// Computes the Levenshtein distance with the full dynamic-programming
/// matrix, one row per source prefix.
pub fn levenshtein_distance_naive(source: &str, target: &str) -> (r: usize)
    requires
        source@.len() + target@.len() < usize::MAX,
    ensures
        r == edit_distance(source@, target@),
{
    let s = chars_vec(source);
    let t = chars_vec(target);
    if s.len() == 0 {
        proof {
            assert(source@.len() == 0);
        }
        return t.len();
    }
    if t.len() == 0 {
        return s.len();
    }
    let m = s.len();
    let n = t.len();

    // first row: distances from the empty source prefix
    let mut row: Vec<usize> = Vec::new();
    let mut j0: usize = 0;
    while j0 <= n
        invariant
            n == t@.len(),
            n < usize::MAX,
            j0 <= n + 1,
            row@.len() == j0,
            forall|k: int| 0 <= k < j0 ==> row@[k] == k,
        decreases n + 1 - j0,
    {
        row.push(j0);
        j0 += 1;
    }
    let mut matrix: Vec<Vec<usize>> = Vec::new();
    matrix.push(row);
    proof {
        assert forall|k: int| 0 <= k <= n implies matrix@[0]@[k] == edit_distance(
            source@.take(0),
            target@.take(k),
        ) by {
            assert(source@.take(0) =~= Seq::<char>::empty());
            lemma_prefix_distance(target@, k);
        }
    }

    let mut i: usize = 0;
    while i < m
        invariant
            m == s@.len(),
            n == t@.len(),
            s@ == source@,
            t@ == target@,
            m + n < usize::MAX,
            m > 0,
            n > 0,
            i <= m,
            matrix@.len() == i + 1,
            forall|r0: int| 0 <= r0 <= i ==> (#[trigger] matrix@[r0])@.len() == n + 1,
            forall|r0: int, k: int|
                0 <= r0 <= i && 0 <= k <= n ==> (#[trigger] matrix@[r0]@[k]) == edit_distance(
                    source@.take(r0),
                    target@.take(k),
                ),
        decreases m - i,
    {
        let prev = &matrix[i];
        let mut next_row: Vec<usize> = Vec::new();
        next_row.push(i + 1);
        proof {
            assert(source@.take(i + 1).drop_last() =~= source@.take(i as int));
            assert(target@.take(0) =~= Seq::<char>::empty());
            lemma_prefix_distance_left(source@, i + 1);
        }
        let mut j: usize = 0;
        while j < n
            invariant
                m == s@.len(),
                n == t@.len(),
                s@ == source@,
                t@ == target@,
                m + n < usize::MAX,
                i < m,
                j <= n,
                prev@.len() == n + 1,
                forall|k: int| 0 <= k <= n ==> (#[trigger] prev@[k]) == edit_distance(
                    source@.take(i as int),
                    target@.take(k),
                ),
                next_row@.len() == j + 1,
                forall|k: int| 0 <= k <= j ==> (#[trigger] next_row@[k]) == edit_distance(
                    source@.take(i + 1),
                    target@.take(k),
                ),
            decreases n - j,
        {
            proof {
                lemma_edit_distance_bound(source@.take(i + 1), target@.take(j as int));
                lemma_edit_distance_bound(source@.take(i as int), target@.take(j + 1));
                lemma_edit_distance_bound(source@.take(i as int), target@.take(j as int));
            }
            let ins = next_row[j] + 1;
            let del = prev[j + 1] + 1;
            let sub = prev[j] + if s[i] != t[j] {
                1
            } else {
                0
            };
            let dist = if ins < del && ins < sub {
                ins
            } else if del < sub {
                del
            } else {
                sub
            };
            proof {
                assert(source@.take(i + 1).drop_last() =~= source@.take(i as int));
                assert(target@.take(j + 1).drop_last() =~= target@.take(j as int));
                assert(source@.take(i + 1).last() == source@[i as int]);
                assert(target@.take(j + 1).last() == target@[j as int]);
                assert(dist == edit_distance(source@.take(i + 1), target@.take(j + 1)));
            }
            next_row.push(dist);
            j += 1;
        }
        matrix.push(next_row);
        i += 1;
    }
    proof {
        assert(source@.take(m as int) =~= source@);
        assert(target@.take(n as int) =~= target@);
    }
    let last = &matrix[m];
    last[n]
}

} // verus!
