//! Edit distance between strings of characters.

use vstd::prelude::*;
use vstd::string::StrSliceExecFns;

verus! {

/// The smallest of three numbers.
pub open spec fn min3(a: nat, b: nat, c: nat) -> nat {
    if a <= b && a <= c {
        a
    } else if b <= c {
        b
    } else {
        c
    }
}

/// The cost of putting `y` in the place of `x`.
pub open spec fn substitution(x: char, y: char) -> nat {
    if x == y {
        0
    } else {
        1
    }
}

/// The edit distance of two strings: the least number of insertions,
/// deletions and substitutions of single characters that turns one into
/// the other.
pub open spec fn edit_distance(a: Seq<char>, b: Seq<char>) -> nat
    decreases a.len() + b.len(),
{
    if a.len() == 0 {
        b.len()
    } else if b.len() == 0 {
        a.len()
    } else {
        min3(
            edit_distance(a.drop_last(), b.drop_last()) + substitution(a.last(), b.last()),
            edit_distance(a.drop_last(), b) + 1,
            edit_distance(a, b.drop_last()) + 1,
        )
    }
}

/// Equal strings, and no others, are at distance zero.
pub proof fn lemma_distance_zero(a: Seq<char>, b: Seq<char>)
    ensures
        edit_distance(a, b) == 0 <==> a == b,
    decreases a.len() + b.len(),
{
    if a.len() == 0 || b.len() == 0 {
        if a.len() == 0 && b.len() == 0 {
            assert(a =~= b);
        }
    } else {
        lemma_distance_zero(a.drop_last(), b.drop_last());
        if a == b {
            assert(a.drop_last() == b.drop_last());
        }
        if edit_distance(a, b) == 0 {
            assert(a.drop_last() == b.drop_last() && a.last() == b.last());
            assert(a =~= a.drop_last().push(a.last()));
            assert(b =~= b.drop_last().push(b.last()));
        }
    }
}

/// The distance is no more than the length of the longer string.
pub proof fn lemma_distance_bound(a: Seq<char>, b: Seq<char>)
    ensures
        edit_distance(a, b) <= a.len() || edit_distance(a, b) <= b.len(),
    decreases a.len() + b.len(),
{
    if a.len() > 0 && b.len() > 0 {
        lemma_distance_bound(a.drop_last(), b.drop_last());
    }
}

/// The characters of a string.
pub fn chars_of(s: &str) -> (r: Vec<char>)
    ensures
        r@ == s@,
{
    let n = s.unicode_len();
    let mut r: Vec<char> = Vec::new();
    let mut i: usize = 0;
    while i < n
        invariant
            i <= n,
            n == s@.len(),
            r@ == s@.take(i as int),
        decreases n - i,
    {
        r.push(s.get_char(i));
        assert(s@.take(i + 1) =~= s@.take(i as int).push(s@[i as int]));
        i += 1;
    }
    assert(s@.take(n as int) =~= s@);
    r
}

/// The edit distance of two strings.
pub fn distance(a: &Vec<char>, b: &Vec<char>) -> (d: u64)
    ensures
        d == edit_distance(a@, b@),
{
    let n = a.len();
    let m = b.len();
    // The row for the empty prefix of `a`: the distance to each prefix of
    // `b` is that prefix's length.
    let mut prev: Vec<u128> = Vec::new();
    let mut j: usize = 0;
    while j < m
        invariant
            j <= m,
            m == b.len(),
            prev.len() == j,
            forall|y: int| 0 <= y < j ==> #[trigger] prev@[y] == y,
        decreases m - j,
    {
        prev.push(j as u128);
        j += 1;
    }
    prev.push(m as u128);
    proof {
        assert forall|y: int| 0 <= y <= m implies #[trigger] prev@[y] == edit_distance(
            a@.take(0),
            b@.take(y),
        ) by {
            assert(a@.take(0).len() == 0);
            assert(b@.take(y).len() == y);
        }
    }
    let mut i: usize = 0;
    while i < n
        invariant
            i <= n,
            n == a.len(),
            m == b.len(),
            prev.len() == m + 1,
            forall|y: int|
                0 <= y <= m ==> #[trigger] prev@[y] == edit_distance(a@.take(i as int), b@.take(y)),
        decreases n - i,
    {
        let ghost ai = a@.take(i + 1);
        let mut row: Vec<u128> = Vec::new();
        row.push((i + 1) as u128);
        assert(b@.take(0).len() == 0);
        let mut k: usize = 0;
        while k < m
            invariant
                k <= m,
                i < n,
                n == a.len(),
                m == b.len(),
                ai == a@.take(i + 1),
                prev.len() == m + 1,
                row.len() == k + 1,
                forall|y: int|
                    0 <= y <= m ==> #[trigger] prev@[y] == edit_distance(
                        a@.take(i as int),
                        b@.take(y),
                    ),
                forall|y: int| 0 <= y <= k ==> #[trigger] row@[y] == edit_distance(ai, b@.take(y)),
            decreases m - k,
        {
            let ghost bk = b@.take(k + 1);
            proof {
                assert(ai.drop_last() =~= a@.take(i as int));
                assert(bk.drop_last() =~= b@.take(k as int));
                assert(ai.last() == a@[i as int]);
                assert(bk.last() == b@[k as int]);
                lemma_distance_bound(a@.take(i as int), b@.take(k as int));
                lemma_distance_bound(a@.take(i as int), bk);
                lemma_distance_bound(ai, b@.take(k as int));
            }
            let cost: u128 = if a[i] == b[k] {
                0
            } else {
                1
            };
            let sub = prev[k] + cost;
            let del = prev[k + 1] + 1;
            let ins = row[k] + 1;
            let cell = if sub <= del && sub <= ins {
                sub
            } else if del <= ins {
                del
            } else {
                ins
            };
            row.push(cell);
            k += 1;
        }
        prev = row;
        i += 1;
    }
    proof {
        assert(a@.take(n as int) =~= a@);
        assert(b@.take(m as int) =~= b@);
        lemma_distance_bound(a@, b@);
    }
    prev[m] as u64
}

} // verus!
