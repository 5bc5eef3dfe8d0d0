//! The insertion/deletion edit distance between two byte sequences, used by
//! tests as a small diff utility.

use vstd::prelude::*;

verus! {

/// The minimum number of insertions and deletions that turn `a` into `b`:
/// matching heads cost nothing, otherwise one side loses its head at the
/// cost of one edit.
pub open spec fn edit_dist(a: Seq<u8>, b: Seq<u8>) -> nat
    decreases a.len() + b.len(),
{
    if a.len() == 0 {
        b.len()
    } else if b.len() == 0 {
        a.len()
    } else if a[0] == b[0] {
        edit_dist(a.skip(1), b.skip(1))
    } else {
        let x = edit_dist(a.skip(1), b) + 1;
        let y = edit_dist(a, b.skip(1)) + 1;
        if x <= y {
            x
        } else {
            y
        }
    }
}

/// The distance never exceeds the combined length.
pub proof fn lemma_edit_dist_bound(a: Seq<u8>, b: Seq<u8>)
    ensures
        edit_dist(a, b) <= a.len() + b.len(),
    decreases a.len() + b.len(),
{
    if a.len() != 0 && b.len() != 0 {
        if a[0] == b[0] {
            lemma_edit_dist_bound(a.skip(1), b.skip(1));
        } else {
            lemma_edit_dist_bound(a.skip(1), b);
            lemma_edit_dist_bound(a, b.skip(1));
        }
    }
}

/// The distance is symmetric in its arguments.
pub proof fn lemma_edit_dist_symmetric(a: Seq<u8>, b: Seq<u8>)
    ensures
        edit_dist(a, b) == edit_dist(b, a),
    decreases a.len() + b.len(),
{
    if a.len() != 0 && b.len() != 0 {
        if a[0] == b[0] {
            lemma_edit_dist_symmetric(a.skip(1), b.skip(1));
        } else {
            lemma_edit_dist_symmetric(a.skip(1), b);
            lemma_edit_dist_symmetric(a, b.skip(1));
        }
    }
}

/// A sequence is at distance zero from itself.
pub proof fn lemma_edit_dist_identity(a: Seq<u8>)
    ensures
        edit_dist(a, a) == 0,
    decreases a.len(),
{
    if a.len() != 0 {
        lemma_edit_dist_identity(a.skip(1));
    }
}

/// The minimum number of single-byte insertions and deletions that turn
/// `a` into `b`.
#[verifier::loop_isolation(false)]
pub fn myers(a: &[u8], b: &[u8]) -> (r: usize)
    requires
        a@.len() + b@.len() < usize::MAX,
    ensures
        r == edit_dist(a@, b@),
{
    let n = a.len();
    let m = b.len();
    // `row[j]` holds the distance between the suffixes `a[i+1..]` and
    // `b[j..]`; the iteration moves `i` from the end to the front.
    let mut row: Vec<usize> = Vec::new();
    let mut j: usize = 0;
    while j <= m
        invariant
            j <= m + 1,
            row@.len() == j,
            forall|k: int| 0 <= k < j ==> row@[k] == m - k,
        decreases m + 1 - j,
    {
        row.push(m - j);
        j += 1;
    }
    proof {
        assert(a@.skip(n as int) =~= Seq::<u8>::empty());
        assert forall|k: int| 0 <= k <= m implies edit_dist(a@.skip(n as int), b@.skip(k)) == m
            - k by {
            assert(b@.skip(k).len() == m - k);
        }
    }
    let mut i: usize = n;
    while i > 0
        invariant
            i <= n,
            row@.len() == m + 1,
            forall|k: int|
                0 <= k <= m ==> row@[k] == edit_dist(a@.skip(i as int), b@.skip(k)),
        decreases i,
    {
        i -= 1;
        // fill from the right: position `j` needs positions `j+1` of both
        // rows, so build reversed and flip at the end
        let mut rev: Vec<usize> = Vec::new();
        rev.push(n - i);
        proof {
            assert(b@.skip(m as int) =~= Seq::<u8>::empty());
            assert(a@.skip(i as int).len() == n - i);
            assert(rev@[0] == edit_dist(a@.skip(i as int), b@.skip(m as int)));
        }
        let mut jj: usize = m;
        while jj > 0
            invariant
                jj <= m,
                i < n,
                rev@.len() == m - jj + 1,
                forall|k: int|
                    0 <= k < rev@.len() ==> rev@[k] == edit_dist(
                        a@.skip(i as int),
                        b@.skip(m - k),
                    ),
            decreases jj,
        {
            jj -= 1;
            let ghost ai = a@.skip(i as int);
            let ghost bj = b@.skip(jj as int);
            proof {
                assert(ai.len() == n - i >= 1);
                assert(bj.len() == m - jj >= 1);
                assert(ai[0] == a@[i as int]);
                assert(bj[0] == b@[jj as int]);
                assert(ai.skip(1) =~= a@.skip(i + 1));
                assert(bj.skip(1) =~= b@.skip(jj + 1));
                lemma_edit_dist_bound(ai, bj);
                lemma_edit_dist_bound(ai.skip(1), bj);
                lemma_edit_dist_bound(ai, bj.skip(1));
            }
            let v: usize = if a[i] == b[jj] {
                row[jj + 1]
            } else {
                let x = rev[m - jj - 1];
                let y = row[jj];
                proof {
                    assert(rev@[m - jj - 1] == edit_dist(ai, b@.skip(jj + 1)));
                    assert(row@[jj as int] == edit_dist(a@.skip(i + 1), b@.skip(jj as int)));
                }
                if x <= y {
                    x + 1
                } else {
                    y + 1
                }
            };
            rev.push(v);
            proof {
                assert forall|k: int| 0 <= k < rev@.len() implies rev@[k] == edit_dist(
                    a@.skip(i as int),
                    b@.skip(m - k),
                ) by {
                    if k < rev@.len() - 1 {
                        assert(rev@[k] == rev@.drop_last()[k]);
                    }
                }
            }
        }
        // flip the reversed row
        let mut fixed: Vec<usize> = Vec::new();
        let mut k: usize = 0;
        while k <= m
            invariant
                k <= m + 1,
                rev@.len() == m + 1,
                fixed@.len() == k,
                forall|t: int|
                    0 <= t < k ==> fixed@[t] == edit_dist(a@.skip(i as int), b@.skip(t)),
                forall|t: int|
                    0 <= t < rev@.len() ==> rev@[t] == edit_dist(
                        a@.skip(i as int),
                        b@.skip(m - t),
                    ),
            decreases m + 1 - k,
        {
            fixed.push(rev[m - k]);
            k += 1;
        }
        row = fixed;
    }
    proof {
        assert(a@.skip(0) =~= a@);
        assert(b@.skip(0) =~= b@);
    }
    row[0]
}

/// Myers symmetry: the distance does not depend on the order of the two
/// sequences, and a sequence is at distance zero from itself.
pub proof fn lemma_myers_laws(a: Seq<u8>, b: Seq<u8>)
    ensures
        edit_dist(a, b) == edit_dist(b, a),
        edit_dist(a, a) == 0,
{
    lemma_edit_dist_symmetric(a, b);
    lemma_edit_dist_identity(a);
}

} // verus!
