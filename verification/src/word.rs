//! The word-distance engine.
//!
//! The distance between two strings under a cost model is the least total
//! cost of single-symbol edits turning the first into the second: inserting
//! or deleting a symbol costs the model's ceiling, substituting one symbol
//! for another costs what the model says. `word_dist` states that least cost
//! as a recurrence over the two strings; `word_distance` computes it by
//! dynamic programming over a table of prefix distances.

use vstd::prelude::*;

use crate::model::CostModel;

verus! {

/// The least of three values.
pub open spec fn min3(a: nat, b: nat, c: nat) -> nat {
    if a <= b && a <= c {
        a
    } else if b <= c {
        b
    } else {
        c
    }
}

/// The weighted edit distance between `s1` and `s2` under the model `m`:
/// turning the empty string into a string of `k` symbols (or back) costs `k`
/// ceilings, and otherwise the cheapest of deleting the last symbol of `s1`,
/// inserting the last symbol of `s2`, and substituting the one for the other
/// closes the gap.
pub open spec fn word_dist<M: CostModel>(m: &M, s1: Seq<char>, s2: Seq<char>) -> nat
    decreases s1.len() + s2.len(),
{
    if s1.len() == 0 {
        s2.len() * m.max_spec()
    } else if s2.len() == 0 {
        s1.len() * m.max_spec()
    } else {
        min3(
            word_dist(m, s1.drop_last(), s2) + m.max_spec(),
            word_dist(m, s1, s2.drop_last()) + m.max_spec(),
            word_dist(m, s1.drop_last(), s2.drop_last()) + m.dist_spec(s1.last(), s2.last()),
        )
    }
}

/// The distance never exceeds one ceiling per symbol of the two strings
/// together: deleting all of `s1` and inserting all of `s2` is always a
/// candidate edit sequence.
pub proof fn lemma_word_dist_bound<M: CostModel>(m: &M, s1: Seq<char>, s2: Seq<char>)
    requires
        m.wf(),
    ensures
        word_dist(m, s1, s2) <= (s1.len() + s2.len()) * m.max_spec(),
    decreases s1.len() + s2.len(),
{
    let max = m.max_spec();
    if s1.len() == 0 {
    } else if s2.len() == 0 {
    } else {
        lemma_word_dist_bound(m, s1.drop_last(), s2);
        assert(((s1.len() - 1) + s2.len()) * max + max == (s1.len() + s2.len()) * max)
            by (nonlinear_arith);
    }
}

/// The empty-string boundary: against the empty string, every string is one
/// whole ceiling per symbol away, on either side.
pub proof fn lemma_word_dist_empty<M: CostModel>(m: &M, s: Seq<char>)
    ensures
        word_dist(m, Seq::<char>::empty(), s) == s.len() * m.max_spec(),
        word_dist(m, s, Seq::<char>::empty()) == s.len() * m.max_spec(),
{
}

/// Self-distance: every string is at distance zero from itself, whether or
/// not its symbols are known to the model.
pub proof fn lemma_word_dist_self<M: CostModel>(m: &M, s: Seq<char>)
    requires
        m.wf(),
    ensures
        word_dist(m, s, s) == 0,
    decreases s.len(),
{
    if s.len() > 0 {
        lemma_word_dist_self(m, s.drop_last());
        m.lemma_dist_in_range(s.last(), s.last());
    }
}

/// The symbols of `s`, in order.
pub fn chars_of(s: &str) -> (v: Vec<char>)
    ensures
        v@ == s@,
{
    let n = s.unicode_len();
    let mut v: Vec<char> = Vec::new();
    let mut i: usize = 0;
    while i < n
        invariant
            i <= n,
            n == s@.len(),
            v@ == s@.take(i as int),
        decreases n - i,
    {
        let c = s.get_char(i);
        v.push(c);
        proof {
            assert(v@ =~= s@.take(i + 1));
        }
        i = i + 1;
    }
    proof {
        assert(s@.take(n as int) =~= s@);
    }
    v
}

/// The least of three machine integers.
fn min3_usize(a: usize, b: usize, c: usize) -> (r: usize)
    ensures
        r as nat == min3(a as nat, b as nat, c as nat),
{
    if a <= b && a <= c {
        a
    } else if b <= c {
        b
    } else {
        c
    }
}

/// The matching rate of two words under the model `m`: the weighted edit
/// distance `word_dist(m, str1@, str2@)`. The more similar the two
/// arguments, the smaller the return value.
pub fn word_distance<M: CostModel>(m: &M, str1: &str, str2: &str) -> (d: usize)
    requires
        m.wf(),
        str1@.len() + str2@.len() < usize::MAX,
        (str1@.len() + str2@.len()) * m.max_spec() <= usize::MAX,
    ensures
        d == word_dist(m, str1@, str2@),
{
    let c1 = chars_of(str1);
    let c2 = chars_of(str2);
    let l1 = c1.len();
    let l2 = c2.len();
    let max = m.max_distance();
    let ghost total: nat = (l1 + l2) as nat;

    // Row 0: the distances from prefixes of `str1` to the empty string.
    let mut row0: Vec<usize> = Vec::new();
    let mut j: usize = 0;
    while j <= l1
        invariant
            m.wf(),
            c1@ == str1@,
            c2@ == str2@,
            l1 == c1@.len(),
            l2 == c2@.len(),
            total == l1 + l2,
            l1 + l2 < usize::MAX,
            total * m.max_spec() <= usize::MAX,
            max as nat == m.max_spec(),
            j <= l1 + 1,
            row0@.len() == j,
            forall|k: int|
                0 <= k < j ==> row0@[k] == word_dist(m, c1@.take(k), c2@.take(0)),
        decreases l1 + 1 - j,
    {
        proof {
            assert(j * m.max_spec() <= total * m.max_spec()) by (nonlinear_arith)
                requires
                    0 <= j <= total,
                    0 <= m.max_spec(),
            ;
            assert(c2@.take(0) =~= Seq::<char>::empty());
            assert(c1@.take(j as int).len() == j);
        }
        row0.push(j * max);
        j = j + 1;
    }
    let mut table: Vec<Vec<usize>> = Vec::new();
    table.push(row0);

    let mut i: usize = 1;
    while i <= l2
        invariant
            m.wf(),
            c1@ == str1@,
            c2@ == str2@,
            l1 == c1@.len(),
            l2 == c2@.len(),
            total == l1 + l2,
            l1 + l2 < usize::MAX,
            total * m.max_spec() <= usize::MAX,
            max as nat == m.max_spec(),
            1 <= i <= l2 + 1,
            table@.len() == i,
            forall|ii: int| 0 <= ii < i ==> #[trigger] table@[ii]@.len() == l1 + 1,
            forall|ii: int, jj: int|
                0 <= ii < i && 0 <= jj <= l1 ==> #[trigger] table@[ii]@[jj] == word_dist(
                    m,
                    c1@.take(jj),
                    c2@.take(ii),
                ),
        decreases l2 + 1 - i,
    {
        let mut row: Vec<usize> = Vec::new();
        proof {
            assert(i * m.max_spec() <= total * m.max_spec()) by (nonlinear_arith)
                requires
                    0 <= i <= total,
                    0 <= m.max_spec(),
            ;
            assert(c1@.take(0) =~= Seq::<char>::empty());
            assert(c2@.take(i as int).len() == i);
        }
        row.push(i * max);
        let mut j: usize = 1;
        while j <= l1
            invariant
                m.wf(),
                c1@ == str1@,
                c2@ == str2@,
                l1 == c1@.len(),
                l2 == c2@.len(),
                total == l1 + l2,
                l1 + l2 < usize::MAX,
                total * m.max_spec() <= usize::MAX,
                max as nat == m.max_spec(),
                1 <= i <= l2,
                1 <= j <= l1 + 1,
                table@.len() == i,
                forall|ii: int| 0 <= ii < i ==> #[trigger] table@[ii]@.len() == l1 + 1,
                forall|ii: int, jj: int|
                    0 <= ii < i && 0 <= jj <= l1 ==> #[trigger] table@[ii]@[jj] == word_dist(
                        m,
                        c1@.take(jj),
                        c2@.take(ii),
                    ),
                row@.len() == j,
                forall|k: int|
                    0 <= k < j ==> row@[k] == word_dist(m, c1@.take(k), c2@.take(i as int)),
            decreases l1 + 1 - j,
        {
            let sub = m.distance(c1[j - 1], c2[i - 1]);
            proof {
                let s1p = c1@.take(j as int);
                let s2p = c2@.take(i as int);
                assert(s1p.drop_last() =~= c1@.take(j - 1));
                assert(s2p.drop_last() =~= c2@.take(i - 1));
                lemma_word_dist_bound(m, c1@.take(j as int), c2@.take(i - 1));
                lemma_word_dist_bound(m, c1@.take(j - 1), c2@.take(i as int));
                lemma_word_dist_bound(m, c1@.take(j - 1), c2@.take(i - 1));
                m.lemma_dist_in_range(c1@[j - 1], c2@[i - 1]);
                assert((j + (i - 1)) * m.max_spec() + m.max_spec() <= total * m.max_spec())
                    by (nonlinear_arith)
                    requires
                        0 <= j + (i - 1) + 1 <= total,
                        0 <= m.max_spec(),
                ;
                assert(((j - 1) + i) * m.max_spec() + m.max_spec() <= total * m.max_spec())
                    by (nonlinear_arith)
                    requires
                        0 <= (j - 1) + i + 1 <= total,
                        0 <= m.max_spec(),
                ;
                assert(((j - 1) + (i - 1)) * m.max_spec() + m.max_spec() <= total * m.max_spec())
                    by (nonlinear_arith)
                    requires
                        0 <= (j - 1) + (i - 1) + 1 <= total,
                        0 <= m.max_spec(),
                ;
            }
            let up = table[i - 1][j] + max;
            let left = row[j - 1] + max;
            let diag = table[i - 1][j - 1] + (sub as usize);
            let cell = min3_usize(up, left, diag);
            proof {
                assert(word_dist(m, c1@.take(j as int), c2@.take(i as int)) == min3(
                    word_dist(m, c1@.take(j - 1), c2@.take(i as int)) + m.max_spec(),
                    word_dist(m, c1@.take(j as int), c2@.take(i - 1)) + m.max_spec(),
                    word_dist(m, c1@.take(j - 1), c2@.take(i - 1)) + m.dist_spec(
                        c1@[j - 1],
                        c2@[i - 1],
                    ),
                ));
            }
            row.push(cell);
            j = j + 1;
        }
        table.push(row);
        i = i + 1;
    }
    let d = table[l2][l1];
    proof {
        assert(c1@.take(l1 as int) =~= c1@);
        assert(c2@.take(l2 as int) =~= c2@);
    }
    d
}

} // verus!
