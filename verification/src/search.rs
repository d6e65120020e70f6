//! Nearest-match search over candidate words.
//!
//! `get_similar_word` scans candidates in order and keeps the first one that
//! strictly improves on the running best word distance, so among candidates
//! of equal distance the earliest wins. `partial_match` keeps the candidates
//! that contain the query as a contiguous substring and sorts them by symbol
//! count, ascending and stable: candidates of equal length keep their input
//! order.

use vstd::prelude::*;

use crate::model::CostModel;
use crate::word::chars_of;
use crate::word::word_dist;
use crate::word::word_distance;

verus! {

/// `needle` occurs in `haystack` starting at position `i`.
pub open spec fn contains_at(haystack: Seq<char>, needle: Seq<char>, i: int) -> bool {
    &&& 0 <= i
    &&& i + needle.len() <= haystack.len()
    &&& haystack.subrange(i, i + needle.len()) == needle
}

/// `needle` occurs somewhere in `haystack` as a contiguous run of symbols.
pub open spec fn has_substring(haystack: Seq<char>, needle: Seq<char>) -> bool {
    exists|i: int| contains_at(haystack, needle, i)
}

/// The candidates that contain `needle` as a contiguous substring, in input
/// order.
pub open spec fn matching<'a>(cands: Seq<&'a str>, needle: Seq<char>) -> Seq<&'a str>
    decreases cands.len(),
{
    if cands.len() == 0 {
        Seq::empty()
    } else {
        let rest = matching(cands.drop_last(), needle);
        if has_substring(cands.last()@, needle) {
            rest.push(cands.last())
        } else {
            rest
        }
    }
}

/// `x` placed into `s` directly after every element whose symbol count does
/// not exceed its own: the insertion step of a stable sort by length.
pub open spec fn insert_by_len<'a>(s: Seq<&'a str>, x: &'a str) -> Seq<&'a str>
    decreases s.len(),
{
    if s.len() == 0 {
        seq![x]
    } else if s.last()@.len() <= x@.len() {
        s.push(x)
    } else {
        insert_by_len(s.drop_last(), x).push(s.last())
    }
}

/// `s` sorted by symbol count, ascending and stable: elements of equal
/// length keep their relative order.
pub open spec fn sort_by_len<'a>(s: Seq<&'a str>) -> Seq<&'a str>
    decreases s.len(),
{
    if s.len() == 0 {
        Seq::empty()
    } else {
        insert_by_len(sort_by_len(s.drop_last()), s.last())
    }
}

/// `s` is arranged by symbol count, ascending.
pub open spec fn sorted_by_len(s: Seq<&str>) -> bool {
    forall|i: int, j: int|
        0 <= i <= j < s.len() ==> (#[trigger] s[i])@.len() <= (#[trigger] s[j])@.len()
}

/// Stable insertion keeps the arrangement by length, and adds nothing longer
/// than the longest of the inserted word and the sequence's last.
proof fn lemma_insert_by_len_sorted<'a>(s: Seq<&'a str>, x: &'a str)
    requires
        sorted_by_len(s),
    ensures
        sorted_by_len(insert_by_len(s, x)),
        insert_by_len(s, x).len() == s.len() + 1,
        forall|i: int|
            0 <= i < insert_by_len(s, x).len() ==> ((#[trigger] insert_by_len(s, x)[i])@.len()
                <= x@.len() || (s.len() > 0 && insert_by_len(s, x)[i]@.len()
                <= s.last()@.len())),
    decreases s.len(),
{
    if s.len() == 0 {
    } else if s.last()@.len() <= x@.len() {
    } else {
        let dl = s.drop_last();
        assert(forall|i: int| 0 <= i < dl.len() ==> dl[i] == s[i]);
        lemma_insert_by_len_sorted(dl, x);
    }
}

/// The result of a sort holds what went in: one occurrence for one
/// occurrence.
proof fn lemma_insert_by_len_multiset<'a>(s: Seq<&'a str>, x: &'a str)
    ensures
        insert_by_len(s, x).to_multiset() =~= s.to_multiset().insert(x),
    decreases s.len(),
{
    broadcast use vstd::seq_lib::group_to_multiset_ensures;

    if s.len() == 0 {
        assert(insert_by_len(s, x) =~= Seq::<&'a str>::empty().push(x));
    } else if s.last()@.len() <= x@.len() {
    } else {
        let dl = s.drop_last();
        lemma_insert_by_len_multiset(dl, x);
        assert(s =~= dl.push(s.last()));
        assert(dl.to_multiset().insert(x).insert(s.last()) =~= dl.to_multiset().insert(
            s.last(),
        ).insert(x));
    }
}

/// What `sort_by_len` returns is arranged by symbol count, ascending.
pub proof fn lemma_sort_by_len_sorted(s: Seq<&str>)
    ensures
        sorted_by_len(sort_by_len(s)),
    decreases s.len(),
{
    if s.len() > 0 {
        lemma_sort_by_len_sorted(s.drop_last());
        lemma_insert_by_len_sorted(sort_by_len(s.drop_last()), s.last());
    }
}

/// What `sort_by_len` returns holds exactly the words that went in, with
/// their multiplicities: the sort rearranges and neither drops nor invents.
pub proof fn lemma_sort_by_len_multiset(s: Seq<&str>)
    ensures
        sort_by_len(s).to_multiset() =~= s.to_multiset(),
    decreases s.len(),
{
    broadcast use vstd::seq_lib::group_to_multiset_ensures;

    if s.len() > 0 {
        let dl = s.drop_last();
        lemma_sort_by_len_multiset(dl);
        lemma_insert_by_len_multiset(sort_by_len(dl), s.last());
        assert(s =~= dl.push(s.last()));
    }
}

/// Inserting `x` at the boundary position — everything from `pos` on is
/// strictly longer, and the element before `pos`, if any, is not — is what
/// `insert_by_len` says.
proof fn lemma_insert_by_len_at<'a>(s: Seq<&'a str>, x: &'a str, pos: int)
    requires
        0 <= pos <= s.len(),
        forall|k: int| pos <= k < s.len() ==> (#[trigger] s[k])@.len() > x@.len(),
        pos > 0 ==> s[pos - 1]@.len() <= x@.len(),
    ensures
        insert_by_len(s, x) == s.insert(pos, x),
    decreases s.len(),
{
    if s.len() == 0 {
        assert(insert_by_len(s, x) =~= s.insert(0, x));
    } else if pos == s.len() {
        assert(insert_by_len(s, x) =~= s.insert(pos, x));
    } else {
        assert(s[s.len() - 1]@.len() > x@.len());
        lemma_insert_by_len_at(s.drop_last(), x, pos);
        assert(s.drop_last().insert(pos, x).push(s.last()) =~= s.insert(pos, x));
    }
}

/// Whether `needle` occurs in `haystack` as a contiguous run of symbols.
pub fn contains_str(haystack: &str, needle: &str) -> (b: bool)
    ensures
        b == has_substring(haystack@, needle@),
{
    let h = chars_of(haystack);
    let n = chars_of(needle);
    let hl = h.len();
    let nl = n.len();
    if nl > hl {
        return false;
    }
    let mut i: usize = 0;
    while i <= hl - nl
        invariant
            h@ == haystack@,
            n@ == needle@,
            hl == h@.len(),
            nl == n@.len(),
            nl <= hl,
            0 <= i <= hl - nl + 1,
            forall|ii: int| 0 <= ii < i ==> !contains_at(haystack@, needle@, ii),
        decreases hl - nl + 1 - i,
    {
        let mut j: usize = 0;
        while j < nl && h[i + j] == n[j]
            invariant
                h@ == haystack@,
                n@ == needle@,
                hl == h@.len(),
                nl == n@.len(),
                0 <= i <= hl - nl,
                0 <= j <= nl,
                forall|k: int| 0 <= k < j ==> h@[i + k] == n@[k],
            decreases nl - j,
        {
            j = j + 1;
        }
        if j == nl {
            proof {
                assert(haystack@.subrange(i as int, i + nl) =~= needle@);
                assert(contains_at(haystack@, needle@, i as int));
            }
            return true;
        }
        proof {
            assert(!contains_at(haystack@, needle@, i as int)) by {
                if contains_at(haystack@, needle@, i as int) {
                    assert(haystack@.subrange(i as int, i + nl)[j as int] == needle@[j as int]);
                }
            }
        }
        i = i + 1;
    }
    proof {
        assert(!has_substring(haystack@, needle@)) by {
            if has_substring(haystack@, needle@) {
                let w = choose|ii: int| contains_at(haystack@, needle@, ii);
                assert(!contains_at(haystack@, needle@, w));
            }
        }
    }
    false
}

/// The candidate most similar to `input_param`: scanning in order, a
/// candidate is kept only when its word distance strictly improves on the
/// best seen, so the first candidate of least distance wins. When no
/// candidate improves on the greatest machine integer — in particular when
/// there is no candidate — the result is the empty word.
pub fn get_similar_word<'a, M: CostModel>(
    model: &M,
    input_param: &str,
    candidates: &Vec<&'a str>,
) -> (r: &'a str)
    requires
        model.wf(),
        forall|k: int|
            0 <= k < candidates@.len() ==> input_param@.len() + (#[trigger] candidates@[k])@.len()
                < usize::MAX,
        forall|k: int|
            0 <= k < candidates@.len() ==> (input_param@.len() + (
            #[trigger] candidates@[k])@.len()) * model.max_spec() <= usize::MAX,
    ensures
        (forall|k: int|
            0 <= k < candidates@.len() ==> word_dist(model, input_param@, (
            #[trigger] candidates@[k])@) >= usize::MAX) ==> r@ == Seq::<char>::empty(),
        (exists|k: int|
            0 <= k < candidates@.len() && word_dist(model, input_param@, (
            #[trigger] candidates@[k])@) < usize::MAX) ==> (exists|j: int|
            {
                &&& 0 <= j < candidates@.len()
                &&& r == candidates@[j]
                &&& forall|k: int|
                    0 <= k < candidates@.len() ==> word_dist(model, input_param@, (
                    #[trigger] candidates@[k])@) >= word_dist(model, input_param@, candidates@[j]@)
                &&& forall|k: int|
                    0 <= k < j ==> word_dist(model, input_param@, (#[trigger] candidates@[k])@)
                        > word_dist(model, input_param@, candidates@[j]@)
            }),
{
    let mut best: &'a str = "";
    let mut best_d: usize = usize::MAX;
    let ghost mut best_j: int = -1;
    proof {
        reveal_strlit("");
    }
    let mut i: usize = 0;
    while i < candidates.len()
        invariant
            model.wf(),
            forall|k: int|
                0 <= k < candidates@.len() ==> input_param@.len() + (
                #[trigger] candidates@[k])@.len() < usize::MAX,
            forall|k: int|
                0 <= k < candidates@.len() ==> (input_param@.len() + (
                #[trigger] candidates@[k])@.len()) * model.max_spec() <= usize::MAX,
            0 <= i <= candidates@.len(),
            best_j == -1 ==> {
                &&& best_d == usize::MAX
                &&& best@ == Seq::<char>::empty()
                &&& forall|k: int|
                    0 <= k < i ==> word_dist(model, input_param@, (#[trigger] candidates@[k])@)
                        >= usize::MAX
            },
            best_j != -1 ==> {
                &&& 0 <= best_j < i
                &&& best == candidates@[best_j]
                &&& best_d == word_dist(model, input_param@, candidates@[best_j]@)
                &&& best_d < usize::MAX
                &&& forall|k: int|
                    0 <= k < i ==> word_dist(model, input_param@, (#[trigger] candidates@[k])@)
                        >= best_d
                &&& forall|k: int|
                    0 <= k < best_j ==> word_dist(model, input_param@, (
                    #[trigger] candidates@[k])@) > best_d
            },
        decreases candidates@.len() - i,
    {
        let candidate = candidates[i];
        let d = word_distance(model, input_param, candidate);
        if d < best_d {
            best = candidate;
            best_d = d;
            proof {
                best_j = i as int;
            }
        }
        i = i + 1;
    }
    best
}

/// The candidates that contain `matching_string` as a contiguous substring,
/// sorted by symbol count, ascending and stable.
pub fn partial_match<'a>(candidates: &Vec<&'a str>, matching_string: &str) -> (r: Vec<&'a str>)
    ensures
        r@ == sort_by_len(matching(candidates@, matching_string@)),
{
    let mut kept: Vec<&'a str> = Vec::new();
    let mut i: usize = 0;
    while i < candidates.len()
        invariant
            0 <= i <= candidates@.len(),
            kept@ == matching(candidates@.take(i as int), matching_string@),
        decreases candidates@.len() - i,
    {
        let candidate = candidates[i];
        proof {
            assert(candidates@.take(i + 1).drop_last() =~= candidates@.take(i as int));
            assert(candidates@.take(i + 1).last() == candidates@[i as int]);
        }
        if contains_str(candidate, matching_string) {
            kept.push(candidate);
        }
        i = i + 1;
    }
    proof {
        assert(candidates@.take(candidates@.len() as int) =~= candidates@);
    }
    let mut result: Vec<&'a str> = Vec::new();
    let mut idx: usize = 0;
    while idx < kept.len()
        invariant
            0 <= idx <= kept@.len(),
            kept@ == matching(candidates@, matching_string@),
            result@ == sort_by_len(kept@.take(idx as int)),
        decreases kept@.len() - idx,
    {
        let x = kept[idx];
        let xlen = x.unicode_len();
        let mut pos: usize = result.len();
        while pos > 0 && result[pos - 1].unicode_len() > xlen
            invariant
                0 <= pos <= result@.len(),
                xlen == x@.len(),
                forall|k: int| pos <= k < result@.len() ==> (#[trigger] result@[k])@.len() > x@.len(),
            decreases pos,
        {
            pos = pos - 1;
        }
        let ghost before = result@;
        result.insert(pos, x);
        proof {
            lemma_insert_by_len_at(before, x, pos as int);
            assert(kept@.take(idx + 1).drop_last() =~= kept@.take(idx as int));
            assert(kept@.take(idx + 1).last() == kept@[idx as int]);
        }
        idx = idx + 1;
    }
    proof {
        assert(kept@.take(kept@.len() as int) =~= kept@);
    }
    result
}

} // verus!
