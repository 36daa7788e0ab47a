//! Substring search over character sequences: the primitive that both the
//! span extractor and the placeholder locator are built on.

use vstd::prelude::*;

verus! {

/// The needle `tok` occurs in `hay` starting exactly at position `i`.
pub open spec fn match_at(hay: Seq<char>, tok: Seq<char>, i: int) -> bool {
    &&& 0 <= i
    &&& i + tok.len() <= hay.len()
    &&& hay.subrange(i, i + tok.len()) == tok
}

/// The position of the leftmost occurrence of `tok` in `hay` at or after
/// `from`, or `None` if there is none.
pub open spec fn first_match_from(hay: Seq<char>, tok: Seq<char>, from: int) -> Option<int>
    recommends
        0 <= from,
    decreases hay.len() + tok.len() - from,
{
    if from < 0 || from + tok.len() > hay.len() {
        None
    } else if match_at(hay, tok, from) {
        Some(from)
    } else if from >= hay.len() {
        None
    } else {
        first_match_from(hay, tok, from + 1)
    }
}

/// What `first_match_from` returns is a match, lies at or after `from`, and
/// nothing before it at or after `from` matches; a `None` means nothing at or
/// after `from` matches.
pub proof fn lemma_first_match_from(hay: Seq<char>, tok: Seq<char>, from: int)
    requires
        0 <= from,
    ensures
        first_match_from(hay, tok, from) matches Some(m) ==> {
            &&& from <= m
            &&& match_at(hay, tok, m)
            &&& forall|j: int| from <= j < m ==> !match_at(hay, tok, j)
        },
        first_match_from(hay, tok, from) is None ==> forall|j: int|
            from <= j ==> !match_at(hay, tok, j),
    decreases hay.len() + tok.len() - from,
{
    if from + tok.len() > hay.len() {
    } else if match_at(hay, tok, from) {
    } else if from >= hay.len() {
    } else {
        lemma_first_match_from(hay, tok, from + 1);
    }
}

/// Compares `hay[i .. i + tok.len())` against `tok`.
pub fn is_match_at(hay: &Vec<char>, tok: &Vec<char>, i: usize) -> (r: bool)
    requires
        i + tok@.len() <= hay@.len(),
    ensures
        r == match_at(hay@, tok@, i as int),
{
    let hn: usize = hay.len();
    let mut k: usize = 0;
    while k < tok.len()
        invariant
            i + tok@.len() <= hay@.len(),
            hn == hay@.len(),
            0 <= k <= tok@.len(),
            forall|j: int| 0 <= j < k ==> hay@[i + j] == tok@[j],
        decreases tok@.len() - k,
    {
        if hay[i + k] != tok[k] {
            assert(hay@.subrange(i as int, i + tok@.len())[k as int] != tok@[k as int]);
            return false;
        }
        k = k + 1;
    }
    assert(hay@.subrange(i as int, i + tok@.len()) =~= tok@);
    true
}

/// The leftmost occurrence of `tok` in `hay` at or after `from`.
pub fn find_from(hay: &Vec<char>, tok: &Vec<char>, from: usize) -> (r: Option<usize>)
    requires
        tok@.len() >= 1,
    ensures
        r matches Some(m) ==> first_match_from(hay@, tok@, from as int) == Some(m as int),
        r is None ==> first_match_from(hay@, tok@, from as int) is None,
{
    if tok.len() > hay.len() {
        return None;
    }
    let hn: usize = hay.len();
    let last: usize = hay.len() - tok.len();
    let mut i: usize = from;
    loop
        invariant
            from <= i,
            1 <= tok@.len() <= hay@.len(),
            hn == hay@.len(),
            last == hay@.len() - tok@.len(),
            first_match_from(hay@, tok@, from as int) == first_match_from(hay@, tok@, i as int),
        decreases hay@.len() + tok@.len() - i,
    {
        if i > last {
            return None;
        }
        if is_match_at(hay, tok, i) {
            return Some(i);
        }
        i = i + 1;
    }
}

} // verus!
