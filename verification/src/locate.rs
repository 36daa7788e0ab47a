//! Cross-run placeholder location: builds one search buffer per entry by
//! concatenating the span texts, maps every buffer offset back to its span,
//! and finds the left-to-right, non-overlapping occurrences of each token in
//! the pristine buffer.

use vstd::prelude::*;
use crate::find::{first_match_from, lemma_first_match_from, match_at, find_from};
use crate::spans::{span_texts, TextSpan};

verus! {

/// The span texts from index `i` on, concatenated in span order.
pub open spec fn concat_from(texts: Seq<Seq<char>>, i: int) -> Seq<char>
    decreases texts.len() - i,
{
    if i < 0 || i >= texts.len() {
        Seq::empty()
    } else {
        texts[i] + concat_from(texts, i + 1)
    }
}

/// The search buffer of an entry: all span texts concatenated in span order.
pub open spec fn concat_texts(texts: Seq<Seq<char>>) -> Seq<char> {
    concat_from(texts, 0)
}

/// For every buffer offset, the owning span index and the local offset
/// within that span, for spans from index `i` on.
pub open spec fn offset_map_from(texts: Seq<Seq<char>>, i: int) -> Seq<(int, int)>
    decreases texts.len() - i,
{
    if i < 0 || i >= texts.len() {
        Seq::empty()
    } else {
        Seq::new(texts[i].len(), |j: int| (i, j)) + offset_map_from(texts, i + 1)
    }
}

/// The dense position map of the whole search buffer.
pub open spec fn offset_map(texts: Seq<Seq<char>>) -> Seq<(int, int)> {
    offset_map_from(texts, 0)
}

/// The position map has one entry per buffer character; each entry names a
/// real span, a local offset inside it, and the character it stands for;
/// span indices never decrease along the buffer.
pub proof fn lemma_offset_map_wf(texts: Seq<Seq<char>>, i: int)
    requires
        0 <= i <= texts.len(),
    ensures
        offset_map_from(texts, i).len() == concat_from(texts, i).len(),
        forall|k: int|
            0 <= k < offset_map_from(texts, i).len() ==> {
                &&& i <= #[trigger] offset_map_from(texts, i)[k].0 < texts.len()
                &&& 0 <= offset_map_from(texts, i)[k].1 < texts[offset_map_from(
                    texts,
                    i,
                )[k].0].len()
                &&& concat_from(texts, i)[k] == texts[offset_map_from(texts, i)[k].0][
                    offset_map_from(texts, i)[k].1]
            },
        forall|k1: int, k2: int|
            0 <= k1 <= k2 < offset_map_from(texts, i).len() ==> #[trigger] offset_map_from(
                texts,
                i,
            )[k1].0 <= #[trigger] offset_map_from(texts, i)[k2].0,
    decreases texts.len() - i,
{
    if i < texts.len() {
        lemma_offset_map_wf(texts, i + 1);
        let m = offset_map_from(texts, i);
        let head: Seq<(int, int)> = Seq::new(texts[i].len(), |j: int| (i, j));
        let tailm = offset_map_from(texts, i + 1);
        let tailc = concat_from(texts, i + 1);
        assert(m == head + tailm);
        assert(concat_from(texts, i) == texts[i] + tailc);
        assert forall|k: int| 0 <= k < m.len() implies {
            &&& i <= #[trigger] m[k].0 < texts.len()
            &&& 0 <= m[k].1 < texts[m[k].0].len()
            &&& concat_from(texts, i)[k] == texts[m[k].0][m[k].1]
        } by {
            if k >= head.len() {
                assert(m[k] == tailm[k - head.len()]);
                assert(concat_from(texts, i)[k] == tailc[k - texts[i].len()]);
            }
        }
        assert forall|k1: int, k2: int|
            0 <= k1 <= k2 < m.len() implies #[trigger] m[k1].0 <= #[trigger] m[k2].0 by {
            if k1 >= head.len() {
                assert(m[k1] == tailm[k1 - head.len()]);
            }
            if k2 >= head.len() {
                assert(m[k2] == tailm[k2 - head.len()]);
            }
        }
    }
}

/// The span-and-offset pairs of the executable position map, as ghost pairs.
pub open spec fn pairs_as_ints(s: Seq<(usize, usize)>) -> Seq<(int, int)> {
    s.map_values(|p: (usize, usize)| (p.0 as int, p.1 as int))
}

/// Concatenates the texts of all spans into the entry's search buffer.
pub fn build_buffer(spans: &Vec<TextSpan>) -> (buf: Vec<char>)
    ensures
        buf@ == concat_texts(span_texts(spans@)),
{
    let ghost texts = span_texts(spans@);
    let mut buf: Vec<char> = Vec::new();
    let mut si: usize = 0;
    while si < spans.len()
        invariant
            0 <= si <= spans@.len(),
            texts == span_texts(spans@),
            buf@ + concat_from(texts, si as int) == concat_texts(texts),
        decreases spans@.len() - si,
    {
        let text = &spans[si].text;
        let mut k: usize = 0;
        while k < text.len()
            invariant
                0 <= si < spans@.len(),
                0 <= k <= text@.len(),
                texts == span_texts(spans@),
                text@ == texts[si as int],
                buf@ + text@.subrange(k as int, text@.len() as int) + concat_from(
                    texts,
                    si + 1,
                ) == concat_texts(texts),
            decreases text@.len() - k,
        {
            let ghost prev = buf@;
            buf.push(text[k]);
            proof {
                assert(buf@ + text@.subrange(k + 1, text@.len() as int) =~= prev + text@.subrange(
                    k as int,
                    text@.len() as int,
                ));
            }
            k = k + 1;
        }
        proof {
            assert(concat_from(texts, si as int) == texts[si as int] + concat_from(
                texts,
                si + 1,
            ));
            assert(buf@ + concat_from(texts, si + 1) =~= (buf@.subrange(
                0,
                buf@.len() - texts[si as int].len(),
            ) + concat_from(texts, si as int)));
        }
        si = si + 1;
    }
    proof {
        assert(buf@ =~= buf@ + concat_from(texts, texts.len() as int));
    }
    buf
}

/// Builds the dense position map from buffer offsets to span-local offsets.
pub fn build_offset_map(spans: &Vec<TextSpan>) -> (map: Vec<(usize, usize)>)
    ensures
        pairs_as_ints(map@) == offset_map(span_texts(spans@)),
{
    let ghost texts = span_texts(spans@);
    let mut map: Vec<(usize, usize)> = Vec::new();
    let mut si: usize = 0;
    while si < spans.len()
        invariant
            0 <= si <= spans@.len(),
            texts == span_texts(spans@),
            pairs_as_ints(map@) + offset_map_from(texts, si as int) == offset_map(texts),
        decreases spans@.len() - si,
    {
        let tn: usize = spans[si].text.len();
        let mut k: usize = 0;
        while k < tn
            invariant
                0 <= si < spans@.len(),
                0 <= k <= tn,
                texts == span_texts(spans@),
                tn == texts[si as int].len(),
                pairs_as_ints(map@) + Seq::new((tn - k) as nat, |j: int| (si as int, k + j))
                    + offset_map_from(texts, si + 1) == offset_map(texts),
            decreases tn - k,
        {
            let ghost prev = map@;
            map.push((si, k));
            proof {
                assert(pairs_as_ints(map@) =~= pairs_as_ints(prev).push((si as int, k as int)));
                assert(pairs_as_ints(map@) + Seq::new((tn - k - 1) as nat, |j: int| (si as int, k + 1 + j))
                    =~= pairs_as_ints(prev) + Seq::new((tn - k) as nat, |j: int| (si as int, k + j)));
            }
            k = k + 1;
        }
        proof {
            assert(offset_map_from(texts, si as int) == Seq::new(
                texts[si as int].len(),
                |j: int| (si as int, j),
            ) + offset_map_from(texts, si + 1));
            assert(Seq::new((tn - tn) as nat, |j: int| (si as int, tn + j)) =~= Seq::<(int, int)>::empty());
            assert(pairs_as_ints(map@) + Seq::new((tn - tn) as nat, |j: int| (si as int, tn + j))
                + offset_map_from(texts, si + 1) =~= pairs_as_ints(map@) + offset_map_from(
                texts,
                si + 1,
            ));
        }
        si = si + 1;
    }
    proof {
        assert(pairs_as_ints(map@) + offset_map_from(texts, texts.len() as int) =~= pairs_as_ints(
            map@,
        ));
    }
    map
}

/// The left-to-right, non-overlapping occurrences of `tok` in the pristine
/// buffer at or after `from`: after each match the scan resumes exactly at
/// the match's end. An empty token never matches.
pub open spec fn token_matches(buf: Seq<char>, tok: Seq<char>, from: int) -> Seq<int>
    recommends
        0 <= from,
    decreases buf.len() - from
        via token_matches_decreases
{
    if from < 0 || tok.len() == 0 {
        Seq::empty()
    } else {
        match first_match_from(buf, tok, from) {
            Option::None => Seq::empty(),
            Option::Some(m) => seq![m] + token_matches(buf, tok, m + tok.len()),
        }
    }
}

#[via_fn]
proof fn token_matches_decreases(buf: Seq<char>, tok: Seq<char>, from: int) {
    if from >= 0 && tok.len() > 0 {
        if let Some(m) = first_match_from(buf, tok, from) {
            lemma_first_match_from(buf, tok, from);
        }
    }
}

/// Matches are real occurrences, in ascending order, non-overlapping, and
/// inside the buffer.
pub proof fn lemma_token_matches_wf(buf: Seq<char>, tok: Seq<char>, from: int)
    requires
        0 <= from,
        tok.len() > 0,
    ensures
        forall|j: int|
            0 <= j < token_matches(buf, tok, from).len() ==> {
                &&& from <= #[trigger] token_matches(buf, tok, from)[j]
                &&& match_at(buf, tok, token_matches(buf, tok, from)[j])
            },
        forall|j1: int, j2: int|
            0 <= j1 < j2 < token_matches(buf, tok, from).len() ==> #[trigger] token_matches(
                buf,
                tok,
                from,
            )[j1] + tok.len() <= #[trigger] token_matches(buf, tok, from)[j2],
    decreases buf.len() - from,
{
    if let Some(m) = first_match_from(buf, tok, from) {
        lemma_first_match_from(buf, tok, from);
        lemma_token_matches_wf(buf, tok, m + tok.len());
        let ms = token_matches(buf, tok, from);
        let tail = token_matches(buf, tok, m + tok.len());
        assert(ms == seq![m] + tail);
        assert forall|j: int| 0 <= j < ms.len() implies {
            &&& from <= #[trigger] ms[j]
            &&& match_at(buf, tok, ms[j])
        } by {
            if j > 0 {
                assert(ms[j] == tail[j - 1]);
            }
        }
        assert forall|j1: int, j2: int|
            0 <= j1 < j2 < ms.len() implies #[trigger] ms[j1] + tok.len() <= #[trigger] ms[j2] by {
            assert(ms[j2] == tail[j2 - 1]);
            if j1 > 0 {
                assert(ms[j1] == tail[j1 - 1]);
            }
        }
    }
}

/// Every occurrence of the token in the pristine buffer at or after `from`
/// overlaps one of the selected matches: no occurrence is passed over whole.
pub proof fn lemma_matches_cover(buf: Seq<char>, tok: Seq<char>, from: int, p: int)
    requires
        tok.len() > 0,
        0 <= from <= p,
        match_at(buf, tok, p),
    ensures
        exists|j: int|
            0 <= j < token_matches(buf, tok, from).len() && (#[trigger] token_matches(
                buf,
                tok,
                from,
            )[j]) <= p < token_matches(buf, tok, from)[j] + tok.len(),
    decreases buf.len() - from,
{
    lemma_first_match_from(buf, tok, from);
    let ms = token_matches(buf, tok, from);
    let m = first_match_from(buf, tok, from)->Some_0;
    let tail = token_matches(buf, tok, m + tok.len());
    assert(ms == seq![m] + tail);
    if p < m + tok.len() {
        assert(ms[0] == m);
        assert(m <= p);
    } else {
        lemma_matches_cover(buf, tok, m + tok.len(), p);
        let j = choose|j: int|
            0 <= j < tail.len() && (#[trigger] tail[j]) <= p < tail[j] + tok.len();
        assert(ms[j + 1] == tail[j]);
    }
}

/// The match positions found by the scanner, smallest first.
pub fn find_token_matches(buf: &Vec<char>, tok: &Vec<char>) -> (ms: Vec<usize>)
    requires
        tok@.len() > 0,
    ensures
        ms@.map_values(|x: usize| x as int) == token_matches(buf@, tok@, 0),
{
    let bn: usize = buf.len();
    let mut ms: Vec<usize> = Vec::new();
    let mut start: usize = 0;
    loop
        invariant
            0 <= start,
            tok@.len() > 0,
            bn == buf@.len(),
            ms@.map_values(|x: usize| x as int) + token_matches(buf@, tok@, start as int)
                == token_matches(buf@, tok@, 0),
        decreases buf@.len() + tok@.len() - start,
    {
        let m = match find_from(buf, tok, start) {
            Option::Some(m) => m,
            Option::None => {
                proof {
                    assert(ms@.map_values(|x: usize| x as int) + token_matches(
                        buf@,
                        tok@,
                        start as int,
                    ) =~= ms@.map_values(|x: usize| x as int));
                }
                return ms;
            },
        };
        proof {
            lemma_first_match_from(buf@, tok@, start as int);
            assert(m + tok@.len() <= buf@.len());
        }
        let ghost prev = ms@;
        ms.push(m);
        proof {
            assert(ms@.map_values(|x: usize| x as int) =~= prev.map_values(|x: usize| x as int)
                .push(m as int));
            assert(token_matches(buf@, tok@, start as int) == seq![m as int] + token_matches(
                buf@,
                tok@,
                m + tok@.len(),
            ));
            assert(prev.map_values(|x: usize| x as int) + token_matches(buf@, tok@, start as int)
                =~= ms@.map_values(|x: usize| x as int) + token_matches(
                buf@,
                tok@,
                m + tok@.len(),
            ));
        }
        start = m + tok.len();
    }
}

} // verus!
