//! Span rewriting: sorts each span's edits by descending start offset,
//! applies them to the span's text, and splices the rewritten texts back
//! into the entry, last span first, so that no applied edit ever shifts the
//! coordinates an unapplied one depends on.

use vstd::prelude::*;
use crate::plan::{op_view, op_views, EditOp};
use crate::spans::TextSpan;
use crate::text::{copy_range, splice, splice_range};

verus! {

/// Inserts `x` into a list sorted by descending start offset, after every
/// edit whose start is at least as large, so equal starts keep their order.
pub open spec fn insert_desc(
    s: Seq<(int, int, Seq<char>)>,
    x: (int, int, Seq<char>),
) -> Seq<(int, int, Seq<char>)>
    decreases s.len(),
{
    if s.len() == 0 {
        seq![x]
    } else if s[0].0 >= x.0 {
        seq![s[0]] + insert_desc(s.drop_first(), x)
    } else {
        seq![x] + s
    }
}

/// The stable sort of the edits by descending start offset: edits are taken
/// in list order and each is inserted after those with an equal start.
pub open spec fn sort_desc(s: Seq<(int, int, Seq<char>)>) -> Seq<(int, int, Seq<char>)>
    decreases s.len(),
{
    if s.len() == 0 {
        Seq::empty()
    } else {
        insert_desc(sort_desc(s.drop_last()), s.last())
    }
}

/// Applies the edits to the text in list order, clamping each edit's range
/// to the text it meets.
pub open spec fn apply_ops(text: Seq<char>, ops: Seq<(int, int, Seq<char>)>) -> Seq<char>
    decreases ops.len(),
{
    if ops.len() == 0 {
        text
    } else {
        apply_ops(splice(text, ops[0].0, ops[0].1, ops[0].2), ops.drop_first())
    }
}

/// Splices `texts[k-1]` over `ranges[k-1]`, then `texts[k-2]` over
/// `ranges[k-2]`, and so on down to the first range: the rewritten texts of
/// the first `k` spans written back in descending range order.
pub open spec fn write_back_upto(
    xml: Seq<char>,
    ranges: Seq<(int, int)>,
    texts: Seq<Seq<char>>,
    k: int,
) -> Seq<char>
    decreases k,
{
    if k <= 0 {
        xml
    } else {
        write_back_upto(splice(xml, ranges[k - 1].0, ranges[k - 1].1, texts[k - 1]), ranges, texts, k - 1)
    }
}

/// Where `insert_desc` puts the new edit: right before the first edit whose
/// start is smaller.
proof fn lemma_insert_desc_at(s: Seq<(int, int, Seq<char>)>, x: (int, int, Seq<char>), idx: int)
    requires
        0 <= idx <= s.len(),
        forall|k: int| 0 <= k < idx ==> (#[trigger] s[k]).0 >= x.0,
        idx < s.len() ==> s[idx].0 < x.0,
    ensures
        insert_desc(s, x) == s.subrange(0, idx) + seq![x] + s.subrange(idx, s.len() as int),
    decreases s.len(),
{
    if s.len() == 0 {
        assert(insert_desc(s, x) =~= s.subrange(0, idx) + seq![x] + s.subrange(idx, s.len() as int));
    } else if idx == 0 {
        assert(s[0].0 < x.0);
        assert(insert_desc(s, x) =~= s.subrange(0, 0) + seq![x] + s.subrange(0, s.len() as int));
    } else {
        assert(s[0].0 >= x.0);
        let tail = s.drop_first();
        assert forall|k: int| 0 <= k < idx - 1 implies (#[trigger] tail[k]).0 >= x.0 by {
            assert(tail[k] == s[k + 1]);
        }
        if idx - 1 < tail.len() {
            assert(tail[idx - 1] == s[idx]);
        }
        lemma_insert_desc_at(tail, x, idx - 1);
        assert(insert_desc(s, x) =~= s.subrange(0, idx) + seq![x] + s.subrange(
            idx,
            s.len() as int,
        ));
    }
}

/// Sorts the edits of one span by descending start offset, stably.
pub fn sort_ops(mut ops: Vec<EditOp>) -> (r: Vec<EditOp>)
    ensures
        op_views(r@) == sort_desc(op_views(ops@)),
{
    let ghost orig = ops@;
    let total: usize = ops.len();
    let mut r: Vec<EditOp> = Vec::new();
    let mut taken: usize = 0;
    while ops.len() > 0
        invariant
            total == orig.len(),
            taken + ops@.len() == orig.len(),
            ops@ == orig.skip(taken as int),
            op_views(r@) == sort_desc(op_views(orig.take(taken as int))),
        decreases ops@.len(),
    {
        let op = ops.remove(0);
        proof {
            assert(op == orig[taken as int]);
            assert(orig.skip(taken as int).remove(0) =~= orig.skip(taken + 1));
        }
        let mut idx: usize = 0;
        while idx < r.len() && r[idx].start >= op.start
            invariant
                0 <= idx <= r@.len(),
                forall|k: int| 0 <= k < idx ==> (#[trigger] op_views(r@)[k]).0 >= op.start,
            decreases r@.len() - idx,
        {
            proof {
                assert(op_views(r@)[idx as int] == op_view(r@[idx as int]));
            }
            idx = idx + 1;
        }
        let ghost sorted_prev = op_views(r@);
        proof {
            if idx < r@.len() {
                assert(op_views(r@)[idx as int] == op_view(r@[idx as int]));
            }
            lemma_insert_desc_at(sorted_prev, op_view(op), idx as int);
        }
        r.insert(idx, op);
        proof {
            assert(op_views(r@) =~~= sorted_prev.subrange(0, idx as int) + seq![op_view(op)]
                + sorted_prev.subrange(idx as int, sorted_prev.len() as int));
            assert(orig.take(taken + 1).drop_last() =~= orig.take(taken as int));
            assert(orig.take(taken + 1).last() == orig[taken as int]);
            assert(op_views(orig.take(taken + 1)) =~~= op_views(orig.take(taken as int)).push(
                op_view(orig[taken as int]),
            ));
            assert(op_views(orig.take(taken + 1)).drop_last() =~~= op_views(
                orig.take(taken as int),
            ));
            assert(op_views(orig.take(taken + 1)).last() == op_view(orig[taken as int]));
            assert(sort_desc(op_views(orig.take(taken + 1))) == insert_desc(
                sort_desc(op_views(orig.take(taken as int))),
                op_view(orig[taken as int]),
            ));
        }
        taken = taken + 1;
    }
    proof {
        assert(orig.take(taken as int) =~= orig);
    }
    r
}

/// Applies the already-sorted edits of one span to its text.
pub fn apply_edits(text: &Vec<char>, ops: &Vec<EditOp>) -> (r: Vec<char>)
    ensures
        r@ == apply_ops(text@, op_views(ops@)),
{
    let mut cur = copy_range(text, 0, text.len());
    proof {
        assert(cur@ =~= text@);
        assert(op_views(ops@).skip(0) =~= op_views(ops@));
    }
    let mut k: usize = 0;
    while k < ops.len()
        invariant
            0 <= k <= ops@.len(),
            apply_ops(cur@, op_views(ops@).skip(k as int)) == apply_ops(text@, op_views(ops@)),
        decreases ops@.len() - k,
    {
        let op = &ops[k];
        proof {
            assert(op_views(ops@).skip(k as int)[0] == op_view(ops@[k as int]));
            assert(op_views(ops@).skip(k as int).drop_first() =~= op_views(ops@).skip(k + 1));
        }
        cur = splice_range(&cur, op.start, op.end, &op.replacement);
        k = k + 1;
    }
    proof {
        assert(op_views(ops@).skip(ops@.len() as int) =~= Seq::<(int, int, Seq<char>)>::empty());
    }
    cur
}

/// Writes the rewritten span texts back into the entry, last span first.
pub fn write_back(xml: &Vec<char>, spans: &Vec<TextSpan>, new_texts: &Vec<Vec<char>>) -> (r: Vec<
    char,
>)
    requires
        new_texts@.len() == spans@.len(),
    ensures
        r@ == write_back_upto(
            xml@,
            crate::spans::span_ranges(spans@),
            new_texts@.map_values(|t: Vec<char>| t@),
            spans@.len() as int,
        ),
{
    let ghost ranges = crate::spans::span_ranges(spans@);
    let ghost texts = new_texts@.map_values(|t: Vec<char>| t@);
    let mut cur = copy_range(xml, 0, xml.len());
    proof {
        assert(cur@ =~= xml@);
    }
    let mut k: usize = spans.len();
    while k > 0
        invariant
            0 <= k <= spans@.len(),
            new_texts@.len() == spans@.len(),
            ranges == crate::spans::span_ranges(spans@),
            texts == new_texts@.map_values(|t: Vec<char>| t@),
            write_back_upto(cur@, ranges, texts, k as int) == write_back_upto(
                xml@,
                ranges,
                texts,
                spans@.len() as int,
            ),
        decreases k,
    {
        let span = &spans[k - 1];
        let nt = &new_texts[k - 1];
        proof {
            assert(ranges[k - 1] == (span.start as int, span.end as int));
            assert(texts[k - 1] == nt@);
        }
        cur = splice_range(&cur, span.start, span.end, nt);
        k = k - 1;
    }
    cur
}

} // verus!
