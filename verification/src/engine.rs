//! The placeholder-substitution engine for one XML entry: extract the text
//! runs, locate every binding's occurrences across them, plan the edits, and
//! rewrite exactly the affected ranges, leaving all other characters as they
//! were.

use vstd::prelude::*;
use crate::find::match_at;
use crate::locate::{build_buffer, build_offset_map, concat_texts, offset_map, token_matches, lemma_matches_cover};
use crate::plan::{binding_views, empty_plan, op_views, plan_bindings, plan_views, seq_lens, plan_edits};
use crate::rewrite::{apply_ops, sort_desc, write_back_upto, sort_ops, apply_edits, write_back};
use crate::spans::{scan_spans, span_ranges, span_texts, extract_spans, lemma_scan_spans_wf};
use crate::text::{splice, str_to_chars, chars_to_string};

verus! {

/// The text of each span range, read out of the entry.
pub open spec fn texts_of(xml: Seq<char>, ranges: Seq<(int, int)>) -> Seq<Seq<char>> {
    ranges.map_values(|r: (int, int)| xml.subrange(r.0, r.1))
}

/// The planned edits of every run of the entry, one edit list per run.
pub open spec fn run_plan(xml: Seq<char>, binds: Seq<(Seq<char>, Seq<char>)>) -> Seq<
    Seq<(int, int, Seq<char>)>,
> {
    let texts = texts_of(xml, scan_spans(xml, 0));
    plan_bindings(
        empty_plan(texts.len() as int),
        offset_map(texts),
        seq_lens(texts),
        concat_texts(texts),
        binds,
    )
}

/// The text of each run after its edits are applied.
pub open spec fn rewritten_run_texts(xml: Seq<char>, binds: Seq<(Seq<char>, Seq<char>)>) -> Seq<
    Seq<char>,
> {
    let ranges = scan_spans(xml, 0);
    let texts = texts_of(xml, ranges);
    Seq::new(ranges.len(), |i: int| apply_ops(texts[i], sort_desc(run_plan(xml, binds)[i])))
}

/// What substitution does to one entry's characters: every occurrence of a
/// binding's token across the extracted runs is replaced by the binding's
/// value; an entry without text runs is returned unchanged.
pub open spec fn replace_chars(xml: Seq<char>, binds: Seq<(Seq<char>, Seq<char>)>) -> Seq<char> {
    let ranges = scan_spans(xml, 0);
    if ranges.len() == 0 {
        xml
    } else {
        write_back_upto(xml, ranges, rewritten_run_texts(xml, binds), ranges.len() as int)
    }
}

/// Replaces every occurrence of every binding's token in the text runs of
/// the given XML, tolerating tokens split across adjacent runs.
pub fn replace_placeholders_in_xml(xml: &str, replacements: &Vec<(String, String)>) -> (r: String)
    ensures
        r@ == replace_chars(xml@, binding_views(replacements@)),
{
    let chars = str_to_chars(xml);
    let spans = extract_spans(&chars);
    let ghost ranges = scan_spans(xml@, 0);
    proof {
        assert(span_ranges(spans@).len() == spans@.len());
    }
    if spans.len() == 0 {
        return chars_to_string(&chars);
    }
    let ghost texts = texts_of(xml@, ranges);
    proof {
        assert forall|k: int| 0 <= k < spans@.len() implies span_texts(spans@)[k] == texts[k] by {
            assert(span_ranges(spans@)[k] == (spans@[k].start as int, spans@[k].end as int));
            assert(spans@[k].text@ == xml@.subrange(spans@[k].start as int, spans@[k].end as int));
        }
        assert(span_texts(spans@) =~= texts);
    }
    let buf = build_buffer(&spans);
    let map = build_offset_map(&spans);
    let mut plan = plan_edits(&spans, &buf, &map, replacements);
    let ghost planv = plan_views(plan@);
    proof {
        assert(planv.skip(0) =~= planv);
    }
    let n: usize = spans.len();
    let mut new_texts: Vec<Vec<char>> = Vec::new();
    let mut k: usize = 0;
    while k < n
        invariant
            0 <= k <= n,
            n == spans@.len(),
            planv.len() == n,
            plan@.len() == n - k,
            plan_views(plan@) == planv.skip(k as int),
            new_texts@.len() == k,
            forall|i: int|
                0 <= i < k ==> #[trigger] new_texts@[i]@ == apply_ops(
                    span_texts(spans@)[i],
                    sort_desc(planv[i]),
                ),
        decreases n - k,
    {
        let ghost before = plan@;
        let ops = plan.remove(0);
        proof {
            assert(op_views(ops@) == plan_views(before)[0]);
            assert(plan_views(before)[0] == planv.skip(k as int)[0]);
            assert(planv.skip(k as int)[0] == planv[k as int]);
            assert forall|i: int| 0 <= i < plan@.len() implies plan_views(plan@)[i] == planv.skip(
                k + 1,
            )[i] by {
                assert(plan@[i] == before[i + 1]);
                assert(plan_views(before)[i + 1] == planv.skip(k as int)[i + 1]);
            }
            assert(plan_views(plan@) =~= planv.skip(k + 1));
        }
        let sorted = sort_ops(ops);
        let nt = apply_edits(&spans[k].text, &sorted);
        new_texts.push(nt);
        k = k + 1;
    }
    let out = write_back(&chars, &spans, &new_texts);
    proof {
        assert(new_texts@.map_values(|t: Vec<char>| t@) =~= Seq::new(
            ranges.len(),
            |i: int| apply_ops(texts[i], sort_desc(planv[i])),
        ));
    }
    chars_to_string(&out)
}

/// With no bindings at all, substitution returns the text unchanged,
/// character for character.
pub proof fn lemma_no_bindings_is_identity(xml: Seq<char>, binds: Seq<(Seq<char>, Seq<char>)>)
    requires
        binds.len() == 0,
    ensures
        replace_chars(xml, binds) == xml,
{
    let ranges = scan_spans(xml, 0);
    if ranges.len() > 0 {
        let texts = texts_of(xml, ranges);
        let plan = plan_bindings(
            empty_plan(ranges.len() as int),
            offset_map(texts),
            seq_lens(texts),
            concat_texts(texts),
            binds,
        );
        assert(plan == empty_plan(ranges.len() as int));
        let new_texts = Seq::new(ranges.len(), |i: int| apply_ops(texts[i], sort_desc(plan[i])));
        assert forall|i: int| 0 <= i < ranges.len() implies new_texts[i] == xml.subrange(
            (#[trigger] ranges[i]).0,
            ranges[i].1,
        ) by {
            assert(plan[i] =~= Seq::<(int, int, Seq<char>)>::empty());
            assert(sort_desc(plan[i]) =~= Seq::<(int, int, Seq<char>)>::empty());
            assert(texts[i] == xml.subrange(ranges[i].0, ranges[i].1));
        }
        lemma_scan_spans_wf(xml, 0);
        lemma_write_back_same_texts(xml, ranges, new_texts, ranges.len() as int);
    }
}

/// An entry without text runs is returned unchanged, whatever the bindings.
pub proof fn lemma_no_runs_is_identity(xml: Seq<char>, binds: Seq<(Seq<char>, Seq<char>)>)
    requires
        scan_spans(xml, 0).len() == 0,
    ensures
        replace_chars(xml, binds) == xml,
{
}

/// No occurrence of a token in an entry's pristine, concatenated run text
/// is passed over whole: each one overlaps one of the left-to-right,
/// non-overlapping matches that the planner turns into edits.
pub proof fn lemma_occurrence_overlaps_match(xml: Seq<char>, tok: Seq<char>, p: int)
    requires
        tok.len() > 0,
        0 <= p,
        match_at(concat_texts(texts_of(xml, scan_spans(xml, 0))), tok, p),
    ensures
        exists|j: int|
            0 <= j < token_matches(concat_texts(texts_of(xml, scan_spans(xml, 0))), tok, 0).len()
                && (#[trigger] token_matches(
                concat_texts(texts_of(xml, scan_spans(xml, 0))),
                tok,
                0,
            )[j]) <= p < token_matches(concat_texts(texts_of(xml, scan_spans(xml, 0))), tok, 0)[j]
                + tok.len(),
{
    lemma_matches_cover(concat_texts(texts_of(xml, scan_spans(xml, 0))), tok, 0, p);
}

/// Writing a span's own text back over its range changes nothing.
proof fn lemma_write_back_same_texts(
    xml: Seq<char>,
    ranges: Seq<(int, int)>,
    texts: Seq<Seq<char>>,
    k: int,
)
    requires
        k <= ranges.len(),
        forall|i: int|
            0 <= i < k ==> {
                &&& 0 <= (#[trigger] ranges[i]).0 <= ranges[i].1 <= xml.len()
                &&& texts[i] == xml.subrange(ranges[i].0, ranges[i].1)
            },
    ensures
        write_back_upto(xml, ranges, texts, k) == xml,
    decreases k,
{
    if k > 0 {
        assert(splice(xml, ranges[k - 1].0, ranges[k - 1].1, texts[k - 1]) =~= xml);
        lemma_write_back_same_texts(xml, ranges, texts, k - 1);
    }
}

} // verus!
