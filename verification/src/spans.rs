//! Text span extraction: a tolerant, non-validating scan of an XML part for
//! the one text-bearing leaf element, yielding the ranges of its literal
//! runs.

use vstd::prelude::*;
use crate::find::{first_match_from, lemma_first_match_from, match_at, find_from};
use crate::text::copy_range;

verus! {

/// The opening-tag prefix of the text-bearing leaf element.
pub open spec fn open_tag() -> Seq<char> {
    seq!['<', 'w', ':', 't']
}

/// The end of an opening tag.
pub open spec fn tag_end() -> Seq<char> {
    seq!['>']
}

/// The closing-tag literal of the text-bearing leaf element.
pub open spec fn close_tag() -> Seq<char> {
    seq!['<', '/', 'w', ':', 't', '>']
}

/// One literal text run inside an entry: the half-open character range
/// `[start, end)` of the run's text within the entry, and that text itself.
pub struct TextSpan {
    pub start: usize,
    pub end: usize,
    pub text: Vec<char>,
}

/// The ranges of all text runs found at or after `pos`: for each occurrence
/// of the opening-tag prefix, the text lies between the next `>` and the
/// next closing-tag literal; the scan resumes after that closing tag, and
/// stops early when any of the three searches fails.
pub open spec fn scan_spans(xml: Seq<char>, pos: int) -> Seq<(int, int)>
    recommends
        0 <= pos <= xml.len(),
    decreases xml.len() - pos
        via scan_spans_decreases
{
    if !(0 <= pos <= xml.len()) {
        Seq::empty()
    } else {
        match first_match_from(xml, open_tag(), pos) {
            Option::None => Seq::empty(),
            Option::Some(t) => match first_match_from(xml, tag_end(), t) {
                Option::None => Seq::empty(),
                Option::Some(g) => match first_match_from(xml, close_tag(), g + 1) {
                    Option::None => Seq::empty(),
                    Option::Some(ce) => seq![(g + 1, ce)] + scan_spans(xml, ce + 6),
                },
            },
        }
    }
}

#[via_fn]
proof fn scan_spans_decreases(xml: Seq<char>, pos: int) {
    if 0 <= pos <= xml.len() {
        if let Some(t) = first_match_from(xml, open_tag(), pos) {
            lemma_first_match_from(xml, open_tag(), pos);
            if let Some(g) = first_match_from(xml, tag_end(), t) {
                lemma_first_match_from(xml, tag_end(), t);
                if let Some(ce) = first_match_from(xml, close_tag(), g + 1) {
                    lemma_first_match_from(xml, close_tag(), g + 1);
                }
            }
        }
    }
}

/// Spans come back in ascending order, pairwise disjoint, inside the text,
/// and at or after the scan position.
pub proof fn lemma_scan_spans_wf(xml: Seq<char>, pos: int)
    requires
        0 <= pos <= xml.len(),
    ensures
        forall|k: int|
            0 <= k < scan_spans(xml, pos).len() ==> {
                &&& pos <= #[trigger] scan_spans(xml, pos)[k].0
                &&& scan_spans(xml, pos)[k].0 <= scan_spans(xml, pos)[k].1
                &&& scan_spans(xml, pos)[k].1 <= xml.len()
            },
        forall|k1: int, k2: int|
            0 <= k1 < k2 < scan_spans(xml, pos).len() ==> #[trigger] scan_spans(
                xml,
                pos,
            )[k1].1 <= #[trigger] scan_spans(xml, pos)[k2].0,
    decreases xml.len() - pos,
{
    if let Some(t) = first_match_from(xml, open_tag(), pos) {
        lemma_first_match_from(xml, open_tag(), pos);
        if let Some(g) = first_match_from(xml, tag_end(), t) {
            lemma_first_match_from(xml, tag_end(), t);
            if let Some(ce) = first_match_from(xml, close_tag(), g + 1) {
                lemma_first_match_from(xml, close_tag(), g + 1);
                lemma_scan_spans_wf(xml, ce + 6);
                let s = scan_spans(xml, pos);
                let tail = scan_spans(xml, ce + 6);
                assert(s == seq![(g + 1 as int, ce)] + tail);
                assert forall|k: int| 0 <= k < s.len() implies {
                    &&& pos <= #[trigger] s[k].0
                    &&& s[k].0 <= s[k].1
                    &&& s[k].1 <= xml.len()
                } by {
                    if k > 0 {
                        assert(s[k] == tail[k - 1]);
                    }
                }
                assert forall|k1: int, k2: int|
                    0 <= k1 < k2 < s.len() implies #[trigger] s[k1].1 <= #[trigger] s[k2].0 by {
                    assert(s[k2] == tail[k2 - 1]);
                    if k1 > 0 {
                        assert(s[k1] == tail[k1 - 1]);
                    }
                }
            }
        }
    }
}

/// The texts of a vector of extracted spans, in span order.
pub open spec fn span_texts(spans: Seq<TextSpan>) -> Seq<Seq<char>> {
    spans.map_values(|s: TextSpan| s.text@)
}

/// The `(start, end)` ranges of a vector of extracted spans.
pub open spec fn span_ranges(spans: Seq<TextSpan>) -> Seq<(int, int)> {
    spans.map_values(|s: TextSpan| (s.start as int, s.end as int))
}

/// Every extracted span's text is exactly the corresponding range of `xml`.
pub open spec fn spans_match_text(spans: Seq<TextSpan>, xml: Seq<char>) -> bool {
    forall|k: int|
        0 <= k < spans.len() ==> {
            &&& #[trigger] spans[k].start <= spans[k].end <= xml.len()
            &&& spans[k].text@ == xml.subrange(spans[k].start as int, spans[k].end as int)
        }
}

/// Extracts every text run of the entry, in document order.
pub fn extract_spans(xml: &Vec<char>) -> (spans: Vec<TextSpan>)
    ensures
        span_ranges(spans@) == scan_spans(xml@, 0),
        spans_match_text(spans@, xml@),
{
    let open_pat: Vec<char> = vec!['<', 'w', ':', 't'];
    let end_pat: Vec<char> = vec!['>'];
    let close_pat: Vec<char> = vec!['<', '/', 'w', ':', 't', '>'];
    proof {
        assert(open_pat@ =~= open_tag());
        assert(end_pat@ =~= tag_end());
        assert(close_pat@ =~= close_tag());
    }
    let xn: usize = xml.len();
    let mut spans: Vec<TextSpan> = Vec::new();
    let mut pos: usize = 0;
    loop
        invariant
            0 <= pos <= xml@.len(),
            xn == xml@.len(),
            open_pat@ == open_tag(),
            end_pat@ == tag_end(),
            close_pat@ == close_tag(),
            scan_spans(xml@, 0) == span_ranges(spans@) + scan_spans(xml@, pos as int),
            spans_match_text(spans@, xml@),
        decreases xml@.len() - pos,
    {
        let t = match find_from(xml, &open_pat, pos) {
            Option::Some(t) => t,
            Option::None => {
                proof {
                    assert(span_ranges(spans@) + scan_spans(xml@, pos as int) =~= span_ranges(
                        spans@,
                    ));
                }
                return spans;
            },
        };
        proof {
            lemma_first_match_from(xml@, open_tag(), pos as int);
        }
        let g = match find_from(xml, &end_pat, t) {
            Option::Some(g) => g,
            Option::None => {
                proof {
                    assert(span_ranges(spans@) + scan_spans(xml@, pos as int) =~= span_ranges(
                        spans@,
                    ));
                }
                return spans;
            },
        };
        proof {
            lemma_first_match_from(xml@, tag_end(), t as int);
            assert(g + 1 <= xml@.len());
        }
        let cs: usize = g + 1;
        let ce = match find_from(xml, &close_pat, cs) {
            Option::Some(ce) => ce,
            Option::None => {
                proof {
                    assert(span_ranges(spans@) + scan_spans(xml@, pos as int) =~= span_ranges(
                        spans@,
                    ));
                }
                return spans;
            },
        };
        proof {
            lemma_first_match_from(xml@, close_tag(), cs as int);
            assert(ce + 6 <= xml@.len());
        }
        let ghost prev = spans@;
        let text = copy_range(xml, cs, ce);
        spans.push(TextSpan { start: cs, end: ce, text });
        proof {
            assert(span_ranges(spans@) =~= span_ranges(prev).push((cs as int, ce as int)));
            assert(scan_spans(xml@, pos as int) == seq![(cs as int, ce as int)] + scan_spans(
                xml@,
                ce + 6,
            ));
            assert(span_ranges(prev) + scan_spans(xml@, pos as int) =~= span_ranges(spans@)
                + scan_spans(xml@, ce + 6));
            assert(spans_match_text(spans@, xml@)) by {
                assert(forall|k: int|
                    0 <= k < prev.len() ==> spans@[k] == #[trigger] prev[k]);
            }
        }
        pos = ce + 6;
    }
}

} // verus!
