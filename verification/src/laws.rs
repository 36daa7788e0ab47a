//! Laws of the substitution engine that relate several of its stages: what a
//! run's text looks like after all the edits of one binding are applied.

use vstd::prelude::*;
use crate::find::{first_match_from, lemma_first_match_from, match_at};
use crate::locate::{concat_texts, offset_map, offset_map_from, token_matches, lemma_token_matches_wf};
use crate::plan::{add_match, add_matches, empty_plan, plan_bindings, seq_lens};
use crate::rewrite::{apply_ops, insert_desc, sort_desc};
use crate::engine::{rewritten_run_texts, run_plan, texts_of};
use crate::spans::scan_spans;
use crate::text::splice;

verus! {

/// The same-run edits of a list of match positions: each match of length
/// `tl` becomes one splice putting `v` over it.
pub open spec fn run_ops(ms: Seq<int>, tl: int, v: Seq<char>) -> Seq<(int, int, Seq<char>)> {
    ms.map_values(|m: int| (m, m + tl, v))
}

/// The text from `r` on, with every match in `ms` (each of length `tl`)
/// replaced by `v` and the gaps between matches kept as they are.
pub open spec fn interleave(
    text: Seq<char>,
    ms: Seq<int>,
    tl: int,
    v: Seq<char>,
    r: int,
) -> Seq<char>
    decreases ms.len(),
{
    if ms.len() == 0 {
        text.subrange(r, text.len() as int)
    } else {
        text.subrange(r, ms[0]) + v + interleave(text, ms.drop_first(), tl, v, ms[0] + tl)
    }
}

/// Sorting edits whose starts strictly ascend by descending start reverses
/// them.
proof fn lemma_sort_desc_of_ascending(ops: Seq<(int, int, Seq<char>)>)
    requires
        forall|i: int, j: int| 0 <= i < j < ops.len() ==> (#[trigger] ops[i]).0 < (#[trigger] ops[j]).0,
    ensures
        sort_desc(ops) == ops.reverse(),
    decreases ops.len(),
{
    if ops.len() == 0 {
        assert(sort_desc(ops) =~= ops.reverse());
    } else {
        let pre = ops.drop_last();
        assert forall|i: int, j: int| 0 <= i < j < pre.len() implies (#[trigger] pre[i]).0 < (
        #[trigger] pre[j]).0 by {
            assert(pre[i] == ops[i]);
            assert(pre[j] == ops[j]);
        }
        lemma_sort_desc_of_ascending(pre);
        let x = ops.last();
        if pre.len() == 0 {
            assert(sort_desc(ops) == insert_desc(Seq::empty(), x));
            assert(ops.reverse() =~= seq![x]);
        } else {
            assert(pre.reverse()[0] == pre[pre.len() - 1]);
            assert(pre[pre.len() - 1].0 < x.0);
            assert(insert_desc(pre.reverse(), x) == seq![x] + pre.reverse());
            assert(ops.reverse() =~= seq![x] + pre.reverse());
        }
    }
}

/// Edits that stay inside the prefix `x`, applied from the right, never
/// touch a suffix appended after `x`.
proof fn lemma_apply_ops_keeps_suffix(x: Seq<char>, t: Seq<char>, ops: Seq<(int, int, Seq<char>)>)
    requires
        forall|i: int| 0 <= i < ops.len() ==> 0 <= (#[trigger] ops[i]).0 <= ops[i].1,
        forall|i: int, j: int|
            0 <= i < j < ops.len() ==> (#[trigger] ops[j]).1 <= (#[trigger] ops[i]).0,
        ops.len() > 0 ==> ops[0].1 <= x.len(),
    ensures
        apply_ops(x + t, ops) == apply_ops(x, ops) + t,
    decreases ops.len(),
{
    if ops.len() == 0 {
        assert(apply_ops(x + t, ops) == x + t);
    } else {
        let a = ops[0].0;
        let b = ops[0].1;
        let rep = ops[0].2;
        assert(splice(x + t, a, b, rep) =~= splice(x, a, b, rep) + t);
        let x2 = splice(x, a, b, rep);
        assert(x2.len() == a + rep.len() + (x.len() - b));
        let rest = ops.drop_first();
        assert forall|i: int| 0 <= i < rest.len() implies 0 <= (#[trigger] rest[i]).0
            <= rest[i].1 by {
            assert(rest[i] == ops[i + 1]);
        }
        assert forall|i: int, j: int| 0 <= i < j < rest.len() implies (#[trigger] rest[j]).1 <= (
        #[trigger] rest[i]).0 by {
            assert(rest[i] == ops[i + 1]);
            assert(rest[j] == ops[j + 1]);
        }
        if rest.len() > 0 {
            assert(rest[0] == ops[1]);
            assert(rest[0].1 <= ops[0].0);
        }
        lemma_apply_ops_keeps_suffix(x2, t, rest);
    }
}

/// Replacing the matches before the last one inside the prefix that ends at
/// the last match, then putting `v` over the last match, is the whole
/// interleaving.
proof fn lemma_interleave_split(text: Seq<char>, ms: Seq<int>, tl: int, v: Seq<char>, r: int)
    requires
        tl >= 1,
        ms.len() > 0,
        0 <= r,
        r <= ms[0],
        forall|i: int| 0 <= i < ms.len() ==> 0 <= #[trigger] ms[i] && ms[i] + tl <= text.len(),
        forall|i: int, j: int| 0 <= i < j < ms.len() ==> #[trigger] ms[i] + tl <= #[trigger] ms[j],
    ensures
        interleave(text, ms, tl, v, r) == interleave(
            text.take(ms.last()),
            ms.drop_last(),
            tl,
            v,
            r,
        ) + v + text.subrange(ms.last() + tl, text.len() as int),
    decreases ms.len(),
{
    let m = ms.last();
    if ms.len() == 1 {
        assert(ms[0] == m);
        assert(ms.drop_first().len() == 0);
        assert(interleave(text, ms.drop_first(), tl, v, m + tl) == text.subrange(
            m + tl,
            text.len() as int,
        ));
        assert(ms.drop_last().len() == 0);
        assert(text.take(m).len() == m);
        assert(interleave(text.take(m), ms.drop_last(), tl, v, r) == text.take(m).subrange(r, m));
        assert(text.take(m).subrange(r, m) =~= text.subrange(r, m));
        assert(interleave(text, ms, tl, v, r) =~= interleave(text.take(m), ms.drop_last(), tl, v, r)
            + v + text.subrange(m + tl, text.len() as int));
    } else {
        let rest = ms.drop_first();
        assert forall|i: int| 0 <= i < rest.len() implies 0 <= #[trigger] rest[i] && rest[i] + tl
            <= text.len() by {
            assert(rest[i] == ms[i + 1]);
        }
        assert forall|i: int, j: int| 0 <= i < j < rest.len() implies #[trigger] rest[i] + tl
            <= #[trigger] rest[j] by {
            assert(rest[i] == ms[i + 1]);
            assert(rest[j] == ms[j + 1]);
        }
        assert(rest[0] == ms[1]);
        assert(ms[0] + tl <= ms[1]);
        lemma_interleave_split(text, rest, tl, v, ms[0] + tl);
        assert(rest.last() == m);
        assert(rest.drop_last() =~= ms.drop_last().drop_first());
        assert(ms.drop_last()[0] == ms[0]);
        assert(ms[0] < m);
        assert(text.take(m).subrange(r, ms[0]) =~= text.subrange(r, ms[0]));
        assert(interleave(text.take(m), ms.drop_last(), tl, v, r) == text.take(m).subrange(
            r,
            ms[0],
        ) + v + interleave(text.take(m), ms.drop_last().drop_first(), tl, v, ms[0] + tl));
        assert(interleave(text, ms, tl, v, r) =~= interleave(text.take(m), ms.drop_last(), tl, v, r)
            + v + text.subrange(m + tl, text.len() as int));
    }
}

/// Applying one binding's same-run edits, sorted by descending start, puts
/// `v` over every match and keeps every gap: the interleaving of gaps and
/// values.
proof fn lemma_apply_desc_is_interleave(text: Seq<char>, ms: Seq<int>, tl: int, v: Seq<char>)
    requires
        tl >= 1,
        forall|i: int| 0 <= i < ms.len() ==> 0 <= #[trigger] ms[i] && ms[i] + tl <= text.len(),
        forall|i: int, j: int| 0 <= i < j < ms.len() ==> #[trigger] ms[i] + tl <= #[trigger] ms[j],
    ensures
        apply_ops(text, run_ops(ms, tl, v).reverse()) == interleave(text, ms, tl, v, 0),
    decreases ms.len(),
{
    let ops = run_ops(ms, tl, v);
    if ms.len() == 0 {
        assert(ops.reverse() =~= Seq::<(int, int, Seq<char>)>::empty());
        assert(interleave(text, ms, tl, v, 0) =~= text);
    } else {
        let m = ms.last();
        let desc = ops.reverse();
        assert(desc[0] == ops[ops.len() - 1]);
        assert(desc[0] == (m, m + tl, v));
        let x = text.take(m);
        let tail = v + text.subrange(m + tl, text.len() as int);
        assert(apply_ops(text, desc) == apply_ops(splice(text, m, m + tl, v), desc.drop_first()));
        assert(splice(text, m, m + tl, v) =~= x + tail);
        let pre = ms.drop_last();
        assert forall|i: int| 0 <= i < pre.len() implies 0 <= #[trigger] pre[i] && pre[i] + tl
            <= x.len() by {
            assert(pre[i] == ms[i]);
            assert(ms[i] + tl <= ms[ms.len() - 1]);
        }
        assert forall|i: int, j: int| 0 <= i < j < pre.len() implies #[trigger] pre[i] + tl
            <= #[trigger] pre[j] by {
            assert(pre[i] == ms[i]);
            assert(pre[j] == ms[j]);
        }
        let pre_desc = run_ops(pre, tl, v).reverse();
        assert(desc.drop_first() =~= pre_desc) by {
            assert forall|i: int| 0 <= i < desc.drop_first().len() implies desc.drop_first()[i]
                == pre_desc[i] by {
                assert(desc.drop_first()[i] == desc[i + 1]);
                assert(desc[i + 1] == ops[ops.len() - 2 - i]);
                assert(pre_desc[i] == run_ops(pre, tl, v)[pre.len() - 1 - i]);
                assert(run_ops(pre, tl, v)[pre.len() - 1 - i] == (
                    pre[pre.len() - 1 - i],
                    pre[pre.len() - 1 - i] + tl,
                    v,
                ));
                assert(pre[pre.len() - 1 - i] == ms[ms.len() - 2 - i]);
            }
        }
        assert forall|i: int| 0 <= i < pre_desc.len() implies 0 <= (#[trigger] pre_desc[i]).0
            <= pre_desc[i].1 by {
            assert(pre_desc[i] == run_ops(pre, tl, v)[pre.len() - 1 - i]);
        }
        assert forall|i: int, j: int| 0 <= i < j < pre_desc.len() implies (#[trigger] pre_desc[j]).1
            <= (#[trigger] pre_desc[i]).0 by {
            assert(pre_desc[i] == run_ops(pre, tl, v)[pre.len() - 1 - i]);
            assert(pre_desc[j] == run_ops(pre, tl, v)[pre.len() - 1 - j]);
            assert(pre[pre.len() - 1 - j] + tl <= pre[pre.len() - 1 - i]);
        }
        if pre_desc.len() > 0 {
            assert(pre_desc[0] == run_ops(pre, tl, v)[pre.len() - 1]);
            assert(pre[pre.len() - 1] + tl <= m);
        }
        lemma_apply_ops_keeps_suffix(x, tail, pre_desc);
        lemma_apply_desc_is_interleave(x, pre, tl, v);
        lemma_interleave_split(text, ms, tl, v, 0);
        assert(apply_ops(x + tail, pre_desc) == apply_ops(x, pre_desc) + tail);
        assert(interleave(text, ms, tl, v, 0) =~= interleave(x, pre, tl, v, 0) + tail);
    }
}

/// On an entry with one run, the planner's edits for one binding are
/// exactly one same-run splice per match.
proof fn lemma_add_matches_single_run(
    acc: Seq<Seq<(int, int, Seq<char>)>>,
    text: Seq<char>,
    ms: Seq<int>,
    tl: int,
    v: Seq<char>,
)
    requires
        acc.len() == 1,
        tl >= 1,
        forall|i: int| 0 <= i < ms.len() ==> 0 <= #[trigger] ms[i] && ms[i] + tl <= text.len(),
    ensures
        add_matches(acc, offset_map(seq![text]), seq_lens(seq![text]), ms, tl, v) == seq![
            acc[0] + run_ops(ms, tl, v),
        ],
    decreases ms.len(),
{
    let omap = offset_map(seq![text]);
    assert(omap =~= Seq::new(text.len(), |j: int| (0int, j))) by {
        assert(seq![text][0] == text);
        assert(omap == Seq::new(text.len(), |j: int| (0int, j)) + offset_map_from(seq![text], 1));
        assert(offset_map_from(seq![text], 1) =~= Seq::<(int, int)>::empty());
    }
    if ms.len() == 0 {
        assert(acc[0] + run_ops(ms, tl, v) =~= acc[0]);
        assert(add_matches(acc, omap, seq_lens(seq![text]), ms, tl, v) == acc);
        assert(acc =~= seq![acc[0]]);
    } else {
        let m = ms[0];
        assert(omap[m] == (0int, m));
        assert(omap[m + tl - 1] == (0int, m + tl - 1));
        let acc1 = add_match(acc, omap, seq_lens(seq![text]), m, tl, v);
        assert(acc1 == acc.update(0, acc[0].push((m, m + tl, v))));
        assert(acc1.len() == 1);
        let rest = ms.drop_first();
        assert forall|i: int| 0 <= i < rest.len() implies 0 <= #[trigger] rest[i] && rest[i] + tl
            <= text.len() by {
            assert(rest[i] == ms[i + 1]);
        }
        lemma_add_matches_single_run(acc1, text, rest, tl, v);
        assert(acc1[0] + run_ops(rest, tl, v) =~= acc[0] + run_ops(ms, tl, v)) by {
            assert(acc1[0] == acc[0].push((m, m + tl, v)));
            assert forall|i: int| 0 <= i < run_ops(ms, tl, v).len() implies run_ops(ms, tl, v)[i]
                == (if i == 0 {
                (m, m + tl, v)
            } else {
                run_ops(rest, tl, v)[i - 1]
            }) by {
                if i > 0 {
                    assert(rest[i - 1] == ms[i]);
                }
            }
        }
    }
}

/// The whole single-binding plan of an entry with one run.
proof fn lemma_single_run_plan(text: Seq<char>, tok: Seq<char>, v: Seq<char>)
    requires
        tok.len() >= 1,
    ensures
        plan_bindings(
            empty_plan(1),
            offset_map(seq![text]),
            seq_lens(seq![text]),
            concat_texts(seq![text]),
            seq![(tok, v)],
        ) == seq![run_ops(token_matches(text, tok, 0), tok.len() as int, v)],
{
    let binds: Seq<(Seq<char>, Seq<char>)> = seq![(tok, v)];
    assert(concat_texts(seq![text]) =~= text) by {
        assert(seq![text][0] == text);
        assert(concat_texts(seq![text]) == text + crate::locate::concat_from(seq![text], 1));
        assert(crate::locate::concat_from(seq![text], 1) =~= Seq::<char>::empty());
        assert(text + Seq::<char>::empty() =~= text);
    }
    let ms = token_matches(text, tok, 0);
    lemma_token_matches_wf(text, tok, 0);
    assert(binds[0] == (tok, v));
    assert(binds.drop_first().len() == 0);
    assert(empty_plan(1).len() == 1);
    assert(empty_plan(1)[0] =~= Seq::<(int, int, Seq<char>)>::empty());
    lemma_add_matches_single_run(empty_plan(1), text, ms, tok.len() as int, v);
    let acc1 = add_matches(
        empty_plan(1),
        offset_map(seq![text]),
        seq_lens(seq![text]),
        ms,
        tok.len() as int,
        v,
    );
    let omap = offset_map(seq![text]);
    let lens = seq_lens(seq![text]);
    let buf = concat_texts(seq![text]);
    assert(buf == text);
    assert(binds.len() == 1);
    assert(binds[0].0 == tok);
    assert(binds[0].1 == v);
    assert(token_matches(buf, binds[0].0, 0) == ms);
    let acc1b = add_matches(
        empty_plan(1),
        omap,
        lens,
        token_matches(buf, binds[0].0, 0),
        binds[0].0.len() as int,
        binds[0].1,
    );
    assert(plan_bindings(empty_plan(1), omap, lens, buf, binds) == plan_bindings(
        acc1b,
        omap,
        lens,
        buf,
        binds.drop_first(),
    ));
    assert(plan_bindings(acc1b, omap, lens, buf, binds.drop_first()) == acc1b);
    assert(acc1b == acc1);
    assert(plan_bindings(empty_plan(1), omap, lens, buf, binds) == acc1);
    assert(empty_plan(1)[0] + run_ops(ms, tok.len() as int, v) =~= run_ops(
        ms,
        tok.len() as int,
        v,
    ));
}

/// Every character of the interleaving of gaps and values is either a gap
/// character or a value character; when the token opens with `{`, the value
/// has no `{`, and every `{` of the text begins an occurrence of the token,
/// no `{` survives.
proof fn lemma_interleave_no_open_brace(text: Seq<char>, tok: Seq<char>, v: Seq<char>, r: int)
    requires
        tok.len() >= 1,
        tok[0] == '{',
        0 <= r <= text.len(),
        forall|i: int| 0 <= i < v.len() ==> v[i] != '{',
        forall|p: int| r <= p < text.len() && text[p] == '{' ==> match_at(text, tok, p),
    ensures
        forall|q: int|
            0 <= q < interleave(text, token_matches(text, tok, r), tok.len() as int, v, r).len()
                ==> interleave(text, token_matches(text, tok, r), tok.len() as int, v, r)[q]
                != '{',
    decreases text.len() - r,
{
    let tl = tok.len() as int;
    let ms = token_matches(text, tok, r);
    lemma_first_match_from(text, tok, r);
    if first_match_from(text, tok, r) is None {
        assert(ms.len() == 0);
        assert forall|q: int| 0 <= q < interleave(text, ms, tl, v, r).len() implies interleave(
            text,
            ms,
            tl,
            v,
            r,
        )[q] != '{' by {
            assert(interleave(text, ms, tl, v, r)[q] == text[r + q]);
            if text[r + q] == '{' {
                assert(match_at(text, tok, r + q));
            }
        }
    } else {
        let m = first_match_from(text, tok, r)->Some_0;
        assert(ms == seq![m] + token_matches(text, tok, m + tl));
        assert(ms[0] == m);
        assert(ms.drop_first() =~= token_matches(text, tok, m + tl));
        lemma_token_matches_wf(text, tok, r);
        lemma_interleave_no_open_brace(text, tok, v, m + tl);
        let gap = text.subrange(r, m);
        let rest = interleave(text, token_matches(text, tok, m + tl), tl, v, m + tl);
        assert(interleave(text, ms, tl, v, r) == gap + v + rest);
        assert forall|q: int| 0 <= q < (gap + v + rest).len() implies (gap + v + rest)[q]
            != '{' by {
            if q < gap.len() {
                assert((gap + v + rest)[q] == text[r + q]);
                if text[r + q] == '{' {
                    assert(match_at(text, tok, r + q));
                    assert(r + q < m);
                }
            } else if q < gap.len() + v.len() {
                assert((gap + v + rest)[q] == v[q - gap.len()]);
            } else {
                assert((gap + v + rest)[q] == rest[q - gap.len() - v.len()]);
            }
        }
    }
}

/// A satisfied binding leaves no occurrence of its token behind, on an
/// entry with one text run and one binding whose token opens with `{`,
/// whose value holds no `{`, and whose run text holds `{` only where the
/// token occurs: the rewritten run contains no occurrence of the token.
pub proof fn lemma_single_run_binding_consumes_token(xml: Seq<char>, tok: Seq<char>, v: Seq<char>)
    requires
        scan_spans(xml, 0).len() == 1,
        tok.len() >= 1,
        tok[0] == '{',
        forall|i: int| 0 <= i < v.len() ==> v[i] != '{',
        forall|p: int|
            0 <= p < texts_of(xml, scan_spans(xml, 0))[0].len() && texts_of(
                xml,
                scan_spans(xml, 0),
            )[0][p] == '{' ==> match_at(texts_of(xml, scan_spans(xml, 0))[0], tok, p),
    ensures
        forall|p: int| !match_at(rewritten_run_texts(xml, seq![(tok, v)])[0], tok, p),
{
    let ranges = scan_spans(xml, 0);
    let texts = texts_of(xml, ranges);
    let text = texts[0];
    assert(texts =~= seq![text]);
    let binds: Seq<(Seq<char>, Seq<char>)> = seq![(tok, v)];
    let tl = tok.len() as int;
    let ms = token_matches(text, tok, 0);
    lemma_token_matches_wf(text, tok, 0);
    lemma_single_run_plan(text, tok, v);
    assert(run_plan(xml, binds) == seq![run_ops(ms, tl, v)]);
    let ops = run_ops(ms, tl, v);
    assert forall|i: int, j: int| 0 <= i < j < ops.len() implies (#[trigger] ops[i]).0 < (
    #[trigger] ops[j]).0 by {
        assert(ops[i] == (ms[i], ms[i] + tl, v));
        assert(ops[j] == (ms[j], ms[j] + tl, v));
        assert(ms[i] + tl <= ms[j]);
    }
    assert forall|i: int| 0 <= i < ms.len() implies 0 <= #[trigger] ms[i] && ms[i] + tl
        <= text.len() by {
        assert(match_at(text, tok, ms[i]));
    }
    lemma_sort_desc_of_ascending(ops);
    lemma_apply_desc_is_interleave(text, ms, tl, v);
    lemma_interleave_no_open_brace(text, tok, v, 0);
    let res = rewritten_run_texts(xml, binds)[0];
    assert(res == apply_ops(texts[0], sort_desc(run_plan(xml, binds)[0])));
    assert(run_plan(xml, binds)[0] == ops);
    assert(res == interleave(text, ms, tl, v, 0));
    assert forall|p: int| !match_at(res, tok, p) by {
        if match_at(res, tok, p) {
            assert(res.subrange(p, p + tl)[0] == res[p]);
            assert(res[p] == tok[0]);
            assert(0 <= p < res.len());
            assert(res[p] != '{');
        }
    }
}

} // verus!
