//! Replacement planning: turns each located match into span-local edit
//! operations. A match inside one span becomes a single splice; a match that
//! crosses spans puts the whole replacement value at its first span and
//! clears the covered text of every later span it touches.

use vstd::prelude::*;
use crate::locate::{concat_texts, offset_map, pairs_as_ints, token_matches, lemma_token_matches_wf, lemma_offset_map_wf, find_token_matches};
use crate::spans::{span_texts, TextSpan};
use crate::text::{copy_range, str_to_chars};

verus! {

/// One span-local edit: replace the character range `[start, end)` of the
/// span's text with `replacement`.
pub struct EditOp {
    pub start: usize,
    pub end: usize,
    pub replacement: Vec<char>,
}

/// The mathematical form of one edit: start, end, replacement characters.
pub open spec fn op_view(o: EditOp) -> (int, int, Seq<char>) {
    (o.start as int, o.end as int, o.replacement@)
}

/// The mathematical form of one span's edit list.
pub open spec fn op_views(ops: Seq<EditOp>) -> Seq<(int, int, Seq<char>)> {
    ops.map_values(|o: EditOp| op_view(o))
}

/// The mathematical form of a whole plan: one edit list per span.
pub open spec fn plan_views(plan: Seq<Vec<EditOp>>) -> Seq<Seq<(int, int, Seq<char>)>> {
    plan.map_values(|v: Vec<EditOp>| op_views(v@))
}

/// The token and value character sequences of the caller's bindings.
pub open spec fn binding_views(rs: Seq<(String, String)>) -> Seq<(Seq<char>, Seq<char>)> {
    rs.map_values(|p: (String, String)| (p.0@, p.1@))
}

/// The length of each span text.
pub open spec fn seq_lens(texts: Seq<Seq<char>>) -> Seq<int> {
    texts.map_values(|t: Seq<char>| t.len() as int)
}

/// A plan with no edits for any of `n` spans.
pub open spec fn empty_plan(n: int) -> Seq<Seq<(int, int, Seq<char>)>> {
    Seq::new(n as nat, |i: int| Seq::<(int, int, Seq<char>)>::empty())
}

/// Adds a clearing edit over the whole text of every span in `[lo, hi)`.
pub open spec fn clear_mids(
    acc: Seq<Seq<(int, int, Seq<char>)>>,
    lens: Seq<int>,
    lo: int,
    hi: int,
) -> Seq<Seq<(int, int, Seq<char>)>>
    decreases hi - lo,
{
    if lo >= hi {
        acc
    } else {
        clear_mids(acc.update(lo, acc[lo].push((0, lens[lo], Seq::<char>::empty()))), lens, lo + 1, hi)
    }
}

/// The edits for one match of length `tl` starting at buffer offset `m`,
/// replaced by `v`: one splice if the match stays in one span; otherwise the
/// value lands at the first span and the rest of the covered text is cleared.
pub open spec fn add_match(
    acc: Seq<Seq<(int, int, Seq<char>)>>,
    omap: Seq<(int, int)>,
    lens: Seq<int>,
    m: int,
    tl: int,
    v: Seq<char>,
) -> Seq<Seq<(int, int, Seq<char>)>> {
    let ss = omap[m].0;
    let so = omap[m].1;
    let es = omap[m + tl - 1].0;
    let eo = omap[m + tl - 1].1 + 1;
    if ss == es {
        acc.update(ss, acc[ss].push((so, eo, v)))
    } else {
        let acc1 = acc.update(ss, acc[ss].push((so, lens[ss], v)));
        let acc2 = clear_mids(acc1, lens, ss + 1, es);
        acc2.update(es, acc2[es].push((0, eo, Seq::<char>::empty())))
    }
}

/// The edits for a list of matches of one token, in match order.
pub open spec fn add_matches(
    acc: Seq<Seq<(int, int, Seq<char>)>>,
    omap: Seq<(int, int)>,
    lens: Seq<int>,
    mss: Seq<int>,
    tl: int,
    v: Seq<char>,
) -> Seq<Seq<(int, int, Seq<char>)>>
    decreases mss.len(),
{
    if mss.len() == 0 {
        acc
    } else {
        add_matches(add_match(acc, omap, lens, mss[0], tl, v), omap, lens, mss.drop_first(), tl, v)
    }
}

/// The whole plan: bindings are processed in caller order, each scanned
/// against the pristine buffer; an empty token never matches anything.
pub open spec fn plan_bindings(
    acc: Seq<Seq<(int, int, Seq<char>)>>,
    omap: Seq<(int, int)>,
    lens: Seq<int>,
    buf: Seq<char>,
    binds: Seq<(Seq<char>, Seq<char>)>,
) -> Seq<Seq<(int, int, Seq<char>)>>
    decreases binds.len(),
{
    if binds.len() == 0 {
        acc
    } else {
        let tok = binds[0].0;
        let v = binds[0].1;
        let acc1 = if tok.len() == 0 {
            acc
        } else {
            add_matches(acc, omap, lens, token_matches(buf, tok, 0), tok.len() as int, v)
        };
        plan_bindings(acc1, omap, lens, buf, binds.drop_first())
    }
}

/// `clear_mids` never changes the number of spans.
proof fn lemma_clear_mids_len(
    acc: Seq<Seq<(int, int, Seq<char>)>>,
    lens: Seq<int>,
    lo: int,
    hi: int,
)
    requires
        0 <= lo,
        hi <= acc.len(),
    ensures
        clear_mids(acc, lens, lo, hi).len() == acc.len(),
    decreases hi - lo,
{
    if lo < hi {
        lemma_clear_mids_len(acc.update(lo, acc[lo].push((0, lens[lo], Seq::<char>::empty()))), lens, lo + 1, hi);
    }
}

/// Appends `op` to the edit list of span `si`, leaving the other lists as
/// they were.
fn push_op(plan: &mut Vec<Vec<EditOp>>, si: usize, op: EditOp)
    requires
        si < old(plan)@.len(),
    ensures
        plan_views(final(plan)@) == plan_views(old(plan)@).update(
            si as int,
            plan_views(old(plan)@)[si as int].push(op_view(op)),
        ),
        final(plan)@.len() == old(plan)@.len(),
{
    let ghost prev = plan@;
    let ghost opv = op_view(op);
    let mut inner = plan.remove(si);
    inner.push(op);
    plan.insert(si, inner);
    proof {
        assert(plan_views(plan@) =~~= plan_views(prev).update(
            si as int,
            plan_views(prev)[si as int].push(opv),
        ));
    }
}

/// Plans every edit for the given bindings over an entry's spans.
pub fn plan_edits(
    spans: &Vec<TextSpan>,
    buf: &Vec<char>,
    map: &Vec<(usize, usize)>,
    replacements: &Vec<(String, String)>,
) -> (plan: Vec<Vec<EditOp>>)
    requires
        buf@ == concat_texts(span_texts(spans@)),
        pairs_as_ints(map@) == offset_map(span_texts(spans@)),
    ensures
        plan_views(plan@) == plan_bindings(
            empty_plan(spans@.len() as int),
            offset_map(span_texts(spans@)),
            seq_lens(span_texts(spans@)),
            buf@,
            binding_views(replacements@),
        ),
        plan@.len() == spans@.len(),
{
    let ghost texts = span_texts(spans@);
    let ghost omap = offset_map(texts);
    let ghost lens = seq_lens(texts);
    let ghost binds = binding_views(replacements@);
    let bn: usize = buf.len();
    let mut plan: Vec<Vec<EditOp>> = Vec::new();
    let mut i: usize = 0;
    while i < spans.len()
        invariant
            0 <= i <= spans@.len(),
            plan@.len() == i,
            plan_views(plan@) == empty_plan(i as int),
        decreases spans@.len() - i,
    {
        let ghost prev = plan@;
        plan.push(Vec::new());
        proof {
            assert forall|k: int| 0 <= k < i + 1 implies plan_views(plan@)[k] =~= empty_plan(
                i + 1,
            )[k] by {
                if k < i {
                    assert(plan@[k] == prev[k]);
                    assert(plan_views(prev)[k] == empty_plan(i as int)[k]);
                }
            }
            assert(plan_views(plan@) =~= empty_plan(i + 1));
        }
        i = i + 1;
    }
    let ghost goal = plan_bindings(empty_plan(spans@.len() as int), omap, lens, buf@, binds);
    proof {
        assert(binds.skip(0) =~= binds);
    }
    let mut r: usize = 0;
    while r < replacements.len()
        invariant
            0 <= r <= replacements@.len(),
            plan@.len() == spans@.len(),
            bn == buf@.len(),
            texts == span_texts(spans@),
            buf@ == concat_texts(texts),
            pairs_as_ints(map@) == omap,
            omap == offset_map(texts),
            lens == seq_lens(texts),
            binds == binding_views(replacements@),
            goal == plan_bindings(empty_plan(spans@.len() as int), omap, lens, buf@, binds),
            plan_bindings(plan_views(plan@), omap, lens, buf@, binds.skip(r as int)) == goal,
        decreases replacements@.len() - r,
    {
        let tok = str_to_chars(replacements[r].0.as_str());
        let value = str_to_chars(replacements[r].1.as_str());
        let ghost acc_start = plan_views(plan@);
        proof {
            assert(binds.skip(r as int)[0] == binds[r as int]);
            assert(binds[r as int] == (replacements@[r as int].0@, replacements@[r as int].1@));
            assert(binds.skip(r as int).drop_first() =~= binds.skip(r + 1));
        }
        if tok.len() == 0 {
            r = r + 1;
            continue;
        }
        let tl: usize = tok.len();
        let ms = find_token_matches(buf, &tok);
        let ghost msints = ms@.map_values(|x: usize| x as int);
        let ghost stage_goal = add_matches(acc_start, omap, lens, msints, tl as int, value@);
        proof {
            assert(msints.skip(0) =~= msints);
        }
        let mut mi: usize = 0;
        while mi < ms.len()
            invariant
                0 <= mi <= ms@.len(),
                plan@.len() == spans@.len(),
                bn == buf@.len(),
                texts == span_texts(spans@),
                buf@ == concat_texts(texts),
                pairs_as_ints(map@) == omap,
                omap == offset_map(texts),
                lens == seq_lens(texts),
                tok@.len() == tl,
                tl >= 1,
                value@ == binds[r as int].1,
                msints == ms@.map_values(|x: usize| x as int),
                msints == token_matches(buf@, tok@, 0),
                stage_goal == add_matches(
                    plan_views(plan@),
                    omap,
                    lens,
                    msints.skip(mi as int),
                    tl as int,
                    value@,
                ),
            decreases ms@.len() - mi,
        {
            let m: usize = ms[mi];
            proof {
                lemma_token_matches_wf(buf@, tok@, 0);
                lemma_offset_map_wf(texts, 0);
                assert(msints.skip(mi as int)[0] == msints[mi as int]);
                assert(msints.skip(mi as int).drop_first() =~= msints.skip(mi + 1));
                assert(token_matches(buf@, tok@, 0)[mi as int] == m as int);
                assert(crate::find::match_at(buf@, tok@, m as int));
                assert(m + tl <= buf@.len());
                assert(omap.len() == buf@.len());
                assert(map@.len() == omap.len());
            }
            let ghost acc0 = plan_views(plan@);
            let (ss, so) = map[m];
            let (es, eo1) = map[m + tl - 1];
            proof {
                assert(pairs_as_ints(map@)[m as int] == (ss as int, so as int));
                assert(pairs_as_ints(map@)[m + tl - 1] == (es as int, eo1 as int));
                assert(texts.len() == spans@.len());
                assert(ss < spans@.len() && es < spans@.len());
                assert(texts[es as int] == spans@[es as int].text@);
                assert(texts[ss as int] == spans@[ss as int].text@);
                assert(eo1 < spans@[es as int].text@.len());
                assert(spans@[es as int].text.len() == spans@[es as int].text@.len());
                assert(so < spans@[ss as int].text@.len());
            }
            let eo: usize = eo1 + 1;
            if ss == es {
                let rep = copy_range(&value, 0, value.len());
                proof {
                    assert(rep@ =~= value@);
                }
                push_op(&mut plan, ss, EditOp { start: so, end: eo, replacement: rep });
                proof {
                    assert(plan_views(plan@) == add_match(acc0, omap, lens, m as int, tl as int, value@));
                }
            } else {
                let first_len: usize = spans[ss].text.len();
                let rep = copy_range(&value, 0, value.len());
                proof {
                    assert(rep@ =~= value@);
                    assert(first_len == lens[ss as int]);
                }
                push_op(&mut plan, ss, EditOp { start: so, end: first_len, replacement: rep });
                let ghost acc1 = plan_views(plan@);
                let mut mid: usize = ss + 1;
                while mid < es
                    invariant
                        ss < mid <= es,
                        es < spans@.len(),
                        plan@.len() == spans@.len(),
                        texts == span_texts(spans@),
                        lens == seq_lens(texts),
                        clear_mids(plan_views(plan@), lens, mid as int, es as int) == clear_mids(
                            acc1,
                            lens,
                            ss + 1,
                            es as int,
                        ),
                    decreases es - mid,
                {
                    let ghost accm = plan_views(plan@);
                    let mid_len: usize = spans[mid].text.len();
                    let rep_mid: Vec<char> = Vec::new();
                    push_op(&mut plan, mid, EditOp { start: 0, end: mid_len, replacement: rep_mid });
                    proof {
                        assert(mid_len == lens[mid as int]);
                        assert(plan_views(plan@) == accm.update(
                            mid as int,
                            accm[mid as int].push((0, lens[mid as int], Seq::<char>::empty())),
                        ));
                    }
                    mid = mid + 1;
                }
                let ghost acc2 = plan_views(plan@);
                proof {
                    assert(clear_mids(acc2, lens, es as int, es as int) == acc2);
                    assert(acc2 == clear_mids(acc1, lens, ss + 1, es as int));
                }
                let rep_end: Vec<char> = Vec::new();
                push_op(&mut plan, es, EditOp { start: 0, end: eo, replacement: rep_end });
                proof {
                    assert(plan_views(plan@) == acc2.update(
                        es as int,
                        acc2[es as int].push((0, eo as int, Seq::<char>::empty())),
                    ));
                    assert(plan_views(plan@) == add_match(acc0, omap, lens, m as int, tl as int, value@));
                }
            }
            mi = mi + 1;
        }
        proof {
            assert(msints.skip(ms@.len() as int) =~= Seq::<int>::empty());
            assert(plan_views(plan@) == stage_goal);
            assert(binds.skip(r as int)[0].0 == tok@);
            assert(binds.skip(r as int)[0].1 == value@);
            assert(plan_bindings(acc_start, omap, lens, buf@, binds.skip(r as int))
                == plan_bindings(plan_views(plan@), omap, lens, buf@, binds.skip(r + 1)));
        }
        r = r + 1;
    }
    proof {
        assert(binds.skip(replacements@.len() as int) =~= Seq::<(Seq<char>, Seq<char>)>::empty());
    }
    plan
}

} // verus!
