//! Highlight spans: a field's text split into maximal runs of matched and
//! unmatched characters, so that a renderer can emphasise exactly the
//! characters the fuzzy matcher consumed.

use vstd::prelude::*;

use crate::chars::usize_view;

verus! {

/// One contiguous segment of a field's text, tagged by whether its
/// characters were consumed by the fuzzy match.
#[derive(Debug, PartialEq, Eq)]
pub enum MatchElement {
    Matched(String),
    Unmatched(String),
}

/// The mathematical content of a `MatchElement`: its tag and its text.
pub ghost struct SpanV {
    pub matched: bool,
    pub text: Seq<char>,
}

impl View for MatchElement {
    type V = SpanV;

    closed spec fn view(&self) -> SpanV {
        match self {
            MatchElement::Matched(s) => SpanV { matched: true, text: s@ },
            MatchElement::Unmatched(s) => SpanV { matched: false, text: s@ },
        }
    }
}

impl MatchElement {
    /// Whether this segment was consumed by the match.
    pub fn is_matched(&self) -> (r: bool)
        ensures
            r == self@.matched,
    {
        match self {
            MatchElement::Matched(_) => true,
            MatchElement::Unmatched(_) => false,
        }
    }

    /// The text of this segment.
    pub fn text(&self) -> (r: &str)
        ensures
            r@ == self@.text,
    {
        match self {
            MatchElement::Matched(s) => s.as_str(),
            MatchElement::Unmatched(s) => s.as_str(),
        }
    }
}

/// The views of a sequence of elements.
pub open spec fn span_views(s: Seq<MatchElement>) -> Seq<SpanV> {
    s.map_values(|e: MatchElement| e@)
}

/// Split `text` into maximal runs of characters whose flags agree, walking
/// left to right: each step either extends the run in progress or opens a
/// new one.
pub open spec fn runs(text: Seq<char>, flags: Seq<bool>) -> Seq<SpanV>
    decreases text.len(),
{
    if text.len() == 0 {
        Seq::empty()
    } else {
        let prev = runs(text.drop_last(), flags.drop_last());
        let c = text.last();
        let f = flags[text.len() - 1];
        if prev.len() > 0 && prev.last().matched == f {
            prev.update(prev.len() - 1, SpanV { matched: f, text: prev.last().text.push(c) })
        } else {
            prev.push(SpanV { matched: f, text: seq![c] })
        }
    }
}

/// The flag of each position of a field of length `len`: whether the
/// matcher consumed that position.
pub open spec fn position_flags(len: nat, indices: Seq<int>) -> Seq<bool> {
    Seq::new(len, |i: int| indices.contains(i))
}

/// The span decomposition of a field: with no recorded indices the whole
/// text is a single unmatched span; with indices, the maximal runs of
/// consumed and unconsumed characters (an empty field keeps one empty
/// unmatched span).
pub open spec fn split_spec(text: Seq<char>, indices: Option<Seq<int>>) -> Seq<SpanV> {
    match indices {
        None => seq![SpanV { matched: false, text: text }],
        Some(idx) => if text.len() == 0 {
            seq![SpanV { matched: false, text: text }]
        } else {
            runs(text, position_flags(text.len(), idx))
        },
    }
}

/// The concatenation of the spans' texts, in order.
pub open spec fn spans_text(s: Seq<SpanV>) -> Seq<char>
    decreases s.len(),
{
    if s.len() == 0 {
        Seq::empty()
    } else {
        spans_text(s.drop_last()) + s.last().text
    }
}

/// Concatenating the runs reproduces the text they were cut from.
proof fn lemma_runs_text(text: Seq<char>, flags: Seq<bool>)
    ensures
        spans_text(runs(text, flags)) == text,
    decreases text.len(),
{
    if text.len() == 0 {
        assert(spans_text(runs(text, flags)) =~= text);
    } else {
        lemma_runs_text(text.drop_last(), flags.drop_last());
        let prev = runs(text.drop_last(), flags.drop_last());
        let c = text.last();
        let f = flags[text.len() - 1];
        if prev.len() > 0 && prev.last().matched == f {
            let ext = prev.update(prev.len() - 1, SpanV { matched: f, text: prev.last().text.push(c) });
            assert(ext.drop_last() =~= prev.drop_last());
            assert(spans_text(ext) =~= spans_text(prev.drop_last()) + prev.last().text.push(c));
            assert(spans_text(prev.drop_last()) + prev.last().text.push(c) =~= (spans_text(
                prev.drop_last(),
            ) + prev.last().text).push(c));
            assert(text =~= text.drop_last().push(c));
        } else {
            let ext = prev.push(SpanV { matched: f, text: seq![c] });
            assert(ext.drop_last() =~= prev);
            assert(spans_text(ext) =~= spans_text(prev) + seq![c]);
            assert(text =~= text.drop_last() + seq![c]);
        }
    }
}

/// Round trip: for every field text and every recorded index set, the
/// ordered concatenation of the computed spans' texts is exactly the
/// original text, with no character dropped, duplicated or reordered.
pub proof fn lemma_split_round_trip(text: Seq<char>, indices: Option<Seq<int>>)
    ensures
        spans_text(split_spec(text, indices)) == text,
{
    match indices {
        None => {
            let s = split_spec(text, indices);
            assert(s.drop_last() =~= Seq::<SpanV>::empty());
            assert(spans_text(s) == spans_text(s.drop_last()) + text);
            assert(Seq::<char>::empty() + text =~= text);
        },
        Some(idx) => {
            if text.len() == 0 {
                let s = split_spec(text, indices);
                assert(s.drop_last() =~= Seq::<SpanV>::empty());
                assert(spans_text(s) == spans_text(s.drop_last()) + text);
                assert(Seq::<char>::empty() + text =~= text);
            } else {
                lemma_runs_text(text, position_flags(text.len(), idx));
            }
        },
    }
}

/// Whether position `i` is among the recorded indices.
fn index_is_matched(indices: &Vec<usize>, i: usize) -> (r: bool)
    ensures
        r == usize_view(indices@).contains(i as int),
{
    let mut k: usize = 0;
    while k < indices.len()
        invariant
            k <= indices@.len(),
            forall|j: int| 0 <= j < k ==> indices@[j] != i,
        decreases indices@.len() - k,
    {
        if indices[k] == i {
            proof {
                assert(usize_view(indices@)[k as int] == i as int);
            }
            return true;
        }
        k += 1;
    }
    proof {
        let mapped = usize_view(indices@);
        if mapped.contains(i as int) {
            let j = choose|j: int| 0 <= j < mapped.len() && mapped[j] == i as int;
            assert(mapped[j] == indices@[j] as int);
        }
    }
    false
}

/// Split a field's text into alternating matched and unmatched spans, given
/// the match positions recorded for it, or the whole text as one unmatched
/// span when none were.
pub fn split_to_groups_by_indices(text: &str, indices: Option<&Vec<usize>>) -> (r: Vec<
    MatchElement,
>)
    ensures
        span_views(r@) == split_spec(
            text@,
            match indices {
                None => None,
                Some(v) => Some(usize_view(v@)),
            },
        ),
{
    match indices {
        None => {
            let mut r: Vec<MatchElement> = Vec::new();
            r.push(MatchElement::Unmatched(text.to_owned()));
            proof {
                assert(span_views(r@) =~= seq![SpanV { matched: false, text: text@ }]);
            }
            r
        },
        Some(idx) => {
            let ghost idx_int = usize_view(idx@);
            let n = text.unicode_len();
            let mut r: Vec<MatchElement> = Vec::new();
            if n == 0 {
                r.push(MatchElement::Unmatched(text.to_owned()));
                proof {
                    assert(span_views(r@) =~= seq![SpanV { matched: false, text: text@ }]);
                }
                return r;
            }
            let ghost flags = position_flags(text@.len(), idx_int);
            let mut start: usize = 0;
            let mut i: usize = 0;
            let mut cur: bool = index_is_matched(idx, 0);
            proof {
                assert(flags[0] == cur);
                assert(runs(text@.take(0), flags.take(0)) =~= span_views(r@)
                    + Seq::<SpanV>::empty());
            }
            while i < n
                invariant
                    n == text@.len(),
                    0 < n,
                    start <= i <= n,
                    i == start ==> i == 0 && cur == flags[0],
                    i > start ==> forall|j: int| start <= j < i ==> flags[j] == cur,
                    idx_int == usize_view(idx@),
                    flags == position_flags(text@.len(), idx_int),
                    runs(text@.take(i as int), flags.take(i as int)) == span_views(r@) + (if i
                        > start {
                        seq![
                            (SpanV {
                                matched: cur,
                                text: text@.subrange(start as int, i as int),
                            }),
                        ]
                    } else {
                        Seq::<SpanV>::empty()
                    }),
                decreases n - i,
            {
                let m = index_is_matched(idx, i);
                proof {
                    assert(position_flags(text@.len(), idx_int)[i as int] == idx_int.contains(
                        i as int,
                    ));
                    assert(flags[i as int] == m);
                }
                if m != cur && i > start {
                    // the run in progress ends here
                    let seg = text.substring_char(start, i);
                    let ghost oc = cur;
                    if cur {
                        r.push(MatchElement::Matched(seg.to_owned()));
                    } else {
                        r.push(MatchElement::Unmatched(seg.to_owned()));
                    }
                    proof {
                        assert(span_views(r@) =~= span_views(r@.drop_last()) + seq![
                            SpanV { matched: oc, text: text@.subrange(start as int, i as int) },
                        ]);
                        assert(span_views(r@) =~= runs(
                            text@.take(i as int),
                            flags.take(i as int),
                        ));
                        assert(span_views(r@).last().matched == oc);
                    }
                    start = i;
                    cur = m;
                }
                proof {
                    let tprev = text@.take(i as int);
                    let fprev = flags.take(i as int);
                    let tcur = text@.take(i + 1);
                    let fcur = flags.take(i + 1);
                    assert(tcur.drop_last() =~= tprev);
                    assert(fcur.drop_last() =~= fprev);
                    assert(tcur.last() == text@[i as int]);
                    assert(fcur[tcur.len() - 1] == flags[i as int]);
                    assert(cur == flags[i as int]);
                    let prev_runs = runs(tprev, fprev);
                    if i > start {
                        // extending the run in progress
                        assert(prev_runs.len() > 0 && prev_runs.last() == SpanV {
                            matched: cur,
                            text: text@.subrange(start as int, i as int),
                        });
                        assert(runs(tcur, fcur) == prev_runs.update(
                            prev_runs.len() - 1,
                            SpanV {
                                matched: cur,
                                text: text@.subrange(start as int, i as int).push(text@[i as int]),
                            },
                        ));
                        assert(text@.subrange(start as int, i as int).push(text@[i as int])
                            =~= text@.subrange(start as int, i + 1));
                        assert(runs(tcur, fcur) =~= span_views(r@) + seq![
                            SpanV { matched: cur, text: text@.subrange(start as int, i + 1) },
                        ]);
                    } else {
                        // a new run opens here: the previous one, if any, has the
                        // opposite flag
                        assert(prev_runs == span_views(r@));
                        assert(prev_runs.len() > 0 ==> prev_runs.last().matched != cur);
                        assert(runs(tcur, fcur) == prev_runs.push(
                            SpanV { matched: flags[i as int], text: seq![text@[i as int]] },
                        ));
                        assert(seq![text@[i as int]] =~= text@.subrange(start as int, i + 1));
                        assert(runs(tcur, fcur) =~= span_views(r@) + seq![
                            SpanV { matched: cur, text: text@.subrange(start as int, i + 1) },
                        ]);
                    }
                }
                i += 1;
            }
            // close the final run
            let seg = text.substring_char(start, n);
            if cur {
                r.push(MatchElement::Matched(seg.to_owned()));
            } else {
                r.push(MatchElement::Unmatched(seg.to_owned()));
            }
            proof {
                assert(span_views(r@) =~= span_views(r@.drop_last()) + seq![
                    SpanV { matched: cur, text: text@.subrange(start as int, n as int) },
                ]);
                assert(text@.take(n as int) =~= text@);
                assert(flags.take(n as int) =~= flags);
            }
            r
        },
    }
}

} // verus!
