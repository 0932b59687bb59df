//! Byte ranges of styled text: moving highlights into a slice of a line,
//! cutting styled runs to a range, and laying the selection over the
//! highlights.
use vstd::prelude::*;
use std::ops::Range;

verus! {

/// A highlight as numbers: its byte range and its style.
pub open spec fn hl_view<S>(h: (Range<usize>, S)) -> ((int, int), S) {
    ((h.0.start as int, h.0.end as int), h.1)
}

/// The models of a list of highlights.
pub open spec fn hl_views<S>(hs: Seq<(Range<usize>, S)>) -> Seq<((int, int), S)> {
    hs.map_values(|h: (Range<usize>, S)| hl_view(h))
}

/// The highlights that reach into the bytes `a..b`, cut to them and moved
/// so that `a` becomes 0, in order.
pub open spec fn adjusted<S>(hs: Seq<((int, int), S)>, a: int, b: int) -> Seq<((int, int), S)>
    decreases hs.len(),
{
    if hs.len() == 0 {
        seq![]
    } else {
        let h = hs.last();
        let (s, e) = h.0;
        adjusted(hs.drop_last(), a, b) + if s >= b || e <= a {
            seq![]
        } else {
            seq![
                ((
                    if s > a {
                        s
                    } else {
                        a
                    } - a,
                    if e < b {
                        e
                    } else {
                        b
                    } - a,
                ), h.1),
            ]
        }
    }
}

/// The highlights of a line moved into its slice `offset_start..offset_end`
/// (see [`adjusted`]).
pub fn adjust_highlight_offsets<S: Copy>(
    highlights: &[(Range<usize>, S)],
    offset_start: usize,
    offset_end: usize,
) -> (r: Vec<(Range<usize>, S)>)
    requires
        offset_start <= offset_end,
    ensures
        hl_views(r@) == adjusted(hl_views(highlights@), offset_start as int, offset_end as int),
{
    let ghost hs = hl_views(highlights@);
    let mut out: Vec<(Range<usize>, S)> = Vec::new();
    let mut i: usize = 0;
    while i < highlights.len()
        invariant
            i <= highlights@.len(),
            hs == hl_views(highlights@),
            offset_start <= offset_end,
            hl_views(out@) == adjusted(hs.take(i as int), offset_start as int, offset_end as int),
        decreases highlights@.len() - i,
    {
        let s = highlights[i].0.start;
        let e = highlights[i].0.end;
        let st = highlights[i].1;
        let ghost before = out@;
        if !(s >= offset_end || e <= offset_start) {
            let ns = (if s > offset_start {
                s
            } else {
                offset_start
            }) - offset_start;
            let ne = (if e < offset_end {
                e
            } else {
                offset_end
            }) - offset_start;
            out.push((ns..ne, st));
        }
        proof {
            assert(hs.take(i + 1).drop_last() =~= hs.take(i as int));
            assert(hs.take(i + 1).last() == hs[i as int]);
            assert(hl_views(out@) =~= adjusted(hs.take(i + 1), offset_start as int, offset_end as int));
        }
        i += 1;
    }
    proof {
        assert(hs.take(i as int) =~= hs);
    }
    out
}

/// Sum of the first `k` run lengths.
pub open spec fn runs_before(lens: Seq<usize>, k: int) -> int
    decreases k,
{
    if k <= 0 || k > lens.len() {
        0
    } else {
        runs_before(lens, k - 1) + lens[k - 1]
    }
}

/// The runs from run `k` on, cut to the bytes `start..end`: for each run
/// that reaches into them, its index and the length of its part inside.
pub open spec fn sliced_from(lens: Seq<usize>, start: int, end: int, k: int) -> Seq<(int, int)>
    decreases lens.len() - k,
{
    if k < 0 || k >= lens.len() {
        seq![]
    } else {
        let rs = runs_before(lens, k);
        let re = rs + lens[k];
        if re <= start {
            sliced_from(lens, start, end, k + 1)
        } else if rs >= end {
            seq![]
        } else {
            let cs = if start > rs {
                start
            } else {
                rs
            };
            let ce = if end < re {
                end
            } else {
                re
            };
            if ce <= cs {
                sliced_from(lens, start, end, k + 1)
            } else {
                seq![(k, ce - cs)] + sliced_from(lens, start, end, k + 1)
            }
        }
    }
}

proof fn lemma_runs_before_mono(lens: Seq<usize>, j: int, k: int)
    requires
        0 <= j <= k <= lens.len(),
    ensures
        runs_before(lens, j) <= runs_before(lens, k),
    decreases k - j,
{
    if j < k {
        lemma_runs_before_mono(lens, j, k - 1);
    }
}

/// Pairs of numbers as integers.
pub open spec fn pair_views(v: Seq<(usize, usize)>) -> Seq<(int, int)> {
    v.map_values(|p: (usize, usize)| (p.0 as int, p.1 as int))
}

/// The styled runs of a line, given by their lengths, cut to the bytes
/// `start..end` (see [`sliced_from`]): each kept run's index and its new
/// length.
pub fn slice_runs(lens: &[usize], start: usize, end: usize) -> (r: Vec<(usize, usize)>)
    requires
        runs_before(lens@, lens@.len() as int) <= usize::MAX,
    ensures
        pair_views(r@) == sliced_from(
            lens@,
            start as int,
            end as int,
            0,
        ),
{
    let ghost total = sliced_from(lens@, start as int, end as int, 0);
    let mut out: Vec<(usize, usize)> = Vec::new();
    let mut cursor: usize = 0;
    let mut k: usize = 0;
    while k < lens.len()
        invariant
            k <= lens@.len(),
            cursor == runs_before(lens@, k as int),
            runs_before(lens@, lens@.len() as int) <= usize::MAX,
            total == sliced_from(lens@, start as int, end as int, 0),
            pair_views(out@) + sliced_from(
                lens@,
                start as int,
                end as int,
                k as int,
            ) == total,
        decreases lens@.len() - k,
    {
        proof {
            lemma_runs_before_mono(lens@, k + 1, lens@.len() as int);
        }
        let run_start = cursor;
        let run_end = cursor + lens[k];
        cursor = run_end;
        let ghost before = out@;
        if run_end <= start {
            k += 1;
            continue;
        }
        if run_start >= end {
            proof {
                assert(sliced_from(lens@, start as int, end as int, k as int) =~= seq![]);
                assert(pair_views(out@) + seq![]
                    =~= pair_views(out@));
            }
            return out;
        }
        let clip_start = if start > run_start {
            start
        } else {
            run_start
        };
        let clip_end = if end < run_end {
            end
        } else {
            run_end
        };
        if clip_end > clip_start {
            out.push((k, clip_end - clip_start));
            proof {
                assert(pair_views(out@) =~= pair_views(before).push((k as int, clip_end - clip_start)));
            }
        }
        k += 1;
    }
    proof {
        assert(pair_views(out@) + seq![]
            =~= pair_views(out@));
    }
    out
}

/// How a piece of the line looks once the selection is laid over the
/// highlights: a highlight left as it is, a highlight with the selection's
/// background, or the selection's background alone.
#[derive(Debug, Clone, Copy, PartialEq, Eq)]
pub enum Overlay<S> {
    Style(S),
    Selected(S),
    Selection,
}

/// The smaller of two numbers.
pub open spec fn min_int(a: int, b: int) -> int {
    if a < b {
        a
    } else {
        b
    }
}

/// The larger of two numbers.
pub open spec fn max_int(a: int, b: int) -> int {
    if a > b {
        a
    } else {
        b
    }
}

/// One highlight with the selection `s0..s1` laid over it, the selected
/// bytes before `pos` already covered: the pieces it becomes, and how far
/// the selection is covered after it.
pub open spec fn overlay_one<S>(h: ((int, int), S), s0: int, s1: int, pos: int) -> (
    Seq<((int, int), Overlay<S>)>,
    int,
) {
    let (a, b) = h.0;
    let st = h.1;
    if b <= s0 || a >= s1 {
        (seq![((a, b), Overlay::Style(st))], pos)
    } else {
        let gap = if pos < a && pos < min_int(a, s1) {
            seq![((pos, min_int(a, s1)), Overlay::Selection)]
        } else {
            seq![]
        };
        let before = if a < s0 {
            seq![((a, s0), Overlay::Style(st))]
        } else {
            seq![]
        };
        let after = if b > s1 {
            seq![((s1, b), Overlay::Style(st))]
        } else {
            seq![]
        };
        (
            gap + before + seq![((max_int(a, s0), min_int(b, s1)), Overlay::Selected(st))] + after,
            min_int(b, s1),
        )
    }
}

/// The highlights with the selection `s0..s1` laid over them, in order,
/// the selected bytes before `pos` already covered; the selected bytes
/// that no highlight covers get the selection's background alone.
pub open spec fn overlay_from<S>(hs: Seq<((int, int), S)>, s0: int, s1: int, pos: int) -> Seq<
    ((int, int), Overlay<S>),
>
    decreases hs.len(),
{
    if hs.len() == 0 {
        if pos < s1 {
            seq![((pos, s1), Overlay::Selection)]
        } else {
            seq![]
        }
    } else {
        let (items, p2) = overlay_one(hs[0], s0, s1, pos);
        items + overlay_from(hs.drop_first(), s0, s1, p2)
    }
}

/// The highlights with the selection laid over them: unchanged for an
/// empty selection, else [`overlay_from`] from the selection's start,
/// ordered by where each piece starts.
pub open spec fn overlaid<S>(hs: Seq<((int, int), S)>, s0: int, s1: int) -> Seq<
    ((int, int), Overlay<S>),
> {
    if s0 >= s1 {
        hs.map_values(|h: ((int, int), S)| (h.0, Overlay::Style(h.1)))
    } else {
        sorted_by_start(overlay_from(hs, s0, s1, s0))
    }
}

/// Index of the first piece from `i` on that starts after `key`.
pub open spec fn first_after<T>(s: Seq<((int, int), T)>, key: int, i: int) -> int
    decreases s.len() - i,
{
    if i < 0 || i >= s.len() {
        s.len() as int
    } else if s[i].0.0 > key {
        i
    } else {
        first_after(s, key, i + 1)
    }
}

/// The pieces ordered by where they start, pieces that start at the same
/// byte keeping their order (a stable sort): each piece is put after the
/// pieces before it that start at or before it.
pub open spec fn sorted_by_start<T>(v: Seq<((int, int), T)>) -> Seq<((int, int), T)>
    decreases v.len(),
{
    if v.len() == 0 {
        v
    } else {
        let s = sorted_by_start(v.drop_last());
        s.insert(first_after(s, v.last().0.0, 0), v.last())
    }
}

proof fn lemma_first_after_bounds<T>(s: Seq<((int, int), T)>, key: int, i: int)
    requires
        0 <= i <= s.len(),
    ensures
        i <= first_after(s, key, i) <= s.len(),
    decreases s.len() - i,
{
    if i < s.len() && !(s[i].0.0 > key) {
        lemma_first_after_bounds(s, key, i + 1);
    }
}

proof fn lemma_sorted_len<T>(v: Seq<((int, int), T)>)
    ensures
        sorted_by_start(v).len() == v.len(),
    decreases v.len(),
{
    if v.len() > 0 {
        lemma_sorted_len(v.drop_last());
        lemma_first_after_bounds(sorted_by_start(v.drop_last()), v.last().0.0, 0);
    }
}

/// The pieces ordered by where they start (see [`sorted_by_start`]).
fn sort_by_start<S: Copy>(v: Vec<(Range<usize>, Overlay<S>)>) -> (r: Vec<(Range<usize>, Overlay<S>)>)
    ensures
        ov_views(r@) == sorted_by_start(ov_views(v@)),
{
    let ghost vs = ov_views(v@);
    let mut out: Vec<(Range<usize>, Overlay<S>)> = Vec::new();
    let mut i: usize = 0;
    proof {
        assert(vs.take(0) =~= Seq::<((int, int), Overlay<S>)>::empty());
        assert(ov_views(out@) =~= Seq::<((int, int), Overlay<S>)>::empty());
    }
    while i < v.len()
        invariant
            i <= v@.len(),
            vs == ov_views(v@),
            ov_views(out@) == sorted_by_start(vs.take(i as int)),
        decreases v@.len() - i,
    {
        let key = v[i].0.start;
        let ghost s = ov_views(out@);
        proof {
            lemma_sorted_len(vs.take(i as int));
        }
        let mut j: usize = 0;
        while j < out.len() && out[j].0.start <= key
            invariant
                j <= out@.len(),
                s == ov_views(out@),
                first_after(s, key as int, 0) == first_after(s, key as int, j as int),
            decreases out@.len() - j,
        {
            j += 1;
        }
        proof {
            assert(first_after(s, key as int, j as int) == j);
        }
        let item = (v[i].0.start..v[i].0.end, v[i].1);
        out.insert(j, item);
        proof {
            let t = vs.take(i + 1);
            assert(t.drop_last() =~= vs.take(i as int));
            assert(t.last() == vs[i as int]);
            assert(vs[i as int].0.0 == key);
            assert(ov_views(out@) =~= s.insert(j as int, vs[i as int]));
        }
        i += 1;
    }
    proof {
        assert(vs.take(i as int) =~= vs);
    }
    out
}

/// The model of a list of laid-over pieces.
pub open spec fn ov_views<S>(v: Seq<(Range<usize>, Overlay<S>)>) -> Seq<((int, int), Overlay<S>)> {
    v.map_values(|p: (Range<usize>, Overlay<S>)| ((p.0.start as int, p.0.end as int), p.1))
}

/// Lays the selection over the highlights of a line (see [`overlaid`]).
pub fn overlay_selection<S: Copy>(highlights: Vec<(Range<usize>, S)>, sel: Range<usize>) -> (r: Vec<
    (Range<usize>, Overlay<S>),
>)
    ensures
        ov_views(r@) == overlaid(hl_views(highlights@), sel.start as int, sel.end as int),
{
    let ghost hs = hl_views(highlights@);
    let ghost s0 = sel.start as int;
    let ghost s1 = sel.end as int;
    let mut result: Vec<(Range<usize>, Overlay<S>)> = Vec::new();
    if sel.start >= sel.end {
        let mut i: usize = 0;
        while i < highlights.len()
            invariant
                i <= highlights@.len(),
                hs == hl_views(highlights@),
                ov_views(result@) == hs.take(i as int).map_values(
                    |h: ((int, int), S)| (h.0, Overlay::Style(h.1)),
                ),
            decreases highlights@.len() - i,
        {
            let s = highlights[i].0.start;
            let e = highlights[i].0.end;
            let ghost before = ov_views(result@);
            result.push((s..e, Overlay::Style(highlights[i].1)));
            proof {
                assert(hs[i as int] == hl_view(highlights@[i as int]));
                assert(ov_views(result@) =~= before.push(((s as int, e as int), Overlay::Style(highlights@[i as int].1))));
                assert(hs.take(i + 1) =~= hs.take(i as int).push(hs[i as int]));
                assert(ov_views(result@) =~= hs.take(i + 1).map_values(
                    |h: ((int, int), S)| (h.0, Overlay::Style(h.1)),
                ));
            }
            i += 1;
        }
        proof {
            assert(hs.take(i as int) =~= hs);
        }
        return result;
    }
    let mut pos = sel.start;
    let mut i: usize = 0;
    proof {
        assert(hs.skip(0) =~= hs);
        assert(ov_views(result@) =~= Seq::<((int, int), Overlay<S>)>::empty());
        assert(ov_views(result@) + overlay_from(hs, s0, s1, s0) =~= overlay_from(hs, s0, s1, s0));
    }
    while i < highlights.len()
        invariant
            i <= highlights@.len(),
            hs == hl_views(highlights@),
            s0 == sel.start,
            s1 == sel.end,
            s0 < s1,
            ov_views(result@) + overlay_from(hs.skip(i as int), s0, s1, pos as int) == overlay_from(
                hs,
                s0,
                s1,
                s0,
            ),
        decreases highlights@.len() - i,
    {
        let a = highlights[i].0.start;
        let b = highlights[i].0.end;
        let st = highlights[i].1;
        let ghost before = ov_views(result@);
        let ghost p0 = pos as int;
        proof {
            assert(hs.skip(i as int)[0] == hs[i as int]);
            assert(hs.skip(i as int).drop_first() =~= hs.skip(i + 1));
        }
        if b <= sel.start || a >= sel.end {
            result.push((a..b, Overlay::Style(st)));
            proof {
                assert(ov_views(result@) =~= before + overlay_one(hs[i as int], s0, s1, p0).0);
            }
        } else {
            if pos < a {
                let gap_end = if a < sel.end {
                    a
                } else {
                    sel.end
                };
                if pos < gap_end {
                    result.push((pos..gap_end, Overlay::Selection));
                }
            }
            if a < sel.start {
                result.push((a..sel.start, Overlay::Style(st)));
            }
            let o_start = if a > sel.start {
                a
            } else {
                sel.start
            };
            let o_end = if b < sel.end {
                b
            } else {
                sel.end
            };
            result.push((o_start..o_end, Overlay::Selected(st)));
            pos = o_end;
            if b > sel.end {
                result.push((sel.end..b, Overlay::Style(st)));
            }
            proof {
                assert(ov_views(result@) =~= before + overlay_one(hs[i as int], s0, s1, p0).0);
                assert(pos == overlay_one(hs[i as int], s0, s1, p0).1);
            }
        }
        proof {
            assert(before + overlay_from(hs.skip(i as int), s0, s1, p0) =~= ov_views(result@)
                + overlay_from(hs.skip(i + 1), s0, s1, pos as int));
        }
        i += 1;
    }
    let ghost before = ov_views(result@);
    proof {
        assert(hs.skip(i as int) =~= Seq::<((int, int), S)>::empty());
    }
    if pos < sel.end {
        result.push((pos..sel.end, Overlay::Selection));
        proof {
            assert(ov_views(result@) =~= before + seq![((pos as int, s1), Overlay::<S>::Selection)]);
        }
    } else {
        proof {
            assert(ov_views(result@) =~= before + Seq::<((int, int), Overlay<S>)>::empty());
        }
    }
    sort_by_start(result)
}

} // verus!
