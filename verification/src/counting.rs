//! The frequency counter: for each distinct span content it keeps one
//! accumulator `(representative span, count, last end)`. Spans arrive in
//! ascending-start order; a span is counted only when its start lies strictly
//! after the accumulator's last counted end, which yields a greedy
//! non-overlapping occurrence count per content.

use vstd::prelude::*;

use crate::subdivision::{span_allowed, span_content, sorted_by_start, Subdivision};
use crate::token::{spellings, Token};

verus! {

/// One accumulator of the counter: the first span seen with this content,
/// how many non-overlapping occurrences were counted, and the end index of
/// the last counted occurrence.
#[derive(Clone, Copy, Debug, PartialEq, Eq, Structural)]
pub struct CountedSpan {
    pub sub: Subdivision,
    pub count: usize,
    pub last_end: usize,
}

/// The accumulators as mathematical triples `(span, count, last end)`.
pub open spec fn entries_view(s: Seq<CountedSpan>) -> Seq<(Subdivision, int, int)> {
    Seq::new(s.len(), |i: int| (s[i].sub, s[i].count as int, s[i].last_end as int))
}

/// The first accumulator whose content equals `c`, or `-1` if none does.
pub open spec fn index_of_content(
    toks: Seq<Seq<u8>>,
    acc: Seq<(Subdivision, int, int)>,
    c: Seq<Seq<u8>>,
) -> int
    decreases acc.len(),
{
    if acc.len() == 0 {
        -1
    } else if span_content(toks, acc[0].0.start as int, acc[0].0.end as int) == c {
        0
    } else {
        let r = index_of_content(toks, acc.drop_first(), c);
        if r < 0 {
            -1
        } else {
            r + 1
        }
    }
}

/// `index_of_content` names the first accumulator with the given content.
pub proof fn lemma_index_of_content(
    toks: Seq<Seq<u8>>,
    acc: Seq<(Subdivision, int, int)>,
    c: Seq<Seq<u8>>,
)
    ensures
        ({
            let j = index_of_content(toks, acc, c);
            &&& -1 <= j < acc.len()
            &&& j >= 0 ==> span_content(toks, acc[j].0.start as int, acc[j].0.end as int) == c
            &&& forall|k: int|
                0 <= k < acc.len() && (j == -1 || k < j) ==> span_content(
                    toks,
                    (#[trigger] acc[k]).0.start as int,
                    acc[k].0.end as int,
                ) != c
        }),
    decreases acc.len(),
{
    if acc.len() == 0 {
    } else if span_content(toks, acc[0].0.start as int, acc[0].0.end as int) == c {
    } else {
        lemma_index_of_content(toks, acc.drop_first(), c);
        let j = index_of_content(toks, acc, c);
        let jr = index_of_content(toks, acc.drop_first(), c);
        assert forall|k: int|
            0 <= k < acc.len() && (j == -1 || k < j) implies span_content(
            toks,
            (#[trigger] acc[k]).0.start as int,
            acc[k].0.end as int,
        ) != c by {
            if k > 0 {
                assert(acc[k] == acc.drop_first()[k - 1]);
            }
        }
        if jr >= 0 {
            assert(acc[jr + 1] == acc.drop_first()[jr]);
        }
    }
}

/// Feed one span to the accumulators: create an accumulator for a content
/// seen for the first time, count the span when it starts strictly after the
/// accumulator's last counted end, and skip it otherwise.
pub open spec fn add_span(
    toks: Seq<Seq<u8>>,
    acc: Seq<(Subdivision, int, int)>,
    sub: Subdivision,
) -> Seq<(Subdivision, int, int)> {
    let c = span_content(toks, sub.start as int, sub.end as int);
    let j = index_of_content(toks, acc, c);
    if j < 0 {
        acc.push((sub, 1, sub.end as int))
    } else if sub.start > acc[j].2 {
        acc.update(j, (acc[j].0, acc[j].1 + 1, sub.end as int))
    } else {
        acc
    }
}

/// The accumulators after feeding the whole span list, in the order in which
/// each distinct content was first seen.
pub open spec fn counts_list(toks: Seq<Seq<u8>>, subs: Seq<Subdivision>) -> Seq<
    (Subdivision, int, int),
>
    decreases subs.len(),
{
    if subs.len() == 0 {
        Seq::empty()
    } else {
        add_span(toks, counts_list(toks, subs.drop_last()), subs.last())
    }
}

/// Bounds on every accumulator over a list of allowed spans: each counted
/// occurrence moves the last end forward by at least two, so `2 * count - 1`
/// never passes the last end, which stays inside the stream.
pub proof fn lemma_counts_bounded(toks: Seq<Seq<u8>>, subs: Seq<Subdivision>)
    requires
        forall|k: int|
            0 <= k < subs.len() ==> span_allowed(
                toks,
                (#[trigger] subs[k]).start as int,
                subs[k].end as int,
            ),
    ensures
        forall|j: int|
            0 <= j < counts_list(toks, subs).len() ==> {
                let e = #[trigger] counts_list(toks, subs)[j];
                &&& 1 <= e.1
                &&& 2 * e.1 - 1 <= e.2
                &&& e.2 < toks.len()
                &&& span_allowed(toks, e.0.start as int, e.0.end as int)
            },
    decreases subs.len(),
{
    if subs.len() == 0 {
    } else {
        lemma_counts_bounded(toks, subs.drop_last());
        let prev = counts_list(toks, subs.drop_last());
        let sub = subs.last();
        assert(span_allowed(toks, sub.start as int, sub.end as int));
        let c = span_content(toks, sub.start as int, sub.end as int);
        lemma_index_of_content(toks, prev, c);
    }
}

/// Content equality of two spans of the same stream.
fn spans_equal_content(tokens: &Vec<Token>, a: Subdivision, b: Subdivision) -> (r: bool)
    requires
        a.start <= a.end < tokens@.len(),
        b.start <= b.end < tokens@.len(),
    ensures
        r == (span_content(spellings(tokens@), a.start as int, a.end as int) == span_content(
            spellings(tokens@),
            b.start as int,
            b.end as int,
        )),
{
    let ghost toks = spellings(tokens@);
    let ghost ca = span_content(toks, a.start as int, a.end as int);
    let ghost cb = span_content(toks, b.start as int, b.end as int);
    let n = tokens.len();
    let len_a = a.end - a.start;
    let len_b = b.end - b.start;
    if len_a != len_b {
        proof {
            assert(ca.len() != cb.len());
        }
        return false;
    }
    let mut i: usize = 0;
    while i <= len_a
        invariant
            len_a == a.end - a.start,
            len_a == b.end - b.start,
            a.start <= a.end < n,
            b.start <= b.end < n,
            n == tokens@.len(),
            i <= len_a + 1,
            toks == spellings(tokens@),
            ca == span_content(toks, a.start as int, a.end as int),
            cb == span_content(toks, b.start as int, b.end as int),
            forall|j: int| 0 <= j < i ==> #[trigger] ca[j] == cb[j],
        decreases len_a + 1 - i,
    {
        if !tokens[a.start + i].eq_spelling(&tokens[b.start + i]) {
            proof {
                assert(ca[i as int] == toks[a.start + i]);
                assert(cb[i as int] == toks[b.start + i]);
            }
            return false;
        }
        proof {
            assert(ca[i as int] == toks[a.start + i]);
            assert(cb[i as int] == toks[b.start + i]);
        }
        i += 1;
    }
    proof {
        assert(ca =~= cb);
    }
    true
}

/// The frequency counter: fold the span list, which must be sorted by
/// ascending start, into one `(representative, count, last end)` accumulator
/// per distinct span content.
pub fn unique_lists_with_counts(tokens: &Vec<Token>, subs: &Vec<Subdivision>) -> (r: Vec<
    CountedSpan,
>)
    requires
        sorted_by_start(subs@),
        forall|k: int|
            0 <= k < subs@.len() ==> span_allowed(
                spellings(tokens@),
                (#[trigger] subs@[k]).start as int,
                subs@[k].end as int,
            ),
    ensures
        entries_view(r@) == counts_list(spellings(tokens@), subs@),
{
    let ghost toks = spellings(tokens@);
    let mut acc: Vec<CountedSpan> = Vec::new();
    let mut i: usize = 0;
    proof {
        assert(entries_view(acc@) =~= counts_list(toks, subs@.take(0)));
    }
    while i < subs.len()
        invariant
            i <= subs@.len(),
            toks == spellings(tokens@),
            sorted_by_start(subs@),
            forall|k: int|
                0 <= k < subs@.len() ==> span_allowed(
                    toks,
                    (#[trigger] subs@[k]).start as int,
                    subs@[k].end as int,
                ),
            entries_view(acc@) == counts_list(toks, subs@.take(i as int)),
            forall|j: int| 0 <= j < acc@.len() ==> (#[trigger] acc@[j]).count <= i,
            forall|k: int|
                0 <= k < acc@.len() ==> (#[trigger] acc@[k]).sub.start <= acc@[k].sub.end
                    < tokens@.len(),
        decreases subs@.len() - i,
    {
        let sub = subs[i];
        proof {
            assert(span_allowed(toks, sub.start as int, sub.end as int));
        }
        let ghost acc_old = entries_view(acc@);
        let ghost c = span_content(toks, sub.start as int, sub.end as int);
        proof {
            lemma_index_of_content(toks, acc_old, c);
        }
        let mut j: usize = 0;
        let mut found = false;
        while j < acc.len() && !found
            invariant
                j <= acc@.len(),
                toks == spellings(tokens@),
                acc_old == entries_view(acc@),
                c == span_content(toks, sub.start as int, sub.end as int),
                sub.start <= sub.end < tokens@.len(),
                forall|k: int| 0 <= k < acc@.len() ==> (#[trigger] acc@[k]).sub.start
                    <= acc@[k].sub.end < tokens@.len(),
                !found ==> forall|k: int|
                    0 <= k < j ==> span_content(
                        toks,
                        (#[trigger] acc@[k]).sub.start as int,
                        acc@[k].sub.end as int,
                    ) != c,
                found ==> j < acc@.len() && span_content(
                    toks,
                    acc@[j as int].sub.start as int,
                    acc@[j as int].sub.end as int,
                ) == c && forall|k: int|
                    0 <= k < j ==> span_content(
                        toks,
                        (#[trigger] acc@[k]).sub.start as int,
                        acc@[k].sub.end as int,
                    ) != c,
            decreases acc@.len() - j + (if found { 0int } else { 1int }),
        {
            if spans_equal_content(tokens, acc[j].sub, sub) {
                found = true;
            } else {
                j += 1;
            }
        }
        proof {
            lemma_index_of_content(toks, acc_old, c);
            let jj = index_of_content(toks, acc_old, c);
            if found {
                assert(acc_old[j as int].0 == acc@[j as int].sub);
                if jj < j as int {
                    if jj >= 0 {
                        assert(acc_old[jj].0 == acc@[jj].sub);
                    }
                    assert(false);
                } else if jj > j as int {
                    assert(false);
                }
                assert(jj == j as int);
            } else {
                if jj >= 0 {
                    assert(acc_old[jj].0 == acc@[jj].sub);
                    assert(false);
                }
                assert(jj == -1);
            }
        }
        if found {
            if sub.start > acc[j].last_end {
                let old_entry = acc[j];
                acc[j] = CountedSpan {
                    sub: old_entry.sub,
                    count: old_entry.count + 1,
                    last_end: sub.end,
                };
                proof {
                    assert(entries_view(acc@) =~= add_span(toks, acc_old, sub));
                }
            } else {
                proof {
                    assert(entries_view(acc@) =~= add_span(toks, acc_old, sub));
                }
            }
        } else {
            acc.push(CountedSpan { sub, count: 1, last_end: sub.end });
            proof {
                assert(entries_view(acc@) =~= add_span(toks, acc_old, sub));
            }
        }
        proof {
            assert(subs@.take(i + 1).drop_last() =~= subs@.take(i as int));
            assert(subs@.take(i + 1).last() == sub);
        }
        i += 1;
    }
    proof {
        assert(subs@.take(i as int) =~= subs@);
    }
    acc
}


/// The aligned occurrence of the pattern at repetition `j`.
pub open spec fn aligned_span(j: int, ll: int) -> Subdivision {
    Subdivision { start: (j * ll) as usize, end: (j * ll + ll - 1) as usize }
}

/// The shape hypotheses of the repeated-pattern law: the stream is the
/// pattern `p` laid down `k` times back to back, the span list is sorted
/// by start with every span in bounds, and the `k` aligned pattern
/// occurrences all appear in the list.
pub open spec fn repeated_pattern_setup(
    toks: Seq<Seq<u8>>,
    subs: Seq<Subdivision>,
    p: Seq<Seq<u8>>,
    ll: int,
    k: int,
) -> bool {
    &&& ll >= 2
    &&& k >= 1
    &&& p.len() == ll
    &&& toks.len() == k * ll
    &&& toks.len() <= usize::MAX
    &&& forall|j: int, r: int|
        0 <= j < k && 0 <= r < ll ==> #[trigger] toks[j * ll + r] == p[r]
    &&& sorted_by_start(subs)
    &&& forall|idx: int|
        0 <= idx < subs.len() ==> (#[trigger] subs[idx]).start <= subs[idx].end
            && subs[idx].end < toks.len()
    &&& forall|j: int|
        #![trigger aligned_span(j, ll)]
        0 <= j < k ==> exists|idx: int|
            0 <= idx < subs.len() && #[trigger] subs[idx] == aligned_span(j, ll)
}

/// An aligned occurrence denotes the pattern itself.
proof fn lemma_aligned_content(toks: Seq<Seq<u8>>, p: Seq<Seq<u8>>, ll: int, k: int, j: int)
    requires
        ll >= 2,
        k >= 1,
        p.len() == ll,
        toks.len() == k * ll,
        forall|jj: int, r: int|
            0 <= jj < k && 0 <= r < ll ==> #[trigger] toks[jj * ll + r] == p[r],
        0 <= j < k,
    ensures
        j * ll >= 0,
        j * ll + ll <= toks.len(),
        span_content(toks, j * ll, j * ll + ll - 1) == p,
{
    assert(j * ll >= 0) by (nonlinear_arith)
        requires
            j >= 0 && ll >= 2,
    ;
    assert(j * ll + ll <= k * ll) by (nonlinear_arith)
        requires
            j < k && ll >= 2,
    ;
    let c = span_content(toks, j * ll, j * ll + ll - 1);
    assert forall|r: int| 0 <= r < ll implies c[r] == p[r] by {
        assert(c[r] == toks[j * ll + r]);
    }
    assert(c =~= p);
}

/// A span whose content is the pattern covers exactly `ll` tokens.
proof fn lemma_pattern_span_shape(
    toks: Seq<Seq<u8>>,
    p: Seq<Seq<u8>>,
    ll: int,
    k: int,
    sub: Subdivision,
)
    requires
        ll >= 2,
        k >= 1,
        p.len() == ll,
        toks.len() == k * ll,
        sub.start <= sub.end < toks.len(),
        span_content(toks, sub.start as int, sub.end as int) == p,
    ensures
        sub.end == sub.start + ll - 1,
        sub.start + ll <= toks.len(),
{
    assert(span_content(toks, sub.start as int, sub.end as int).len() == sub.end + 1 - sub.start);
}

/// The greedy accumulator of the pattern's content walks the aligned
/// occurrences: after any prefix of the sorted span list, either no
/// pattern span was seen, or the accumulator holds `(c, c * ll - 1)` and
/// no aligned occurrence at repetition `c` or later has been processed.
#[verifier::rlimit(100)]
proof fn lemma_repeated_prefix(
    toks: Seq<Seq<u8>>,
    subs: Seq<Subdivision>,
    p: Seq<Seq<u8>>,
    ll: int,
    k: int,
    m: int,
)
    requires
        repeated_pattern_setup(toks, subs, p, ll, k),
        0 <= m <= subs.len(),
    ensures
        ({
            let cl = counts_list(toks, subs.take(m));
            let j = index_of_content(toks, cl, p);
            &&& (j == -1 ==> forall|idx: int|
                0 <= idx < m ==> span_content(
                    toks,
                    (#[trigger] subs[idx]).start as int,
                    subs[idx].end as int,
                ) != p)
            &&& (j >= 0 ==> {
                let c = cl[j].1;
                let e = cl[j].2;
                &&& 1 <= c <= k
                &&& e == c * ll - 1
                &&& (forall|idx: int, jj: int|
                    #![trigger subs[idx], aligned_span(jj, ll)]
                    0 <= idx < m && c <= jj < k ==> subs[idx] != aligned_span(jj, ll))
            })
        }),
    decreases m,
{
    if m == 0 {
        assert(subs.take(0) =~= Seq::<Subdivision>::empty());
    } else {
        lemma_repeated_prefix(toks, subs, p, ll, k, m - 1);
        let pre = subs.take(m - 1);
        let pre1 = subs.take(m);
        assert(pre1.drop_last() =~= pre);
        assert(pre1.last() == subs[m - 1]);
        let sub = subs[m - 1];
        let cl = counts_list(toks, pre);
        let cl1 = counts_list(toks, pre1);
        assert(cl1 == add_span(toks, cl, sub));
        let j = index_of_content(toks, cl, p);
        let j1 = index_of_content(toks, cl1, p);
        lemma_index_of_content(toks, cl, p);
        lemma_index_of_content(toks, cl1, p);
        let sc = span_content(toks, sub.start as int, sub.end as int);
        let js = index_of_content(toks, cl, sc);
        lemma_index_of_content(toks, cl, sc);
        if sc == p {
            lemma_pattern_span_shape(toks, p, ll, k, sub);
            if j == -1 {
                assert(js == -1);
                assert(cl1 == cl.push((sub, 1int, sub.end as int)));
                assert(cl1[cl.len() as int] == (sub, 1int, sub.end as int));
                if j1 == -1 {
                    assert(span_content(toks, cl1[cl.len() as int].0.start as int,
                        cl1[cl.len() as int].0.end as int) != p);
                    assert(false);
                }
                assert(j1 == cl.len()) by {
                    if j1 < cl.len() {
                        assert(cl1[j1] == cl[j1]);
                        assert(span_content(toks, cl[j1].0.start as int, cl[j1].0.end as int)
                            == p);
                        assert(false);
                    }
                }
                lemma_aligned_content(toks, p, ll, k, 0);
                let idx0 = choose|idx: int|
                    0 <= idx < subs.len() && #[trigger] subs[idx] == aligned_span(0, ll);
                assert(subs[idx0].start == 0 && subs[idx0].end == ll - 1);
                assert(idx0 >= m - 1) by {
                    if idx0 < m - 1 {
                        assert(span_content(toks, subs[idx0].start as int, subs[idx0].end as int)
                            == p);
                        assert(false);
                    }
                }
                assert(sub.start == 0) by {
                    if idx0 == m - 1 {
                    } else {
                        assert(subs[m - 1].start <= subs[idx0].start);
                    }
                }
                assert(cl1[j1].1 == 1 && cl1[j1].2 == sub.end);
                assert(sub.end == ll - 1);
                assert(1 * ll - 1 == ll - 1) by (nonlinear_arith);
                assert forall|idx: int, jj: int|
                    #![trigger subs[idx], aligned_span(jj, ll)]
                    0 <= idx < m && 1 <= jj < k implies subs[idx] != aligned_span(jj, ll) by {
                    lemma_aligned_content(toks, p, ll, k, jj);
                    assert(jj * ll >= 1 * ll) by (nonlinear_arith)
                        requires
                            jj >= 1 && ll >= 2,
                    ;
                    if subs[idx] == aligned_span(jj, ll) {
                        if idx < m - 1 {
                            assert(span_content(toks, subs[idx].start as int,
                                subs[idx].end as int) == p);
                            assert(false);
                        } else {
                            assert(subs[idx] == sub);
                            assert(sub.start == 0);
                            assert(subs[idx].start == jj * ll);
                            assert(false);
                        }
                    }
                }
            } else {
                let c = cl[j].1;
                let e = cl[j].2;
                assert(js == j) by {
                    if js == -1 {
                        assert(span_content(toks, cl[j].0.start as int, cl[j].0.end as int) == p);
                        assert(false);
                    }
                    if js < j {
                        assert(span_content(toks, cl[js].0.start as int, cl[js].0.end as int)
                            == p);
                        assert(false);
                    }
                    if js > j {
                        assert(span_content(toks, cl[j].0.start as int, cl[j].0.end as int) == p);
                        assert(false);
                    }
                }
                if sub.start > e {
                    assert(cl1 == cl.update(j, (cl[j].0, c + 1int, sub.end as int)));
                    assert(j1 == j) by {
                        lemma_index_same_contents(toks, cl, cl1, p);
                    }
                    assert(c < k) by {
                        if c == k {
                            assert(sub.start + ll <= k * ll);
                            assert(sub.start <= k * ll - ll);
                            assert(k * ll - ll <= k * ll - 1 - 1 + 1) by (nonlinear_arith)
                                requires
                                    ll >= 2,
                            ;
                            assert(sub.start <= e);
                            assert(false);
                        }
                    }
                    lemma_aligned_content(toks, p, ll, k, c);
                    let idxc = choose|idx: int|
                        0 <= idx < subs.len() && #[trigger] subs[idx] == aligned_span(c, ll);
                    assert(idxc >= m - 1) by {
                        if idxc < m - 1 {
                            assert(subs[idxc] != aligned_span(c, ll));
                            assert(false);
                        }
                    }
                    assert(sub.start <= subs[idxc].start) by {
                        if idxc > m - 1 {
                            assert(subs[m - 1].start <= subs[idxc].start);
                        }
                    }
                    assert(subs[idxc].start == c * ll);
                    assert(sub.start <= c * ll);
                    assert(sub.start == c * ll);
                    assert(sub.end == c * ll + ll - 1);
                    assert((c + 1) * ll - 1 == c * ll + ll - 1) by (nonlinear_arith);
                    assert(cl1[j1] == (cl[j].0, c + 1int, sub.end as int));
                    assert forall|idx: int, jj: int|
                        #![trigger subs[idx], aligned_span(jj, ll)]
                        0 <= idx < m && c + 1 <= jj < k implies subs[idx] != aligned_span(
                        jj,
                        ll,
                    ) by {
                        lemma_aligned_content(toks, p, ll, k, jj);
                        assert(jj * ll > c * ll) by (nonlinear_arith)
                            requires
                                jj > c && ll >= 2,
                        ;
                        if subs[idx] == aligned_span(jj, ll) {
                            if idx < m - 1 {
                                assert(subs[idx] != aligned_span(jj, ll));
                                assert(false);
                            } else {
                                assert(subs[idx] == sub);
                                assert(subs[idx].start == jj * ll);
                                assert(sub.start == c * ll);
                                assert(false);
                            }
                        }
                    }
                } else {
                    assert(cl1 == cl);
                    assert(j1 == j);
                    assert forall|idx: int, jj: int|
                        #![trigger subs[idx], aligned_span(jj, ll)]
                        0 <= idx < m && c <= jj < k implies subs[idx] != aligned_span(jj, ll) by {
                        lemma_aligned_content(toks, p, ll, k, jj);
                        assert(jj * ll >= c * ll) by (nonlinear_arith)
                            requires
                                jj >= c && ll >= 2,
                        ;
                        if subs[idx] == aligned_span(jj, ll) {
                            if idx < m - 1 {
                                assert(subs[idx] != aligned_span(jj, ll));
                                assert(false);
                            } else {
                                assert(subs[idx] == sub);
                                assert(subs[idx].start == jj * ll);
                                assert(sub.start <= e);
                                assert(e == c * ll - 1);
                                assert(false);
                            }
                        }
                    }
                }
            }
        } else {
            if j == -1 {
                assert forall|idx: int|
                    0 <= idx < m implies span_content(
                        toks,
                        (#[trigger] subs[idx]).start as int,
                        subs[idx].end as int,
                    ) != p by {
                    if idx == m - 1 {
                        assert(subs[idx] == sub);
                    }
                }
                assert(j1 == -1) by {
                    if j1 >= 0 {
                        if js == -1 {
                            assert(cl1 == cl.push((sub, 1int, sub.end as int)));
                            if j1 < cl.len() {
                                assert(cl1[j1] == cl[j1]);
                                assert(false);
                            }
                            assert(cl1[j1] == (sub, 1int, sub.end as int));
                            assert(false);
                        } else {
                            if sub.start > cl[js].2 {
                                assert(cl1 == cl.update(js, (cl[js].0, cl[js].1 + 1int,
                                    sub.end as int)));
                                lemma_index_same_contents(toks, cl, cl1, p);
                            } else {
                                assert(cl1 == cl);
                            }
                            assert(false);
                        }
                    }
                }
            } else {
                assert(j1 == j && cl1[j1] == cl[j]) by {
                    if js == -1 {
                        assert(cl1 == cl.push((sub, 1int, sub.end as int)));
                        assert(cl1[j] == cl[j]);
                        if j1 == -1 {
                            assert(span_content(toks, cl1[j].0.start as int, cl1[j].0.end as int)
                                == p);
                            assert(false);
                        }
                        if j1 < j {
                            assert(cl1[j1] == cl[j1]);
                            assert(false);
                        }
                        if j1 > j {
                            assert(span_content(toks, cl1[j].0.start as int, cl1[j].0.end as int)
                                == p);
                            assert(false);
                        }
                    } else {
                        if sub.start > cl[js].2 {
                            assert(cl1 == cl.update(js, (cl[js].0, cl[js].1 + 1int,
                                sub.end as int)));
                            lemma_index_same_contents(toks, cl, cl1, p);
                            assert(js != j);
                            assert(cl1[j] == cl[j]);
                        } else {
                            assert(cl1 == cl);
                        }
                    }
                }
                assert forall|idx: int, jj: int|
                    #![trigger subs[idx], aligned_span(jj, ll)]
                    0 <= idx < m && cl1[j1].1 <= jj < k implies subs[idx] != aligned_span(
                    jj,
                    ll,
                ) by {
                    lemma_aligned_content(toks, p, ll, k, jj);
                    if subs[idx] == aligned_span(jj, ll) {
                        if idx < m - 1 {
                            assert(subs[idx] != aligned_span(jj, ll));
                            assert(false);
                        } else {
                            assert(subs[idx] == sub);
                            assert(subs[idx].start == jj * ll);
                            assert(subs[idx].end == jj * ll + ll - 1);
                            assert(span_content(toks, sub.start as int, sub.end as int) == p);
                            assert(false);
                        }
                    }
                }
            }
        }
    }
}

/// Two accumulator lists with pointwise equal representative spans have
/// the same first index for any content.
proof fn lemma_index_same_contents(
    toks: Seq<Seq<u8>>,
    a: Seq<(Subdivision, int, int)>,
    b: Seq<(Subdivision, int, int)>,
    c: Seq<Seq<u8>>,
)
    requires
        a.len() == b.len(),
        forall|i: int| 0 <= i < a.len() ==> (#[trigger] a[i]).0 == b[i].0,
    ensures
        index_of_content(toks, a, c) == index_of_content(toks, b, c),
    decreases a.len(),
{
    if a.len() > 0 {
        assert(a[0].0 == b[0].0);
        assert forall|i: int| 0 <= i < a.drop_first().len() implies (#[trigger] a.drop_first()[i]
        ).0 == b.drop_first()[i].0 by {
            assert(a.drop_first()[i] == a[i + 1]);
            assert(b.drop_first()[i] == b[i + 1]);
        }
        lemma_index_same_contents(toks, a.drop_first(), b.drop_first(), c);
    }
}

/// Non-overlap counting correctness: for a stream that is one pattern of
/// length `ll` repeated `k` times back to back, the frequency counter,
/// fed any sorted span list that contains the `k` aligned occurrences,
/// reports exactly `k` for the pattern's content.
pub proof fn lemma_repeated_pattern_count(
    toks: Seq<Seq<u8>>,
    subs: Seq<Subdivision>,
    p: Seq<Seq<u8>>,
    ll: int,
    k: int,
)
    requires
        repeated_pattern_setup(toks, subs, p, ll, k),
    ensures
        ({
            let cl = counts_list(toks, subs);
            let j = index_of_content(toks, cl, p);
            j >= 0 && cl[j].1 == k
        }),
{
    lemma_repeated_prefix(toks, subs, p, ll, k, subs.len() as int);
    assert(subs.take(subs.len() as int) =~= subs);
    let cl = counts_list(toks, subs);
    let j = index_of_content(toks, cl, p);
    lemma_index_of_content(toks, cl, p);
    lemma_aligned_content(toks, p, ll, k, 0);
    if j == -1 {
        let idx0 = choose|idx: int|
            0 <= idx < subs.len() && #[trigger] subs[idx] == aligned_span(0, ll);
        assert(span_content(toks, subs[idx0].start as int, subs[idx0].end as int) == p);
        assert(false);
    }
    let c = cl[j].1;
    if c < k {
        lemma_aligned_content(toks, p, ll, k, c);
        let idxc = choose|idx: int|
            0 <= idx < subs.len() && #[trigger] subs[idx] == aligned_span(c, ll);
        assert(subs[idxc] != aligned_span(c, ll));
        assert(false);
    }
}

} // verus!
