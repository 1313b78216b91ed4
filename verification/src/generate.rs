//! The scorer, selector and rewriter. A candidate's score is the net change
//! in total token count that extracting it into a macro would cause; the
//! selector picks the first candidate with the globally minimum score; the
//! rewriter replaces each matching window of the live stream by the macro
//! name and prepends the `# define NAME body` definition.

use vstd::prelude::*;

use crate::counting::{counts_list, entries_view, lemma_counts_bounded, unique_lists_with_counts,
    CountedSpan};
use crate::subdivision::{all_subdivisions, gen_subdivisions, lemma_spans_starting_allowed,
    lemma_spans_starting_sorted, span_allowed, span_content, Subdivision};
use crate::token::{clone_tokens, spellings, Token};

verus! {

/// Token cost of the minimal `# define NAME` preamble of one macro.
pub const MACRO_OVERHEAD: i64 = 3;

/// Net token delta of extracting a span: all occurrences shrink to one name
/// token each, and the definition pays the body plus the preamble. Negative
/// is better; zero still improves nothing but is accepted.
pub open spec fn span_score(freq: int, len: int) -> int {
    freq * (1 - len) + (MACRO_OVERHEAD as int) + len
}

/// The score of one accumulator of the frequency counter.
pub open spec fn entry_score(e: (Subdivision, int, int)) -> int {
    span_score(e.1, e.0.end - e.0.start + 1)
}

/// The first index of the accumulator list holding the minimum score.
pub open spec fn best_index(cl: Seq<(Subdivision, int, int)>) -> int
    decreases cl.len(),
{
    if cl.len() <= 1 {
        0
    } else {
        let b = best_index(cl.drop_last());
        if entry_score(cl.last()) < entry_score(cl[b]) {
            cl.len() - 1
        } else {
            b
        }
    }
}

/// `best_index` names the first accumulator with the minimum score.
pub proof fn lemma_best_index(cl: Seq<(Subdivision, int, int)>)
    requires
        cl.len() > 0,
    ensures
        ({
            let b = best_index(cl);
            &&& 0 <= b < cl.len()
            &&& forall|k: int|
                0 <= k < cl.len() ==> entry_score(cl[b]) <= entry_score(#[trigger] cl[k])
            &&& forall|k: int|
                0 <= k < b ==> entry_score(#[trigger] cl[k]) > entry_score(cl[b])
        }),
    decreases cl.len(),
{
    if cl.len() == 1 {
    } else {
        lemma_best_index(cl.drop_last());
        let prev = cl.drop_last();
        let b = best_index(cl);
        assert forall|k: int| 0 <= k < cl.len() implies entry_score(cl[b]) <= entry_score(
            #[trigger] cl[k],
        ) by {
            if k < cl.len() - 1 {
                assert(cl[k] == prev[k]);
            }
        }
        assert forall|k: int| 0 <= k < b implies entry_score(#[trigger] cl[k]) > entry_score(
            cl[b],
        ) by {
            assert(cl[k] == prev[k]);
        }
    }
}

/// The score as executable arithmetic, free of overflow under the stated
/// bounds.
pub fn span_score_i64(freq: usize, len: usize) -> (r: i64)
    requires
        freq <= 0x2000_0000,
        len <= 0x4000_0000,
    ensures
        r == span_score(freq as int, len as int),
{
    let f = freq as i64;
    let l = len as i64;
    let d: i64 = 1 - l;
    proof {
        assert((f as int) * (d as int) <= 0x2000_0000_0000_0000 && (f as int) * (d as int)
            >= -0x2000_0000_0000_0000) by (nonlinear_arith)
            requires
                0 <= f as int <= 0x2000_0000,
                -0x4000_0000 <= d as int <= 1,
        ;
    }
    f * d + MACRO_OVERHEAD + l
}

/// The stream after the rewrite pass: scan left to right; wherever the next
/// `content.len()` spellings match `content`, splice in the macro name and
/// continue immediately after the replacement; a replaced window is not
/// re-scanned.
pub open spec fn rewrite_stream(
    toks: Seq<Seq<u8>>,
    content: Seq<Seq<u8>>,
    name: Seq<u8>,
) -> Seq<Seq<u8>>
    decreases toks.len(),
{
    if content.len() == 0 || toks.len() == 0 {
        toks
    } else if toks.len() >= content.len() && toks.take(content.len() as int) == content {
        seq![name] + rewrite_stream(toks.skip(content.len() as int), content, name)
    } else {
        seq![toks[0]] + rewrite_stream(toks.skip(1), content, name)
    }
}

/// Does the window of span length starting at `i` match the span's content?
fn window_matches(tokens: &Vec<Token>, i: usize, sub: Subdivision) -> (r: bool)
    requires
        sub.start <= sub.end < tokens@.len(),
        i <= tokens@.len(),
    ensures
        ({
            let toks = spellings(tokens@);
            let content = span_content(toks, sub.start as int, sub.end as int);
            r == (i + content.len() <= toks.len() && toks.skip(i as int).take(content.len() as int)
                == content)
        }),
{
    let ghost toks = spellings(tokens@);
    let ghost content = span_content(toks, sub.start as int, sub.end as int);
    let n = tokens.len();
    let len = sub.end - sub.start + 1;
    if n - i < len {
        return false;
    }
    let mut j: usize = 0;
    while j < len
        invariant
            len == sub.end - sub.start + 1,
            sub.start <= sub.end < n,
            n == tokens@.len(),
            i + len <= n,
            j <= len,
            toks == spellings(tokens@),
            content == span_content(toks, sub.start as int, sub.end as int),
            forall|k: int| 0 <= k < j ==> #[trigger] toks[i + k] == content[k],
        decreases len - j,
    {
        if !tokens[i + j].eq_spelling(&tokens[sub.start + j]) {
            proof {
                assert(toks[i + j] == tokens@[i + j]@);
                assert(content[j as int] == toks[sub.start + j]);
                assert(toks.skip(i as int).take(content.len() as int)[j as int] == toks[i + j]);
            }
            return false;
        }
        proof {
            assert(toks[i + j] == tokens@[i + j]@);
            assert(content[j as int] == toks[sub.start + j]);
        }
        j += 1;
    }
    proof {
        let ls = content.len() as int;
        let w = toks.skip(i as int).take(ls);
        assert forall|k: int| 0 <= k < ls implies w[k] == content[k] by {
            assert(w[k] == toks[i + k]);
        }
        assert(w =~= content);
    }
    true
}

/// The rewrite pass: replace every matching window by one name token,
/// scanning left to right and never re-scanning a replacement.
fn rewrite_with_span(tokens: &Vec<Token>, sub: Subdivision, name_tok: &Token) -> (r: Vec<Token>)
    requires
        sub.start <= sub.end < tokens@.len(),
    ensures
        spellings(r@) == rewrite_stream(
            spellings(tokens@),
            span_content(spellings(tokens@), sub.start as int, sub.end as int),
            name_tok@,
        ),
{
    let ghost toks = spellings(tokens@);
    let ghost content = span_content(toks, sub.start as int, sub.end as int);
    let ghost goal = rewrite_stream(toks, content, name_tok@);
    let n = tokens.len();
    let len = sub.end - sub.start + 1;
    let mut out: Vec<Token> = Vec::new();
    let mut i: usize = 0;
    proof {
        assert(toks.skip(0) =~= toks);
        assert(spellings(out@) + rewrite_stream(toks, content, name_tok@) =~= goal);
    }
    while i < n
        invariant
            n == tokens@.len(),
            len == sub.end - sub.start + 1,
            sub.start <= sub.end < n,
            i <= n,
            toks == spellings(tokens@),
            content == span_content(toks, sub.start as int, sub.end as int),
            goal == rewrite_stream(toks, content, name_tok@),
            goal == spellings(out@) + rewrite_stream(toks.skip(i as int), content, name_tok@),
        decreases n - i,
    {
        let ghost out_old = out@;
        let ghost rem = toks.skip(i as int);
        if window_matches(tokens, i, sub) {
            out.push(name_tok.clone());
            proof {
                assert(rem.take(content.len() as int) == content);
                assert(rem.skip(len as int) =~= toks.skip(i + len));
                assert(rewrite_stream(rem, content, name_tok@) == seq![name_tok@]
                    + rewrite_stream(toks.skip(i + len), content, name_tok@));
                assert(spellings(out@) =~= spellings(out_old) + seq![name_tok@]);
                assert(spellings(out_old) + (seq![name_tok@] + rewrite_stream(
                    toks.skip(i + len),
                    content,
                    name_tok@,
                )) =~= (spellings(out_old) + seq![name_tok@]) + rewrite_stream(
                    toks.skip(i + len),
                    content,
                    name_tok@,
                ));
            }
            i += len;
        } else {
            out.push(tokens[i].clone());
            proof {
                assert(rem.len() > 0);
                assert(rem[0] == toks[i as int]);
                if rem.len() >= content.len() && rem.take(content.len() as int) == content {
                    assert(false);
                }
                assert(rem.skip(1) =~= toks.skip(i + 1));
                assert(rewrite_stream(rem, content, name_tok@) == seq![toks[i as int]]
                    + rewrite_stream(toks.skip(i + 1), content, name_tok@));
                assert(spellings(out@) =~= spellings(out_old) + seq![toks[i as int]]);
                assert(spellings(out_old) + (seq![toks[i as int]] + rewrite_stream(
                    toks.skip(i + 1),
                    content,
                    name_tok@,
                )) =~= (spellings(out_old) + seq![toks[i as int]]) + rewrite_stream(
                    toks.skip(i + 1),
                    content,
                    name_tok@,
                ));
            }
            i += 1;
        }
    }
    proof {
        assert(toks.skip(i as int) =~= Seq::<Seq<u8>>::empty());
        assert(rewrite_stream(toks.skip(i as int), content, name_tok@) =~= Seq::<Seq<u8>>::empty());
        assert(spellings(out@) + Seq::<Seq<u8>>::empty() =~= spellings(out@));
    }
    out
}


/// Pick the first accumulator with the globally minimum score.
fn select_best(cl: &Vec<CountedSpan>) -> (r: (usize, i64))
    requires
        cl@.len() > 0,
        forall|j: int|
            0 <= j < cl@.len() ==> {
                let e = #[trigger] cl@[j];
                e.count <= 0x2000_0000 && e.sub.start <= e.sub.end && e.sub.end < 0x4000_0000
            },
    ensures
        r.0 == best_index(entries_view(cl@)),
        r.1 == entry_score(entries_view(cl@)[r.0 as int]),
{
    let ghost ev = entries_view(cl@);
    let first = cl[0];
    let mut b: usize = 0;
    let mut bs: i64 = span_score_i64(first.count, first.sub.end - first.sub.start + 1);
    proof {
        assert(ev.take(1).len() == 1);
        assert(ev.take(1)[0] == ev[0]);
        assert(best_index(ev.take(1)) == 0);
        assert(ev[0].1 == first.count as int);
        assert(ev[0].0 == first.sub);
    }
    let mut i: usize = 1;
    while i < cl.len()
        invariant
            1 <= i <= cl@.len(),
            ev == entries_view(cl@),
            forall|j: int|
                0 <= j < cl@.len() ==> {
                    let e = #[trigger] cl@[j];
                    e.count <= 0x2000_0000 && e.sub.start <= e.sub.end && e.sub.end < 0x4000_0000
                },
            b < i,
            b as int == best_index(ev.take(i as int)),
            bs == entry_score(ev[b as int]),
        decreases cl@.len() - i,
    {
        let e = cl[i];
        let sc = span_score_i64(e.count, e.sub.end - e.sub.start + 1);
        proof {
            assert(ev[i as int].1 == e.count as int);
            assert(ev[i as int].0 == e.sub);
            assert(ev.take(i + 1).drop_last() =~= ev.take(i as int));
            assert(ev.take(i + 1).last() == ev[i as int]);
            assert(ev.take(i + 1)[b as int] == ev[b as int]);
            assert(ev.take(i as int)[best_index(ev.take(i as int))] == ev[b as int]);
        }
        if sc < bs {
            b = i;
            bs = sc;
        }
        i += 1;
    }
    proof {
        assert(ev.take(i as int) =~= ev);
    }
    (b, bs)
}

/// The stream that one generator iteration leaves behind: unchanged when no
/// candidate exists or the best score is positive; otherwise the rewritten
/// stream with the new `# define NAME body` definition prepended.
pub open spec fn generate_step(toks: Seq<Seq<u8>>, name: Seq<u8>) -> Seq<Seq<u8>> {
    let cl = counts_list(toks, all_subdivisions(toks));
    if cl.len() == 0 {
        toks
    } else {
        let e = cl[best_index(cl)];
        let content = span_content(toks, e.0.start as int, e.0.end as int);
        if entry_score(e) > 0 {
            toks
        } else {
            seq![crate::subdivision::hash_spelling(), crate::subdivision::define_spelling(), name]
                + content + rewrite_stream(toks, content, name)
        }
    }
}

/// One generator iteration: enumerate the candidate spans, count
/// non-overlapping occurrences per content, score each distinct content, and
/// select the global minimum. A positive best score improves nothing: the
/// stream is returned unchanged. Otherwise every matching window is replaced
/// by the fresh macro name and the definition is prepended.
pub fn generate_one_macro(tokens: &Vec<Token>, name: &Vec<u8>) -> (r: Vec<Token>)
    requires
        tokens@.len() < 0x4000_0000,
    ensures
        spellings(r@) == generate_step(spellings(tokens@), name@),
{
    let ghost toks = spellings(tokens@);
    let subs = gen_subdivisions(tokens);
    proof {
        lemma_spans_starting_sorted(toks, 0);
        lemma_spans_starting_allowed(toks, 0);
    }
    let cl = unique_lists_with_counts(tokens, &subs);
    let ghost ev = entries_view(cl@);
    proof {
        lemma_counts_bounded(toks, subs@);
    }
    if cl.len() == 0 {
        return clone_tokens(tokens);
    }
    proof {
        lemma_best_index(ev);
        assert forall|j: int| 0 <= j < cl@.len() implies {
            let e = #[trigger] cl@[j];
            e.count <= 0x2000_0000 && e.sub.start <= e.sub.end && e.sub.end < 0x4000_0000
        } by {
            assert(ev[j] == (cl@[j].sub, cl@[j].count as int, cl@[j].last_end as int));
            assert(span_allowed(toks, ev[j].0.start as int, ev[j].0.end as int));
            assert(2 * ev[j].1 - 1 <= ev[j].2);
            assert(ev[j].2 < toks.len());
        }
    }
    let (b, bs) = select_best(&cl);
    if bs > 0 {
        return clone_tokens(tokens);
    }
    let sub = cl[b].sub;
    let ghost e_spec = ev[b as int];
    let ghost content = span_content(toks, sub.start as int, sub.end as int);
    proof {
        assert(e_spec.0 == sub);
        assert(span_allowed(toks, sub.start as int, sub.end as int));
    }
    let name_tok = Token::new(crate::token::clone_bytes(name));
    let mut out: Vec<Token> = Vec::new();
    out.push(crate::subdivision::make_hash_token());
    out.push(crate::subdivision::make_define_token());
    out.push(Token::new(crate::token::clone_bytes(name)));
    let n = tokens.len();
    let mut k: usize = sub.start;
    while k <= sub.end
        invariant
            sub.start <= k <= sub.end + 1,
            sub.start <= sub.end < n,
            n == tokens@.len(),
            toks == spellings(tokens@),
            content == span_content(toks, sub.start as int, sub.end as int),
            out@.len() == 3 + k - sub.start,
            out@[0]@ == crate::subdivision::hash_spelling(),
            out@[1]@ == crate::subdivision::define_spelling(),
            out@[2]@ == name@,
            forall|j: int| 0 <= j < k - sub.start ==> #[trigger] out@[3 + j]@ == content[j],
        decreases sub.end + 1 - k,
    {
        out.push(tokens[k].clone());
        proof {
            assert(content[k - sub.start] == toks[k as int]);
        }
        k += 1;
    }
    let mut rest = rewrite_with_span(tokens, sub, &name_tok);
    let ghost rest_toks = rest@;
    let ghost rest_sp = spellings(rest@);
    let ghost def_part = out@;
    out.append(&mut rest);
    proof {
        let goal = generate_step(toks, name@);
        let pre = seq![
            crate::subdivision::hash_spelling(),
            crate::subdivision::define_spelling(),
            name@,
        ];
        let rw = rewrite_stream(toks, content, name@);
        let full = pre + content + rw;
        assert(goal == full);
        assert(out@ == def_part + rest_toks);
        assert(rest_sp == rw);
        assert(def_part.len() == 3 + content.len());
        assert(spellings(out@).len() == full.len());
        assert forall|q: int| 0 <= q < full.len() implies spellings(out@)[q] == full[q] by {
            assert(spellings(out@)[q] == out@[q]@);
            if q < 3 {
                assert(out@[q] == def_part[q]);
                assert(full[q] == (pre + content)[q]);
                assert((pre + content)[q] == pre[q]);
            } else if q < def_part.len() {
                assert(out@[q] == def_part[q]);
                let j = q - 3;
                assert(def_part[3 + j]@ == content[j]);
                assert(full[q] == (pre + content)[q]);
                assert((pre + content)[q] == content[j]);
            } else {
                let j = q - def_part.len();
                assert(out@[q] == rest_toks[j]);
                assert(rest_sp[j] == rest_toks[j]@);
                assert(full[q] == rw[j]);
            }
        }
        assert(spellings(out@) =~= full);
    }
    out
}


/// No candidate at all, or a strictly positive best score: no extraction
/// can improve the token count.
pub open spec fn is_minimized(toks: Seq<Seq<u8>>) -> bool {
    let cl = counts_list(toks, all_subdivisions(toks));
    cl.len() == 0 || entry_score(cl[best_index(cl)]) > 0
}

/// Decide whether the stream admits any improving (or break-even)
/// extraction.
pub fn check_minimized(tokens: &Vec<Token>) -> (r: bool)
    requires
        tokens@.len() < 0x4000_0000,
    ensures
        r == is_minimized(spellings(tokens@)),
{
    let ghost toks = spellings(tokens@);
    let subs = gen_subdivisions(tokens);
    proof {
        lemma_spans_starting_sorted(toks, 0);
        lemma_spans_starting_allowed(toks, 0);
    }
    let cl = unique_lists_with_counts(tokens, &subs);
    let ghost ev = entries_view(cl@);
    proof {
        lemma_counts_bounded(toks, subs@);
    }
    if cl.len() == 0 {
        return true;
    }
    proof {
        lemma_best_index(ev);
        assert forall|j: int| 0 <= j < cl@.len() implies {
            let e = #[trigger] cl@[j];
            e.count <= 0x2000_0000 && e.sub.start <= e.sub.end && e.sub.end < 0x4000_0000
        } by {
            assert(ev[j] == (cl@[j].sub, cl@[j].count as int, cl@[j].last_end as int));
            assert(span_allowed(toks, ev[j].0.start as int, ev[j].0.end as int));
            assert(2 * ev[j].1 - 1 <= ev[j].2);
            assert(ev[j].2 < toks.len());
        }
    }
    let (_b, bs) = select_best(&cl);
    bs > 0
}

} // verus!
