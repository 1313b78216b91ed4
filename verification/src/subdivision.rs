//! Subdivisions: contiguous candidate token spans of length at least two,
//! excluding any span that contains a `#`, `define` or `include` spelling,
//! enumerated in ascending order of start position.

use vstd::prelude::*;

use crate::token::{spellings, Token};

verus! {

/// The spelling `#`.
pub open spec fn is_hash_sp(s: Seq<u8>) -> bool {
    s.len() == 1 && s[0] == 35
}

/// The spelling `define`.
pub open spec fn is_define_sp(s: Seq<u8>) -> bool {
    s.len() == 6 && s[0] == 100 && s[1] == 101 && s[2] == 102 && s[3] == 105 && s[4] == 110
        && s[5] == 101
}

/// The spelling `include`.
pub open spec fn is_include_sp(s: Seq<u8>) -> bool {
    s.len() == 7 && s[0] == 105 && s[1] == 110 && s[2] == 99 && s[3] == 108 && s[4] == 117
        && s[5] == 100 && s[6] == 101
}

/// The spelling `#` as a byte string.
pub open spec fn hash_spelling() -> Seq<u8> {
    seq![35u8]
}

/// The spelling `define` as a byte string.
pub open spec fn define_spelling() -> Seq<u8> {
    seq![100u8, 101u8, 102u8, 105u8, 110u8, 101u8]
}

/// Spellings that no candidate span may contain, so that no span wraps part
/// of a preprocessor directive.
pub open spec fn is_directive_sp(s: Seq<u8>) -> bool {
    is_hash_sp(s) || is_define_sp(s) || is_include_sp(s)
}

/// Does this token spell `#`?
pub fn token_is_hash(t: &Token) -> (r: bool)
    ensures
        r == is_hash_sp(t@),
{
    let s = t.spelling();
    s.len() == 1 && s[0] == 35
}

/// Does this token spell `define`?
pub fn token_is_define(t: &Token) -> (r: bool)
    ensures
        r == is_define_sp(t@),
{
    let s = t.spelling();
    s.len() == 6 && s[0] == 100 && s[1] == 101 && s[2] == 102 && s[3] == 105 && s[4] == 110
        && s[5] == 101
}

/// Does this token spell `include`?
pub fn token_is_include(t: &Token) -> (r: bool)
    ensures
        r == is_include_sp(t@),
{
    let s = t.spelling();
    s.len() == 7 && s[0] == 105 && s[1] == 110 && s[2] == 99 && s[3] == 108 && s[4] == 117
        && s[5] == 100 && s[6] == 101
}

/// Does this token spell `#`, `define` or `include`?
pub fn token_is_directive(t: &Token) -> (r: bool)
    ensures
        r == is_directive_sp(t@),
{
    token_is_hash(t) || token_is_define(t) || token_is_include(t)
}

/// A `#` token.
pub fn make_hash_token() -> (t: Token)
    ensures
        t@ == hash_spelling(),
{
    let v: Vec<u8> = vec![35u8];
    proof {
        assert(v@ =~= hash_spelling());
    }
    Token::new(v)
}

/// A `define` token.
pub fn make_define_token() -> (t: Token)
    ensures
        t@ == define_spelling(),
{
    let v: Vec<u8> = vec![100u8, 101u8, 102u8, 105u8, 110u8, 101u8];
    proof {
        assert(v@ =~= define_spelling());
    }
    Token::new(v)
}

/// A contiguous candidate span of the parent stream, described by its
/// `start` and `end` indices, both inclusive.
#[derive(Clone, Copy, Debug, PartialEq, Eq, Structural)]
pub struct Subdivision {
    pub start: usize,
    pub end: usize,
}

/// The sequence of spellings a span denotes; spans are compared by this
/// content, never by their indices.
pub open spec fn span_content(toks: Seq<Seq<u8>>, start: int, end: int) -> Seq<Seq<u8>> {
    toks.subrange(start, end + 1)
}

/// A span the generator must emit: length at least two, in bounds, and free
/// of directive spellings.
pub open spec fn span_allowed(toks: Seq<Seq<u8>>, start: int, end: int) -> bool {
    &&& 0 <= start
    &&& start + 1 <= end
    &&& end < toks.len()
    &&& forall|i: int| start <= i <= end ==> !is_directive_sp(#[trigger] toks[i])
}

/// The allowed spans with this `start`, from `end` upward.
pub open spec fn spans_at(toks: Seq<Seq<u8>>, start: int, end: int) -> Seq<Subdivision>
    decreases toks.len() - end,
{
    if end >= toks.len() || end < 0 {
        Seq::empty()
    } else {
        let rest = spans_at(toks, start, end + 1);
        if span_allowed(toks, start, end) {
            seq![Subdivision { start: start as usize, end: end as usize }] + rest
        } else {
            rest
        }
    }
}

/// The allowed spans with start position `start` or later, in ascending
/// lexicographic `(start, end)` order.
pub open spec fn spans_starting(toks: Seq<Seq<u8>>, start: int) -> Seq<Subdivision>
    decreases toks.len() - start,
{
    if start >= toks.len() || start < 0 {
        Seq::empty()
    } else {
        spans_at(toks, start, start + 1) + spans_starting(toks, start + 1)
    }
}

/// Every candidate span of the stream, ordered by ascending start.
pub open spec fn all_subdivisions(toks: Seq<Seq<u8>>) -> Seq<Subdivision> {
    spans_starting(toks, 0)
}

/// Is every token of `tokens[start..=end]` free of directive spellings?
fn span_clean(tokens: &Vec<Token>, start: usize, end: usize) -> (r: bool)
    requires
        start <= end < tokens@.len(),
    ensures
        r == (forall|i: int|
            start <= i <= end ==> !is_directive_sp(#[trigger] spellings(tokens@)[i])),
{
    let n = tokens.len();
    let mut i: usize = start;
    while i <= end
        invariant
            start <= i <= end + 1,
            end < n,
            n == tokens@.len(),
            forall|j: int| start <= j < i ==> !is_directive_sp(#[trigger] spellings(tokens@)[j]),
        decreases end + 1 - i,
    {
        if token_is_directive(&tokens[i]) {
            proof {
                assert(is_directive_sp(spellings(tokens@)[i as int]));
            }
            return false;
        }
        i += 1;
    }
    true
}

/// Enumerate every candidate span of the stream: all `(start, end)` windows
/// of length at least two whose tokens include no `#`, `define` or `include`
/// spelling, in ascending `(start, end)` order.
pub fn gen_subdivisions(tokens: &Vec<Token>) -> (r: Vec<Subdivision>)
    ensures
        r@ == all_subdivisions(spellings(tokens@)),
{
    let ghost toks = spellings(tokens@);
    let mut r: Vec<Subdivision> = Vec::new();
    let n = tokens.len();
    let mut s: usize = 0;
    proof {
        assert(r@ + spans_starting(toks, 0) =~= spans_starting(toks, 0));
    }
    while s < n
        invariant
            n == tokens@.len(),
            toks == spellings(tokens@),
            all_subdivisions(toks) == r@ + spans_starting(toks, s as int),
        decreases n - s,
    {
        let mut e: usize = s + 1;
        proof {
            assert(r@ + (spans_at(toks, s as int, e as int) + spans_starting(toks, s as int + 1))
                =~= r@ + spans_starting(toks, s as int));
        }
        while e < n
            invariant
                n == tokens@.len(),
                toks == spellings(tokens@),
                s < n,
                s < e,
                all_subdivisions(toks) == r@ + (spans_at(toks, s as int, e as int)
                    + spans_starting(toks, s as int + 1)),
            decreases n - e,
        {
            let ghost r_old = r@;
            if span_clean(tokens, s, e) {
                r.push(Subdivision { start: s, end: e });
            }
            proof {
                let si = s as int;
                let ei = e as int;
                if span_allowed(toks, si, ei) {
                    assert(spans_at(toks, si, ei) == seq![
                        Subdivision { start: s, end: e },
                    ] + spans_at(toks, si, ei + 1));
                    assert(r_old + (spans_at(toks, si, ei) + spans_starting(toks, si + 1)) =~= r@
                        + (spans_at(toks, si, ei + 1) + spans_starting(toks, si + 1)));
                } else {
                    assert(spans_at(toks, si, ei) == spans_at(toks, si, ei + 1));
                }
            }
            e += 1;
        }
        proof {
            assert(spans_at(toks, s as int, e as int) == Seq::<Subdivision>::empty());
            assert(r@ + (spans_at(toks, s as int, e as int) + spans_starting(toks, s as int + 1))
                =~= r@ + spans_starting(toks, s as int + 1));
        }
        s += 1;
    }
    proof {
        assert(spans_starting(toks, s as int) == Seq::<Subdivision>::empty());
        assert(r@ + spans_starting(toks, s as int) =~= r@);
    }
    r
}

/// Every span the generator lists is allowed.
pub proof fn lemma_spans_at_allowed(toks: Seq<Seq<u8>>, start: int, end: int)
    requires
        toks.len() <= usize::MAX,
    ensures
        forall|k: int|
            0 <= k < spans_at(toks, start, end).len() ==> {
                let sub = #[trigger] spans_at(toks, start, end)[k];
                sub.start == start && end <= sub.end && span_allowed(toks, start, sub.end as int)
            },
    decreases toks.len() - end,
{
    if end >= toks.len() || end < 0 {
    } else {
        lemma_spans_at_allowed(toks, start, end + 1);
        let rest = spans_at(toks, start, end + 1);
        assert forall|k: int| 0 <= k < spans_at(toks, start, end).len() implies {
            let sub = #[trigger] spans_at(toks, start, end)[k];
            sub.start == start && end <= sub.end && span_allowed(toks, start, sub.end as int)
        } by {
            if span_allowed(toks, start, end) {
                if k > 0 {
                    assert(spans_at(toks, start, end)[k] == rest[k - 1]);
                }
            } else {
                assert(spans_at(toks, start, end)[k] == rest[k]);
            }
        }
    }
}

/// Every span of `all_subdivisions` is allowed: in bounds, of length at
/// least two, and free of directive spellings.
pub proof fn lemma_spans_starting_allowed(toks: Seq<Seq<u8>>, start: int)
    requires
        toks.len() <= usize::MAX,
    ensures
        forall|k: int|
            0 <= k < spans_starting(toks, start).len() ==> {
                let sub = #[trigger] spans_starting(toks, start)[k];
                start <= sub.start && span_allowed(toks, sub.start as int, sub.end as int)
            },
    decreases toks.len() - start,
{
    if start >= toks.len() || start < 0 {
    } else {
        lemma_spans_at_allowed(toks, start, start + 1);
        lemma_spans_starting_allowed(toks, start + 1);
        let head = spans_at(toks, start, start + 1);
        let rest = spans_starting(toks, start + 1);
        assert forall|k: int| 0 <= k < spans_starting(toks, start).len() implies {
            let sub = #[trigger] spans_starting(toks, start)[k];
            start <= sub.start && span_allowed(toks, sub.start as int, sub.end as int)
        } by {
            if k < head.len() {
                assert(spans_starting(toks, start)[k] == head[k]);
            } else {
                assert(spans_starting(toks, start)[k] == rest[k - head.len()]);
            }
        }
    }
}

/// Spans listed in ascending order of start position.
pub open spec fn sorted_by_start(subs: Seq<Subdivision>) -> bool {
    forall|k1: int, k2: int|
        #![trigger subs[k1], subs[k2]]
        0 <= k1 < k2 < subs.len() ==> subs[k1].start <= subs[k2].start
}

/// The generator's output is sorted by ascending start.
pub proof fn lemma_spans_starting_sorted(toks: Seq<Seq<u8>>, start: int)
    requires
        toks.len() <= usize::MAX,
    ensures
        sorted_by_start(spans_starting(toks, start)),
    decreases toks.len() - start,
{
    if start >= toks.len() || start < 0 {
    } else {
        lemma_spans_at_allowed(toks, start, start + 1);
        lemma_spans_starting_allowed(toks, start + 1);
        lemma_spans_starting_sorted(toks, start + 1);
        let head = spans_at(toks, start, start + 1);
        let rest = spans_starting(toks, start + 1);
        let whole = spans_starting(toks, start);
        assert forall|k1: int, k2: int|
            #![trigger whole[k1], whole[k2]]
            0 <= k1 < k2 < whole.len() implies whole[k1].start <= whole[k2].start by {
            if k1 < head.len() {
                assert(whole[k1] == head[k1]);
            } else {
                assert(whole[k1] == rest[k1 - head.len()]);
            }
            if k2 < head.len() {
                assert(whole[k2] == head[k2]);
            } else {
                assert(whole[k2] == rest[k2 - head.len()]);
            }
        }
    }
}

} // verus!
