//! Macro definitions: a unique name token plus an ordered body. A stream
//! that begins with `# define NAME body...` groups can be split into a
//! macro table and a remainder, and a table can be rendered back in front
//! of a stream; the two operations are mutually inverse.

use vstd::prelude::*;

use crate::subdivision::{define_spelling, hash_spelling, is_define_sp, is_hash_sp,
    make_define_token, make_hash_token, token_is_define, token_is_hash};
use crate::token::{clone_tokens, spellings, Token};

verus! {

/// A macro: its name token and its body. A body token may itself be another
/// macro's name.
pub struct ParsedMacro {
    pub name: Token,
    pub body: Vec<Token>,
}

/// A macro as a mathematical pair `(name spelling, body spellings)`.
pub open spec fn macro_view(m: ParsedMacro) -> (Seq<u8>, Seq<Seq<u8>>) {
    (m.name@, spellings(m.body@))
}

/// A macro table as a sequence of `(name, body)` pairs.
pub open spec fn macros_view(ms: Seq<ParsedMacro>) -> Seq<(Seq<u8>, Seq<Seq<u8>>)> {
    Seq::new(ms.len(), |i: int| macro_view(ms[i]))
}

/// Copy a macro table.
pub fn clone_macros(ms: &Vec<ParsedMacro>) -> (r: Vec<ParsedMacro>)
    ensures
        macros_view(r@) == macros_view(ms@),
{
    let mut r: Vec<ParsedMacro> = Vec::new();
    let mut i: usize = 0;
    while i < ms.len()
        invariant
            i <= ms@.len(),
            r@.len() == i,
            forall|j: int| 0 <= j < i ==> macro_view(#[trigger] r@[j]) == macro_view(ms@[j]),
        decreases ms@.len() - i,
    {
        let m = &ms[i];
        r.push(ParsedMacro { name: m.name.clone(), body: clone_tokens(&m.body) });
        i += 1;
    }
    proof {
        assert(macros_view(r@) =~= macros_view(ms@));
    }
    r
}

/// Token cost of a macro table alone: each macro pays its body plus the
/// three preamble tokens `# define NAME`.
pub open spec fn macros_cost(ms: Seq<(Seq<u8>, Seq<Seq<u8>>)>) -> int
    decreases ms.len(),
{
    if ms.len() == 0 {
        0
    } else {
        macros_cost(ms.drop_last()) + ms.last().1.len() + 3
    }
}

/// Total token cost of a `(macros, stream)` state.
pub open spec fn total_cost(ms: Seq<(Seq<u8>, Seq<Seq<u8>>)>, toks: Seq<Seq<u8>>) -> int {
    macros_cost(ms) + toks.len()
}

/// The cost of a table never falls below three per macro.
pub proof fn lemma_macros_cost_nonneg(ms: Seq<(Seq<u8>, Seq<Seq<u8>>)>)
    ensures
        macros_cost(ms) >= 3 * ms.len(),
    decreases ms.len(),
{
    if ms.len() > 0 {
        lemma_macros_cost_nonneg(ms.drop_last());
    }
}

/// Total token cost of the state: every macro body plus three preamble
/// tokens per macro, plus the top-level stream.
pub fn count_tokens(macros: &Vec<ParsedMacro>, tokens: &Vec<Token>) -> (r: usize)
    requires
        total_cost(macros_view(macros@), spellings(tokens@)) <= usize::MAX,
    ensures
        r as int == total_cost(macros_view(macros@), spellings(tokens@)),
{
    let ghost mv = macros_view(macros@);
    let mut sum: usize = 0;
    let mut i: usize = 0;
    while i < macros.len()
        invariant
            i <= macros@.len(),
            mv == macros_view(macros@),
            total_cost(mv, spellings(tokens@)) <= usize::MAX,
            sum as int == macros_cost(mv.take(i as int)),
        decreases macros@.len() - i,
    {
        proof {
            lemma_macros_cost_prefix(mv, i as int + 1);
            assert(mv.take(i + 1).drop_last() =~= mv.take(i as int));
            assert(mv.take(i + 1).last() == mv[i as int]);
            assert(mv[i as int].1 == spellings(macros@[i as int].body@));
        }
        sum = sum + macros[i].body.len() + 3;
        i += 1;
    }
    proof {
        assert(mv.take(i as int) =~= mv);
    }
    sum + tokens.len()
}

/// A prefix of the table never costs more than the whole table.
pub proof fn lemma_macros_cost_prefix(ms: Seq<(Seq<u8>, Seq<Seq<u8>>)>, i: int)
    requires
        0 <= i <= ms.len(),
    ensures
        macros_cost(ms.take(i)) <= macros_cost(ms),
    decreases ms.len() - i,
{
    if i < ms.len() {
        lemma_macros_cost_prefix(ms, i + 1);
        assert(ms.take(i + 1).drop_last() =~= ms.take(i));
        assert(macros_cost(ms.take(i + 1)) == macros_cost(ms.take(i)) + ms[i].1.len() + 3);
    } else {
        assert(ms.take(i) =~= ms);
    }
}

/// The longest prefix holding no `#` spelling.
pub open spec fn take_until_hash(toks: Seq<Seq<u8>>) -> Seq<Seq<u8>>
    decreases toks.len(),
{
    if toks.len() == 0 || is_hash_sp(toks[0]) {
        Seq::empty()
    } else {
        seq![toks[0]] + take_until_hash(toks.skip(1))
    }
}

/// Split the leading `# define NAME body...` groups off a stream: each
/// group contributes one macro whose body runs until the next `#` or the
/// end; the remainder starts at the first token that opens no group.
pub open spec fn parse_split(toks: Seq<Seq<u8>>) -> (
    Seq<(Seq<u8>, Seq<Seq<u8>>)>,
    Seq<Seq<u8>>,
)
    decreases toks.len(),
    via parse_split_decreases
{
    if toks.len() >= 3 && is_hash_sp(toks[0]) && is_define_sp(toks[1]) {
        let name = toks[2];
        let body = take_until_hash(toks.skip(3));
        let r = parse_split(toks.skip(3 + body.len() as int));
        (seq![(name, body)] + r.0, r.1)
    } else {
        (Seq::empty(), toks)
    }
}

#[via_fn]
proof fn parse_split_decreases(toks: Seq<Seq<u8>>) {
    if toks.len() >= 3 && is_hash_sp(toks[0]) && is_define_sp(toks[1]) {
        lemma_take_until_hash_prefix(toks.skip(3));
    }
}

/// A macro table rendered as stream tokens: `# define NAME body...` per
/// macro, in table order.
pub open spec fn render_macros(ms: Seq<(Seq<u8>, Seq<Seq<u8>>)>) -> Seq<Seq<u8>>
    decreases ms.len(),
{
    if ms.len() == 0 {
        Seq::empty()
    } else {
        seq![hash_spelling(), define_spelling(), ms[0].0] + ms[0].1 + render_macros(
            ms.drop_first(),
        )
    }
}

/// The prefix removed by `take_until_hash` is the prefix itself.
proof fn lemma_take_until_hash_prefix(toks: Seq<Seq<u8>>)
    ensures
        take_until_hash(toks).len() <= toks.len(),
        forall|k: int|
            0 <= k < take_until_hash(toks).len() ==> #[trigger] take_until_hash(toks)[k]
                == toks[k] && !is_hash_sp(toks[k]),
    decreases toks.len(),
{
    if toks.len() == 0 || is_hash_sp(toks[0]) {
    } else {
        lemma_take_until_hash_prefix(toks.skip(1));
        let t = take_until_hash(toks);
        let r = take_until_hash(toks.skip(1));
        assert forall|k: int| 0 <= k < t.len() implies #[trigger] t[k] == toks[k] && !is_hash_sp(
            toks[k],
        ) by {
            if k > 0 {
                assert(t[k] == r[k - 1]);
                assert(r[k - 1] == toks.skip(1)[k - 1]);
            }
        }
    }
}

/// Splitting a stream into macros and remainder and rendering them back
/// yields the original stream.
pub proof fn lemma_parse_render_roundtrip(toks: Seq<Seq<u8>>)
    ensures
        render_macros(parse_split(toks).0) + parse_split(toks).1 == toks,
    decreases toks.len(),
{
    if toks.len() >= 3 && is_hash_sp(toks[0]) && is_define_sp(toks[1]) {
        let name = toks[2];
        let body = take_until_hash(toks.skip(3));
        lemma_take_until_hash_prefix(toks.skip(3));
        let rest = toks.skip(3 + body.len() as int);
        lemma_parse_render_roundtrip(rest);
        let r = parse_split(toks);
        assert(r.0 == seq![(name, body)] + parse_split(rest).0);
        assert(r.0.drop_first() =~= parse_split(rest).0);
        assert(render_macros(r.0) == seq![hash_spelling(), define_spelling(), name] + body
            + render_macros(parse_split(rest).0));
        assert forall|k: int| 0 <= k < toks.len() implies (render_macros(r.0) + r.1)[k]
            == toks[k] by {
            if k == 0 {
                assert(toks[0] =~= hash_spelling());
            } else if k == 1 {
                assert(toks[1] =~= define_spelling());
            } else if k >= 3 && k < 3 + body.len() {
                assert(body[k - 3] == toks.skip(3)[k - 3]);
            } else if k >= 3 + body.len() {
                assert((render_macros(parse_split(rest).0) + parse_split(rest).1)[k - 3
                    - body.len()] == rest[k - 3 - body.len()]);
            }
        }
        assert(render_macros(r.0) + r.1 =~= toks);
    } else {
        assert(render_macros(parse_split(toks).0) + parse_split(toks).1 =~= toks);
    }
}


/// Rendering distributes over table concatenation.
pub proof fn lemma_render_append(a: Seq<(Seq<u8>, Seq<Seq<u8>>)>, b: Seq<(Seq<u8>, Seq<Seq<u8>>)>)
    ensures
        render_macros(a + b) == render_macros(a) + render_macros(b),
    decreases a.len(),
{
    if a.len() == 0 {
        assert(a + b =~= b);
        assert(render_macros(a) + render_macros(b) =~= render_macros(b));
    } else {
        assert((a + b).drop_first() =~= a.drop_first() + b);
        lemma_render_append(a.drop_first(), b);
        let pre = seq![hash_spelling(), define_spelling(), a[0].0] + a[0].1;
        assert((a + b)[0] == a[0]);
        assert(render_macros(a + b) == pre + (render_macros(a.drop_first()) + render_macros(b)));
        assert(render_macros(a) == pre + render_macros(a.drop_first()));
        assert(pre + (render_macros(a.drop_first()) + render_macros(b)) =~= (pre + render_macros(
            a.drop_first(),
        )) + render_macros(b));
    }
}

/// Split the leading `# define NAME body...` groups off a stream into a
/// macro table and the remaining tokens.
pub fn parse_macros(tokens: &Vec<Token>) -> (r: (Vec<ParsedMacro>, Vec<Token>))
    ensures
        macros_view(r.0@) == parse_split(spellings(tokens@)).0,
        spellings(r.1@) == parse_split(spellings(tokens@)).1,
{
    let ghost toks = spellings(tokens@);
    let n = tokens.len();
    let mut ms: Vec<ParsedMacro> = Vec::new();
    let mut i: usize = 0;
    proof {
        assert(toks.skip(0) =~= toks);
        assert(macros_view(ms@) + parse_split(toks).0 =~= parse_split(toks).0);
    }
    loop
        invariant
            i <= n,
            n == tokens@.len(),
            toks == spellings(tokens@),
            parse_split(toks).0 == macros_view(ms@) + parse_split(toks.skip(i as int)).0,
            parse_split(toks).1 == parse_split(toks.skip(i as int)).1,
        ensures
            i <= n,
            parse_split(toks).0 == macros_view(ms@) + parse_split(toks.skip(i as int)).0,
            parse_split(toks).1 == parse_split(toks.skip(i as int)).1,
            n - i < 3 || !is_hash_sp(toks[i as int]) || !is_define_sp(toks[i + 1]),
        decreases n - i,
    {
        let ghost rem = toks.skip(i as int);
        if !(n - i >= 3 && token_is_hash(&tokens[i]) && token_is_define(&tokens[i + 1])) {
            break ;
        }
        proof {
            assert(rem[0] == toks[i as int]);
            assert(rem[1] == toks[i + 1]);
            assert(rem[2] == toks[i + 2]);
        }
        let name = tokens[i + 2].clone();
        let mut body: Vec<Token> = Vec::new();
        let mut j: usize = i + 3;
        proof {
            assert(rem.skip(3) =~= toks.skip(i + 3));
            assert(spellings(body@) + take_until_hash(toks.skip(i + 3)) =~= take_until_hash(
                toks.skip(i + 3),
            ));
        }
        while j < n && !token_is_hash(&tokens[j])
            invariant
                i + 3 <= j <= n,
                n == tokens@.len(),
                toks == spellings(tokens@),
                body@.len() == j - i - 3,
                take_until_hash(toks.skip(i + 3)) == spellings(body@) + take_until_hash(
                    toks.skip(j as int),
                ),
            decreases n - j,
        {
            let ghost body_old = body@;
            body.push(tokens[j].clone());
            proof {
                let sj = toks.skip(j as int);
                assert(sj[0] == toks[j as int]);
                assert(sj.skip(1) =~= toks.skip(j + 1));
                assert(take_until_hash(sj) == seq![toks[j as int]] + take_until_hash(
                    toks.skip(j + 1),
                ));
                assert(spellings(body@) =~= spellings(body_old) + seq![toks[j as int]]);
                assert(spellings(body_old) + (seq![toks[j as int]] + take_until_hash(
                    toks.skip(j + 1),
                )) =~= (spellings(body_old) + seq![toks[j as int]]) + take_until_hash(
                    toks.skip(j + 1),
                ));
            }
            j += 1;
        }
        proof {
            let sj = toks.skip(j as int);
            if j < n {
                assert(sj[0] == toks[j as int]);
                assert(take_until_hash(sj) =~= Seq::<Seq<u8>>::empty());
            } else {
                assert(sj =~= Seq::<Seq<u8>>::empty());
                assert(take_until_hash(sj) =~= Seq::<Seq<u8>>::empty());
            }
            assert(spellings(body@) + Seq::<Seq<u8>>::empty() =~= spellings(body@));
            assert(take_until_hash(rem.skip(3)) == spellings(body@));
        }
        let ghost ms_old = ms@;
        let ghost body_sp = spellings(body@);
        let ghost name_sp = name@;
        ms.push(ParsedMacro { name, body });
        proof {
            assert(rem.len() >= 3 && is_hash_sp(rem[0]) && is_define_sp(rem[1]));
            assert(rem.skip(3 + body_sp.len() as int) =~= toks.skip(j as int));
            assert(parse_split(rem).0 == seq![(name_sp, body_sp)] + parse_split(
                toks.skip(j as int),
            ).0);
            assert(parse_split(rem).1 == parse_split(toks.skip(j as int)).1);
            assert(macros_view(ms@) =~= macros_view(ms_old) + seq![(name_sp, body_sp)]);
            assert(macros_view(ms_old) + (seq![(name_sp, body_sp)] + parse_split(
                toks.skip(j as int),
            ).0) =~= (macros_view(ms_old) + seq![(name_sp, body_sp)]) + parse_split(
                toks.skip(j as int),
            ).0);
        }
        i = j;
    }
    let ghost rem = toks.skip(i as int);
    proof {
        if rem.len() >= 3 && is_hash_sp(rem[0]) && is_define_sp(rem[1]) {
            assert(rem[0] == toks[i as int]);
            assert(rem[1] == toks[i + 1]);
            assert(false);
        }
        assert(parse_split(rem).0 =~= Seq::<(Seq<u8>, Seq<Seq<u8>>)>::empty());
        assert(parse_split(rem).1 == rem);
        assert(macros_view(ms@) + parse_split(rem).0 =~= macros_view(ms@));
    }
    let mut rest: Vec<Token> = Vec::new();
    let mut k: usize = i;
    while k < n
        invariant
            i <= k <= n,
            n == tokens@.len(),
            toks == spellings(tokens@),
            rest@.len() == k - i,
            forall|q: int| 0 <= q < k - i ==> #[trigger] rest@[q]@ == toks[i + q],
        decreases n - k,
    {
        rest.push(tokens[k].clone());
        k += 1;
    }
    proof {
        assert(spellings(rest@) =~= rem);
    }
    (ms, rest)
}

/// Render the macro table in front of the stream: `# define NAME body...`
/// per macro, then the top-level tokens.
pub fn macros_to_stream(macros: &Vec<ParsedMacro>, tokens: &Vec<Token>) -> (r: Vec<Token>)
    ensures
        spellings(r@) == render_macros(macros_view(macros@)) + spellings(tokens@),
{
    let ghost mv = macros_view(macros@);
    let mut out: Vec<Token> = Vec::new();
    let mut i: usize = 0;
    proof {
        assert(mv.take(0) =~= Seq::<(Seq<u8>, Seq<Seq<u8>>)>::empty());
        assert(spellings(out@) =~= render_macros(mv.take(0)));
    }
    while i < macros.len()
        invariant
            i <= macros@.len(),
            mv == macros_view(macros@),
            spellings(out@) == render_macros(mv.take(i as int)),
        decreases macros@.len() - i,
    {
        let m = &macros[i];
        let mut chunk: Vec<Token> = Vec::new();
        chunk.push(make_hash_token());
        chunk.push(make_define_token());
        chunk.push(m.name.clone());
        let mut k: usize = 0;
        while k < m.body.len()
            invariant
                k <= m.body@.len(),
                m == &macros@[i as int],
                i < macros@.len(),
                chunk@.len() == 3 + k,
                chunk@[0]@ == hash_spelling(),
                chunk@[1]@ == define_spelling(),
                chunk@[2]@ == m.name@,
                forall|q: int| 0 <= q < k ==> #[trigger] chunk@[3 + q]@ == m.body@[q]@,
            decreases m.body@.len() - k,
        {
            chunk.push(m.body[k].clone());
            k += 1;
        }
        let ghost out_old = out@;
        let ghost chunk_toks = chunk@;
        out.append(&mut chunk);
        proof {
            let entry = mv[i as int];
            let rendered = seq![hash_spelling(), define_spelling(), entry.0] + entry.1;
            assert(entry == (macros@[i as int].name@, spellings(macros@[i as int].body@)));
            assert(out@ == out_old + chunk_toks);
            assert forall|q: int| 0 <= q < rendered.len() implies spellings(out@)[out_old.len()
                + q] == rendered[q] by {
                assert(out@[out_old.len() + q] == chunk_toks[q]);
                if q >= 3 {
                    let qq = q - 3;
                    assert(chunk_toks[3 + qq]@ == m.body@[qq]@);
                    assert(entry.1[qq] == m.body@[qq]@);
                }
            }
            assert(mv.take(i + 1) =~= mv.take(i as int) + seq![entry]);
            lemma_render_append(mv.take(i as int), seq![entry]);
            let s1 = seq![entry];
            assert(s1.drop_first() =~= Seq::<(Seq<u8>, Seq<Seq<u8>>)>::empty());
            assert(render_macros(s1) == rendered + render_macros(s1.drop_first()));
            assert(rendered + render_macros(Seq::<(Seq<u8>, Seq<Seq<u8>>)>::empty()) =~= rendered);
            assert(spellings(out@) =~= render_macros(mv.take(i + 1)));
        }
        i += 1;
    }
    let mut tail = clone_tokens(tokens);
    let ghost out_old = out@;
    let ghost tail_toks = tail@;
    out.append(&mut tail);
    proof {
        assert(mv.take(i as int) =~= mv);
        assert forall|q: int| 0 <= q < out@.len() implies spellings(out@)[q] == (render_macros(mv)
            + spellings(tokens@))[q] by {
            if q < out_old.len() {
                assert(out@[q] == out_old[q]);
                assert(spellings(out_old)[q] == out_old[q]@);
            } else {
                assert(out@[q] == tail_toks[q - out_old.len()]);
                assert(spellings(tail_toks)[q - out_old.len()] == tail_toks[q - out_old.len()]@);
            }
        }
        assert(spellings(out@) =~= render_macros(mv) + spellings(tokens@));
    }
    out
}

} // verus!
