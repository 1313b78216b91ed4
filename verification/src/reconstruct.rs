//! The source reconstructor: render a token stream back into preprocessor
//! text. Every token is preceded by one space; a newline opens before each
//! `#` and after each `# include "..."` triple, so each directive owns its
//! physical line; finally each line is trimmed and empty lines are dropped.

use vstd::prelude::*;

use crate::subdivision::{is_hash_sp, is_include_sp};
use crate::token::{spellings, Token};

verus! {

/// A spelling that begins and ends with a double quote.
pub open spec fn is_quoted_sp(s: Seq<u8>) -> bool {
    s.len() >= 1 && s[0] == 34 && s[s.len() - 1] == 34
}

/// The spellings that keep an `# include "..."` triple counting forward.
pub open spec fn is_include_like(s: Seq<u8>) -> bool {
    is_hash_sp(s) || is_include_sp(s) || is_quoted_sp(s)
}

/// The raw emitted bytes from position `q` on, with `count` tokens of the
/// current include triple already seen: each token gets one leading space,
/// and a newline opens before a `#` or after a completed triple.
pub open spec fn emit_from(toks: Seq<Seq<u8>>, q: int, count: int) -> Seq<u8>
    decreases toks.len() - q,
{
    if q < 0 || q >= toks.len() {
        Seq::empty()
    } else {
        let nl = is_hash_sp(toks[q]) || count == 3;
        let c1: int = if nl {
            0
        } else {
            count
        };
        let c2: int = if is_include_like(toks[q]) {
            c1 + 1
        } else {
            0
        };
        seq![32u8] + (if nl {
            seq![10u8]
        } else {
            Seq::empty()
        }) + toks[q] + emit_from(toks, q + 1, c2)
    }
}

/// The raw emitted bytes of a whole stream.
pub open spec fn emit_tokens(toks: Seq<Seq<u8>>) -> Seq<u8> {
    emit_from(toks, 0, 0)
}

/// The prefix of `s` before its first newline.
pub open spec fn take_line(s: Seq<u8>) -> Seq<u8>
    decreases s.len(),
{
    if s.len() == 0 || s[0] == 10 {
        Seq::empty()
    } else {
        seq![s[0]] + take_line(s.drop_first())
    }
}

/// `take_line` is the newline-free prefix.
pub proof fn lemma_take_line_prefix(s: Seq<u8>)
    ensures
        take_line(s).len() <= s.len(),
        forall|k: int|
            0 <= k < take_line(s).len() ==> #[trigger] take_line(s)[k] == s[k] && s[k] != 10,
        take_line(s).len() < s.len() ==> s[take_line(s).len() as int] == 10,
    decreases s.len(),
{
    if s.len() == 0 || s[0] == 10 {
    } else {
        lemma_take_line_prefix(s.drop_first());
        let t = take_line(s);
        let r = take_line(s.drop_first());
        assert forall|k: int| 0 <= k < t.len() implies #[trigger] t[k] == s[k] && s[k] != 10 by {
            if k > 0 {
                assert(t[k] == r[k - 1]);
                assert(r[k - 1] == s.drop_first()[k - 1]);
            }
        }
        if t.len() < s.len() {
            assert(s[t.len() as int] == s.drop_first()[r.len() as int]);
        }
    }
}

/// Leading spaces removed.
pub open spec fn trim_front(l: Seq<u8>) -> Seq<u8>
    decreases l.len(),
{
    if l.len() > 0 && l[0] == 32 {
        trim_front(l.drop_first())
    } else {
        l
    }
}

/// Trailing spaces removed.
pub open spec fn trim_back(l: Seq<u8>) -> Seq<u8>
    decreases l.len(),
{
    if l.len() > 0 && l[l.len() - 1] == 32 {
        trim_back(l.drop_last())
    } else {
        l
    }
}

/// A line with spaces removed from both ends.
pub open spec fn trim_line(l: Seq<u8>) -> Seq<u8> {
    trim_back(trim_front(l))
}

/// The cleaned text: the trimmed nonempty lines of `s`, joined by single
/// newlines.
pub open spec fn clean_from(s: Seq<u8>) -> Seq<u8>
    decreases s.len(),
    via clean_from_decreases
{
    if s.len() == 0 {
        Seq::empty()
    } else {
        let l = take_line(s);
        let rest = if l.len() == s.len() {
            Seq::<u8>::empty()
        } else {
            s.skip(l.len() as int + 1)
        };
        let t = trim_line(l);
        let tail = clean_from(rest);
        if t.len() == 0 {
            tail
        } else if tail.len() == 0 {
            t
        } else {
            t + seq![10u8] + tail
        }
    }
}

#[via_fn]
proof fn clean_from_decreases(s: Seq<u8>) {
    if s.len() > 0 {
        lemma_take_line_prefix(s);
    }
}

/// The whole reconstruction: emit, then clean.
pub open spec fn reconstruct_spec(toks: Seq<Seq<u8>>) -> Seq<u8> {
    clean_from(emit_tokens(toks))
}

/// `trim_front` drops exactly the leading spaces.
proof fn lemma_trim_front_at(l: Seq<u8>, a: int)
    requires
        0 <= a <= l.len(),
        forall|k: int| 0 <= k < a ==> l[k] == 32,
        a == l.len() || l[a] != 32,
    ensures
        trim_front(l) == l.skip(a),
    decreases a,
{
    if a == 0 {
        assert(l.skip(0) =~= l);
    } else {
        assert(l[0] == 32);
        assert forall|k: int| 0 <= k < a - 1 implies l.drop_first()[k] == 32 by {
            assert(l.drop_first()[k] == l[k + 1]);
        }
        if a - 1 < l.drop_first().len() {
            assert(l.drop_first()[a - 1] == l[a]);
        }
        lemma_trim_front_at(l.drop_first(), a - 1);
        assert(l.drop_first().skip(a - 1) =~= l.skip(a));
    }
}

/// `trim_back` drops exactly the trailing spaces.
proof fn lemma_trim_back_at(l: Seq<u8>, b: int)
    requires
        0 <= b <= l.len(),
        forall|k: int| b <= k < l.len() ==> l[k] == 32,
        b == 0 || l[b - 1] != 32,
    ensures
        trim_back(l) == l.take(b),
    decreases l.len() - b,
{
    if b == l.len() {
        assert(l.take(b) =~= l);
    } else {
        assert(l[l.len() - 1] == 32);
        assert forall|k: int| b <= k < l.drop_last().len() implies l.drop_last()[k] == 32 by {
            assert(l.drop_last()[k] == l[k]);
        }
        if b >= 1 {
            assert(l.drop_last()[b - 1] == l[b - 1]);
        }
        lemma_trim_back_at(l.drop_last(), b);
        assert(l.drop_last().take(b) =~= l.take(b));
    }
}

/// Render the stream as compilable preprocessor text: one space before
/// each token, a newline before every `#` and after every include triple,
/// then each line trimmed and empty lines dropped.
pub fn reconstruct_source(tokens: &Vec<Token>) -> (r: Vec<u8>)
    ensures
        r@ == reconstruct_spec(spellings(tokens@)),
{
    let ghost toks = spellings(tokens@);
    let n = tokens.len();
    let mut raw: Vec<u8> = Vec::new();
    let mut count: usize = 0;
    let mut q: usize = 0;
    proof {
        assert(raw@ + emit_from(toks, 0, 0) =~= emit_from(toks, 0, 0));
    }
    while q < n
        invariant
            q <= n,
            n == tokens@.len(),
            toks == spellings(tokens@),
            count <= 3,
            emit_tokens(toks) == raw@ + emit_from(toks, q as int, count as int),
        decreases n - q,
    {
        let ghost raw_start = raw@;
        let ghost count_old = count as int;
        let t = &tokens[q];
        proof {
            assert(toks[q as int] == t@);
        }
        let is_hash = crate::subdivision::token_is_hash(t);
        let nl = is_hash || count == 3;
        raw.push(32);
        if nl {
            raw.push(10);
            count = 0;
        }
        let incl_like = is_hash || crate::subdivision::token_is_include(t) || {
            let sp = t.spelling();
            sp.len() >= 1 && sp[0] == 34 && sp[sp.len() - 1] == 34
        };
        if incl_like {
            count = count + 1;
        } else {
            count = 0;
        }
        let ghost mid = raw@;
        let sp = t.spelling();
        let mut b: usize = 0;
        while b < sp.len()
            invariant
                b <= sp@.len(),
                sp@ == tokens@[q as int]@,
                q < tokens@.len(),
                raw@ == mid + sp@.take(b as int),
            decreases sp@.len() - b,
        {
            raw.push(sp[b]);
            proof {
                assert(mid + sp@.take(b + 1) =~= (mid + sp@.take(b as int)).push(sp@[b as int]));
            }
            b += 1;
        }
        proof {
            assert(sp@.take(sp@.len() as int) =~= sp@);
            let nlb = is_hash_sp(toks[q as int]) || count_old == 3;
            assert(nl == nlb);
            assert(incl_like == is_include_like(toks[q as int]));
            assert(emit_from(toks, q as int, count_old) == seq![32u8] + (if nlb {
                seq![10u8]
            } else {
                Seq::<u8>::empty()
            }) + toks[q as int] + emit_from(toks, q + 1, count as int));
            assert(raw@ =~= raw_start + (seq![32u8] + (if nlb {
                seq![10u8]
            } else {
                Seq::<u8>::empty()
            }) + toks[q as int]));
            assert(raw_start + (seq![32u8] + (if nlb {
                seq![10u8]
            } else {
                Seq::<u8>::empty()
            }) + toks[q as int] + emit_from(toks, q + 1, count as int)) =~= (raw_start + (
            seq![32u8] + (if nlb {
                seq![10u8]
            } else {
                Seq::<u8>::empty()
            }) + toks[q as int])) + emit_from(toks, q + 1, count as int));
        }
        q += 1;
    }
    proof {
        assert(emit_from(toks, q as int, count as int) =~= Seq::<u8>::empty());
        assert(raw@ + Seq::<u8>::empty() =~= raw@);
    }
    let m = raw.len();
    let mut out: Vec<u8> = Vec::new();
    let mut i: usize = 0;
    proof {
        assert(raw@.skip(0) =~= raw@);
    }
    while i < m
        invariant
            i <= m,
            m == raw@.len(),
            ({
                let rem = raw@.skip(i as int);
                let done = clean_from(raw@);
                if out@.len() == 0 {
                    done == clean_from(rem)
                } else {
                    done == out@ + (if clean_from(rem).len() == 0 {
                        Seq::<u8>::empty()
                    } else {
                        seq![10u8] + clean_from(rem)
                    })
                }
            }),
        decreases m - i,
    {
        let ghost rem = raw@.skip(i as int);
        let mut j: usize = i;
        while j < m && raw[j] != 10
            invariant
                i <= j <= m,
                m == raw@.len(),
                forall|k: int| i <= k < j ==> raw@[k] != 10,
            decreases m - j,
        {
            j += 1;
        }
        proof {
            lemma_take_line_prefix(rem);
            assert forall|k: int| 0 <= k < j - i implies rem[k] != 10 by {
                assert(rem[k] == raw@[i + k]);
            }
            if j < m {
                assert(rem[j - i] == raw@[j as int]);
            }
            if take_line(rem).len() < j - i {
                assert(rem[take_line(rem).len() as int] != 10);
                assert(take_line(rem).len() < rem.len());
                assert(false);
            }
            if take_line(rem).len() > j - i {
                if j < m {
                    assert(take_line(rem)[j - i] == rem[j - i]);
                }
                assert(false);
            }
            assert(take_line(rem).len() == j - i);
            assert forall|k: int| 0 <= k < j - i implies take_line(rem)[k] == rem.take(j - i)[k]
                by {
                assert(take_line(rem)[k] == rem[k]);
            }
            assert(take_line(rem) =~= rem.take(j - i));
        }
        let ghost line = take_line(rem);
        let mut a: usize = i;
        while a < j && raw[a] == 32
            invariant
                i <= a <= j <= m,
                m == raw@.len(),
                forall|k: int| i <= k < a ==> raw@[k] == 32,
            decreases j - a,
        {
            a += 1;
        }
        let mut b: usize = j;
        while b > a && raw[b - 1] == 32
            invariant
                a <= b <= j <= m,
                m == raw@.len(),
                forall|k: int| b <= k < j ==> raw@[k] == 32,
            decreases b - a,
        {
            b -= 1;
        }
        proof {
            assert forall|k: int| 0 <= k < a - i implies line[k] == 32 by {
                assert(line[k] == rem[k]);
                assert(rem[k] == raw@[i + k]);
            }
            if a - i < line.len() {
                assert(line[a - i] == raw@[a as int]);
            }
            lemma_trim_front_at(line, a - i);
            let tf = line.skip(a - i);
            assert forall|k: int| b - a <= k < tf.len() implies tf[k] == 32 by {
                assert(tf[k] == line[a - i + k]);
                assert(line[a - i + k] == raw@[a + k]);
            }
            if b - a >= 1 {
                assert(tf[b - a - 1] == raw@[b - 1]);
            }
            lemma_trim_back_at(tf, b - a);
            assert(trim_line(line) == tf.take(b - a));
            assert(trim_line(line) =~= raw@.subrange(a as int, b as int));
        }
        let ghost out_old = out@;
        if a < b {
            if out.len() > 0 {
                out.push(10);
            }
            let mut c: usize = a;
            let ghost out_mid = out@;
            while c < b
                invariant
                    a <= c <= b <= m,
                    m == raw@.len(),
                    out@ == out_mid + raw@.subrange(a as int, c as int),
                decreases b - c,
            {
                out.push(raw[c]);
                proof {
                    assert(out_mid + raw@.subrange(a as int, c + 1) =~= (out_mid + raw@.subrange(
                        a as int,
                        c as int,
                    )).push(raw@[c as int]));
                }
                c += 1;
            }
        }
        proof {
            let rest = if line.len() == rem.len() {
                Seq::<u8>::empty()
            } else {
                rem.skip(line.len() as int + 1)
            };
            let t = trim_line(line);
            assert(clean_from(rem) == (if t.len() == 0 {
                clean_from(rest)
            } else if clean_from(rest).len() == 0 {
                t
            } else {
                t + seq![10u8] + clean_from(rest)
            }));
            if j < m {
                assert(line.len() < rem.len());
                assert(rest =~= raw@.skip(j + 1));
            } else {
                assert(line.len() == rem.len());
                assert(raw@.skip(m as int) =~= Seq::<u8>::empty());
                assert(rest =~= raw@.skip(m as int));
            }
            let done = clean_from(raw@);
            let newrem = clean_from(rest);
            if a < b {
                assert(t.len() > 0);
                assert(t == raw@.subrange(a as int, b as int));
                if out_old.len() == 0 {
                    if out@.len() > out_old.len() + t.len() {
                        assert(false);
                    }
                    assert(out@ =~= t);
                    if newrem.len() == 0 {
                        assert(done == t);
                    } else {
                        assert(done == out@ + (seq![10u8] + newrem)) by {
                            assert(t + seq![10u8] + newrem =~= t + (seq![10u8] + newrem));
                        }
                    }
                } else {
                    assert(out@ =~= out_old + seq![10u8] + t);
                    if newrem.len() == 0 {
                        assert(clean_from(rem) == t);
                        assert(done == out_old + (seq![10u8] + t));
                        assert(out_old + (seq![10u8] + t) =~= out_old + seq![10u8] + t);
                    } else {
                        assert(clean_from(rem) == t + seq![10u8] + newrem);
                        assert(done == out_old + (seq![10u8] + (t + seq![10u8] + newrem)));
                        assert(out_old + (seq![10u8] + (t + seq![10u8] + newrem)) =~= (out_old
                            + seq![10u8] + t) + (seq![10u8] + newrem));
                    }
                }
            } else {
                assert(t.len() == 0);
                assert(clean_from(rem) == newrem);
                assert(out@ == out_old);
            }
        }
        i = if j < m {
            j + 1
        } else {
            m
        };
    }
    proof {
        assert(raw@.skip(m as int) =~= Seq::<u8>::empty());
        assert(clean_from(raw@.skip(i as int)).len() == 0);
        if out@.len() == 0 {
            assert(clean_from(raw@) =~= out@);
        } else {
            assert(clean_from(raw@) =~= out@ + Seq::<u8>::empty());
            assert(out@ + Seq::<u8>::empty() =~= out@);
        }
    }
    out
}


/// The two whitespace bytes the reconstructor ever inserts.
pub open spec fn is_ws(b: u8) -> bool {
    b == 32 || b == 10
}

/// The longest whitespace-free prefix.
pub open spec fn take_word(s: Seq<u8>) -> Seq<u8>
    decreases s.len(),
{
    if s.len() == 0 || is_ws(s[0]) {
        Seq::empty()
    } else {
        seq![s[0]] + take_word(s.drop_first())
    }
}

/// `take_word` is the whitespace-free prefix.
proof fn lemma_take_word_prefix(s: Seq<u8>)
    ensures
        take_word(s).len() <= s.len(),
        forall|k: int|
            0 <= k < take_word(s).len() ==> #[trigger] take_word(s)[k] == s[k] && !is_ws(s[k]),
        take_word(s).len() < s.len() ==> is_ws(s[take_word(s).len() as int]),
        s.len() > 0 && !is_ws(s[0]) ==> take_word(s).len() >= 1,
    decreases s.len(),
{
    if s.len() == 0 || is_ws(s[0]) {
    } else {
        lemma_take_word_prefix(s.drop_first());
        let t = take_word(s);
        let r = take_word(s.drop_first());
        assert forall|k: int| 0 <= k < t.len() implies #[trigger] t[k] == s[k] && !is_ws(s[k]) by {
            if k > 0 {
                assert(t[k] == r[k - 1]);
                assert(r[k - 1] == s.drop_first()[k - 1]);
            }
        }
        if t.len() < s.len() {
            assert(s[t.len() as int] == s.drop_first()[r.len() as int]);
        }
    }
}

/// The words of a byte string: maximal whitespace-free runs, in order.
pub open spec fn ws_split(s: Seq<u8>) -> Seq<Seq<u8>>
    decreases s.len(),
    via ws_split_decreases
{
    if s.len() == 0 {
        Seq::empty()
    } else if is_ws(s[0]) {
        ws_split(s.skip(1))
    } else {
        seq![take_word(s)] + ws_split(s.skip(take_word(s).len() as int))
    }
}

#[via_fn]
proof fn ws_split_decreases(s: Seq<u8>) {
    if s.len() > 0 && !is_ws(s[0]) {
        lemma_take_word_prefix(s);
    }
}

/// A whitespace-free word followed by whitespace (or nothing) is its own
/// `take_word`.
proof fn lemma_take_word_all(x: Seq<u8>, y: Seq<u8>)
    requires
        forall|i: int| 0 <= i < x.len() ==> !is_ws(#[trigger] x[i]),
        y.len() == 0 || is_ws(y[0]),
    ensures
        take_word(x + y) == x,
    decreases x.len(),
{
    if x.len() == 0 {
        assert(x + y =~= y);
        assert(take_word(x + y) =~= x);
    } else {
        assert((x + y)[0] == x[0]);
        assert forall|i: int| 0 <= i < x.drop_first().len() implies !is_ws(
            #[trigger] x.drop_first()[i],
        ) by {
            assert(x.drop_first()[i] == x[i + 1]);
        }
        lemma_take_word_all(x.drop_first(), y);
        assert((x + y).drop_first() =~= x.drop_first() + y);
        assert(take_word(x + y) == seq![x[0]] + x.drop_first());
        assert(seq![x[0]] + x.drop_first() =~= x);
    }
}

/// Appending something that starts with whitespace never changes a word.
proof fn lemma_take_word_append(x: Seq<u8>, y: Seq<u8>)
    requires
        y.len() > 0 && is_ws(y[0]),
    ensures
        take_word(x + y) == take_word(x),
    decreases x.len(),
{
    if x.len() == 0 {
        assert(x + y =~= y);
    } else if is_ws(x[0]) {
        assert((x + y)[0] == x[0]);
    } else {
        assert((x + y)[0] == x[0]);
        lemma_take_word_append(x.drop_first(), y);
        assert((x + y).drop_first() =~= x.drop_first() + y);
    }
}

/// Words distribute over a whitespace separator.
proof fn lemma_ws_split_sep(a: Seq<u8>, sep: u8, b: Seq<u8>)
    requires
        is_ws(sep),
    ensures
        ws_split(a + seq![sep] + b) == ws_split(a) + ws_split(b),
    decreases a.len(),
{
    let whole = a + seq![sep] + b;
    if a.len() == 0 {
        assert(whole =~= seq![sep] + b);
        assert(whole.skip(1) =~= b);
        assert(ws_split(whole) == ws_split(b));
        assert(ws_split(a) + ws_split(b) =~= ws_split(b));
    } else if is_ws(a[0]) {
        assert(whole[0] == a[0]);
        lemma_ws_split_sep(a.skip(1), sep, b);
        assert(whole.skip(1) =~= a.skip(1) + seq![sep] + b);
    } else {
        assert(whole[0] == a[0]);
        lemma_take_word_prefix(a);
        let w = take_word(a);
        assert(take_word(whole) == w) by {
            assert(a + seq![sep] + b =~= a + (seq![sep] + b));
            lemma_take_word_append(a, seq![sep] + b);
        }
        lemma_ws_split_sep(a.skip(w.len() as int), sep, b);
        assert(whole.skip(w.len() as int) =~= a.skip(w.len() as int) + seq![sep] + b);
        assert(ws_split(whole) == seq![w] + (ws_split(a.skip(w.len() as int)) + ws_split(b)));
        assert(ws_split(a) == seq![w] + ws_split(a.skip(w.len() as int)));
        assert(seq![w] + (ws_split(a.skip(w.len() as int)) + ws_split(b)) =~= (seq![w] + ws_split(
            a.skip(w.len() as int),
        )) + ws_split(b));
    }
}

/// A trailing space never changes the words.
proof fn lemma_ws_split_trailing_space(y: Seq<u8>)
    ensures
        ws_split(y + seq![32u8]) == ws_split(y),
    decreases y.len(),
{
    let whole = y + seq![32u8];
    if y.len() == 0 {
        assert(whole =~= seq![32u8]);
        assert(whole[0] == 32);
        assert(ws_split(whole) == ws_split(whole.skip(1)));
        assert(whole.skip(1) =~= Seq::<u8>::empty());
    } else if is_ws(y[0]) {
        assert(whole[0] == y[0]);
        lemma_ws_split_trailing_space(y.skip(1));
        assert(whole.skip(1) =~= y.skip(1) + seq![32u8]);
        assert(ws_split(whole) == ws_split(whole.skip(1)));
        assert(ws_split(y) == ws_split(y.skip(1)));
    } else {
        assert(whole[0] == y[0]);
        lemma_take_word_prefix(y);
        let w = take_word(y);
        assert(take_word(whole) == w) by {
            lemma_take_word_append(y, seq![32u8]);
        }
        lemma_ws_split_trailing_space(y.skip(w.len() as int));
        assert(whole.skip(w.len() as int) =~= y.skip(w.len() as int) + seq![32u8]);
        assert(ws_split(whole) == seq![w] + ws_split(whole.skip(w.len() as int)));
        assert(ws_split(y) == seq![w] + ws_split(y.skip(w.len() as int)));
    }
}

/// Trimming spaces off a line never changes its words.
proof fn lemma_ws_split_trim(l: Seq<u8>)
    ensures
        ws_split(trim_line(l)) == ws_split(l),
{
    lemma_ws_split_trim_front(l);
    lemma_ws_split_trim_back(trim_front(l));
}

proof fn lemma_ws_split_trim_front(l: Seq<u8>)
    ensures
        ws_split(trim_front(l)) == ws_split(l),
    decreases l.len(),
{
    if l.len() > 0 && l[0] == 32 {
        lemma_ws_split_trim_front(l.drop_first());
        assert(l.skip(1) =~= l.drop_first());
    }
}

proof fn lemma_ws_split_trim_back(l: Seq<u8>)
    ensures
        ws_split(trim_back(l)) == ws_split(l),
    decreases l.len(),
{
    if l.len() > 0 && l[l.len() - 1] == 32 {
        lemma_ws_split_trim_back(l.drop_last());
        assert(l.drop_last() + seq![32u8] =~= l);
        lemma_ws_split_trailing_space(l.drop_last());
    }
}

/// The line cleanup never changes the words.
proof fn lemma_ws_split_clean(s: Seq<u8>)
    ensures
        ws_split(clean_from(s)) == ws_split(s),
    decreases s.len(),
{
    if s.len() == 0 {
    } else {
        lemma_take_line_prefix(s);
        let l = take_line(s);
        let t = trim_line(l);
        lemma_ws_split_trim(l);
        if l.len() == s.len() {
            assert(l =~= s);
            let tail = clean_from(Seq::<u8>::empty());
            assert(tail.len() == 0);
            if t.len() == 0 {
                assert(clean_from(s) == tail);
                assert(ws_split(t) =~= Seq::<Seq<u8>>::empty());
            } else {
                assert(clean_from(s) == t);
            }
        } else {
            let rest = s.skip(l.len() as int + 1);
            lemma_ws_split_clean(rest);
            assert(s =~= l + seq![10u8] + rest) by {
                assert(s[l.len() as int] == 10);
                assert forall|k: int| 0 <= k < s.len() implies s[k] == (l + seq![10u8] + rest)[k]
                    by {
                    if k < l.len() {
                        assert(l[k] == s[k]);
                    } else if k > l.len() {
                        assert(rest[k - l.len() - 1] == s[k]);
                    }
                }
            }
            lemma_ws_split_sep(l, 10u8, rest);
            let tail = clean_from(rest);
            if t.len() == 0 {
                assert(clean_from(s) == tail);
                assert(ws_split(l) == ws_split(t));
                assert(ws_split(t) =~= Seq::<Seq<u8>>::empty());
                assert(ws_split(s) == ws_split(l) + ws_split(rest));
                assert(Seq::<Seq<u8>>::empty() + ws_split(rest) =~= ws_split(rest));
            } else if tail.len() == 0 {
                assert(clean_from(s) == t);
                assert(ws_split(rest) == ws_split(tail));
                assert(ws_split(tail) =~= Seq::<Seq<u8>>::empty());
                assert(ws_split(s) == ws_split(l) + ws_split(rest));
                assert(ws_split(l) + Seq::<Seq<u8>>::empty() =~= ws_split(l));
            } else {
                assert(clean_from(s) == t + seq![10u8] + tail);
                lemma_ws_split_sep(t, 10u8, tail);
            }
        }
    }
}

/// The emitted bytes split back into exactly the stream's spellings.
proof fn lemma_ws_split_emit(toks: Seq<Seq<u8>>, q: int, count: int)
    requires
        0 <= q,
        forall|i: int|
            0 <= i < toks.len() ==> (#[trigger] toks[i]).len() > 0 && (forall|b: int|
                0 <= b < toks[i].len() ==> !is_ws(#[trigger] toks[i][b])),
    ensures
        ws_split(emit_from(toks, q, count)) == toks.skip(if q <= toks.len() {
            q
        } else {
            toks.len() as int
        }),
    decreases toks.len() - q,
{
    if q >= toks.len() {
        assert(toks.skip(toks.len() as int) =~= Seq::<Seq<u8>>::empty());
    } else {
        let nl = is_hash_sp(toks[q]) || count == 3;
        let c2: int = if is_include_like(toks[q]) {
            (if nl {
                0int
            } else {
                count
            }) + 1
        } else {
            0
        };
        lemma_ws_split_emit(toks, q + 1, c2);
        let rest = emit_from(toks, q + 1, c2);
        let e = emit_from(toks, q, count);
        assert(toks[q].len() > 0 && !is_ws(toks[q][0]));
        assert(rest.len() == 0 || is_ws(rest[0])) by {
            if q + 1 < toks.len() {
                assert(rest[0] == 32);
            } else {
                assert(rest =~= Seq::<u8>::empty());
            }
        }
        let body = toks[q] + rest;
        if nl {
            assert(e =~= seq![32u8] + (seq![10u8] + body)) by {
                assert(e == seq![32u8] + seq![10u8] + toks[q] + rest);
                assert(seq![32u8] + seq![10u8] + toks[q] + rest =~= seq![32u8] + (seq![10u8]
                    + body));
            }
            assert((seq![32u8] + (seq![10u8] + body)).skip(1) =~= seq![10u8] + body);
            assert((seq![10u8] + body).skip(1) =~= body);
            assert(e[0] == 32);
            assert(ws_split(e) == ws_split(e.skip(1)));
            assert(e.skip(1) == seq![10u8] + body);
            assert((seq![10u8] + body)[0] == 10);
            assert(ws_split(seq![10u8] + body) == ws_split((seq![10u8] + body).skip(1)));
            assert(ws_split(e) == ws_split(body));
        } else {
            assert(e =~= seq![32u8] + body) by {
                assert(e == seq![32u8] + Seq::<u8>::empty() + toks[q] + rest);
                assert(seq![32u8] + Seq::<u8>::empty() + toks[q] + rest =~= seq![32u8] + body);
            }
            assert((seq![32u8] + body).skip(1) =~= body);
            assert(e[0] == 32);
            assert(ws_split(e) == ws_split(e.skip(1)));
            assert(e.skip(1) == body);
            assert(ws_split(e) == ws_split(body));
        }
        assert(!is_ws(body[0]));
        lemma_take_word_all(toks[q], rest);
        assert(take_word(body) == toks[q]);
        assert(body.skip(toks[q].len() as int) =~= rest);
        assert(ws_split(body) == seq![toks[q]] + ws_split(rest));
        assert(seq![toks[q]] + toks.skip(q + 1) =~= toks.skip(q));
    }
}

/// Reconstruction round-trip: for a stream of nonempty spellings that hold
/// no space or newline byte, splitting the reconstructed text on
/// whitespace yields the spellings again, in order.
pub proof fn lemma_reconstruct_roundtrip(toks: Seq<Seq<u8>>)
    requires
        forall|i: int|
            0 <= i < toks.len() ==> (#[trigger] toks[i]).len() > 0 && (forall|b: int|
                0 <= b < toks[i].len() ==> !is_ws(#[trigger] toks[i][b])),
    ensures
        ws_split(reconstruct_spec(toks)) == toks,
{
    lemma_ws_split_clean(emit_tokens(toks));
    lemma_ws_split_emit(toks, 0, 0);
    assert(toks.skip(0) =~= toks);
}

} // verus!
