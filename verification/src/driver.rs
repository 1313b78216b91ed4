//! The iteration driver: repeat generation, selection and rewrite until no
//! candidate improves the token count, allocating one fresh macro name per
//! committed extraction. The token count never increases across an accepted
//! iteration; an iteration that would increase it is discarded and the
//! previous stream kept.

use vstd::prelude::*;

use crate::generate::{check_minimized, generate_one_macro, generate_step, is_minimized};
use crate::token::{clone_tokens, spellings, Token};

verus! {

/// Why minimization stopped before reaching a fixed point.
#[derive(Clone, Copy, Debug, PartialEq, Eq, Structural)]
pub enum MinimizeError {
    /// Every name of the backing pool is spent while an improving candidate
    /// still exists; there is no recovery from a spent pool.
    NamePoolExhausted,
}

/// The spellings a name pool denotes.
pub open spec fn name_list(ns: Seq<Vec<u8>>) -> Seq<Seq<u8>> {
    Seq::new(ns.len(), |i: int| ns[i]@)
}

/// The whole minimization run as a function of the stream and the name
/// pool: stop with the current stream once no candidate scores zero or
/// better; otherwise spend the next name on one generator step, keep the
/// result while the token count does not grow, and hand back the previous
/// stream when it would.
pub open spec fn drive(toks: Seq<Seq<u8>>, names: Seq<Seq<u8>>, i: int) -> Result<
    Seq<Seq<u8>>,
    MinimizeError,
>
    decreases toks.len(),
{
    if is_minimized(toks) {
        Ok(toks)
    } else if i < 0 || i >= names.len() {
        Err(MinimizeError::NamePoolExhausted)
    } else {
        let next = generate_step(toks, names[i]);
        if next.len() < toks.len() {
            drive(next, names, i + 1)
        } else if next.len() == toks.len() {
            Ok(next)
        } else {
            Ok(toks)
        }
    }
}

/// Monotonic non-increase: whatever stream a run returns never holds more
/// tokens than the stream it started from; an iteration that would increase
/// the count is never applied.
pub proof fn lemma_drive_monotonic(toks: Seq<Seq<u8>>, names: Seq<Seq<u8>>, i: int)
    ensures
        drive(toks, names, i) matches Ok(r) ==> r.len() <= toks.len(),
    decreases toks.len(),
{
    if is_minimized(toks) {
    } else if i < 0 || i >= names.len() {
    } else {
        let next = generate_step(toks, names[i]);
        if next.len() < toks.len() {
            lemma_drive_monotonic(next, names, i + 1);
        }
    }
}

/// Idempotence, first half: one generator step on an already-minimized
/// stream finds a best score above zero and leaves the stream unchanged.
pub proof fn lemma_step_on_minimized(toks: Seq<Seq<u8>>, name: Seq<u8>)
    requires
        is_minimized(toks),
    ensures
        generate_step(toks, name) == toks,
{
}

/// Idempotence, second half: a run on an already-minimized stream returns
/// it unchanged at once, spending no name.
pub proof fn lemma_drive_idempotent(toks: Seq<Seq<u8>>, names: Seq<Seq<u8>>, i: int)
    requires
        is_minimized(toks),
    ensures
        drive(toks, names, i) == Ok::<Seq<Seq<u8>>, MinimizeError>(toks),
{
}

/// Run the minimizer to its fixed point, drawing macro names from the pool
/// in order; fails only when an improving candidate exists but the pool is
/// spent.
pub fn minimize(tokens: &Vec<Token>, names: &Vec<Vec<u8>>) -> (r: Result<
    Vec<Token>,
    MinimizeError,
>)
    requires
        tokens@.len() < 0x4000_0000,
    ensures
        ({
            let d = drive(spellings(tokens@), name_list(names@), 0);
            match r {
                Ok(out) => d == Ok::<Seq<Seq<u8>>, MinimizeError>(spellings(out@)),
                Err(e) => d == Err::<Seq<Seq<u8>>, MinimizeError>(e),
            }
        }),
{
    let ghost nl = name_list(names@);
    let ghost goal = drive(spellings(tokens@), nl, 0);
    let mut cur = clone_tokens(tokens);
    let mut i: usize = 0;
    loop
        invariant
            cur@.len() < 0x4000_0000,
            nl == name_list(names@),
            goal == drive(spellings(tokens@), nl, 0),
            goal == drive(spellings(cur@), nl, i as int),
        decreases cur@.len(),
    {
        if check_minimized(&cur) {
            return Ok(cur);
        }
        if i >= names.len() {
            return Err(MinimizeError::NamePoolExhausted);
        }
        proof {
            assert(nl[i as int] == names@[i as int]@);
        }
        let next = generate_one_macro(&cur, &names[i]);
        if next.len() < cur.len() {
            cur = next;
            i += 1;
        } else if next.len() == cur.len() {
            return Ok(next);
        } else {
            return Ok(cur);
        }
    }
}

} // verus!
