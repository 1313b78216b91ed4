//! The macro absorption / outlining engine: move a token shared by every
//! use site of a macro into the macro's body. An adjacent occurrence that is
//! itself a macro reference keeps the shared token reachable by having the
//! referenced macro's edge token duplicated at its other use sites
//! ("outlining") while that macro drops the edge from its own body.

use vstd::prelude::*;

use crate::macros::{clone_macros, count_tokens, macro_view, macros_cost, macros_view, total_cost,
    ParsedMacro};
use crate::token::{clone_tokens, spellings, Token};

verus! {

/// Which side of an occurrence is inspected: the token just before it
/// (`Front`) or just after it (`Back`).
#[derive(Clone, Copy, Debug, PartialEq, Eq, Structural, PartialOrd, Hash)]
pub enum Side {
    Front,
    Back,
}

impl Side {
    /// The other side.
    pub open spec fn spec_opposite(self) -> Side {
        match self {
            Side::Front => Side::Back,
            Side::Back => Side::Front,
        }
    }

    /// The other side.
    pub fn opposite(self) -> (r: Side)
        ensures
            r == self.spec_opposite(),
    {
        match self {
            Side::Front => Side::Back,
            Side::Back => Side::Front,
        }
    }
}

/// The first macro of the table with this name, or `-1`.
pub open spec fn find_macro(ms: Seq<(Seq<u8>, Seq<Seq<u8>>)>, name: Seq<u8>) -> int
    decreases ms.len(),
{
    if ms.len() == 0 {
        -1
    } else if ms[0].0 == name {
        0
    } else {
        let r = find_macro(ms.drop_first(), name);
        if r < 0 {
            -1
        } else {
            r + 1
        }
    }
}

/// `find_macro` names the first macro with the given name.
pub proof fn lemma_find_macro(ms: Seq<(Seq<u8>, Seq<Seq<u8>>)>, name: Seq<u8>)
    ensures
        ({
            let j = find_macro(ms, name);
            &&& -1 <= j < ms.len()
            &&& j >= 0 ==> ms[j].0 == name
            &&& forall|k: int|
                0 <= k < ms.len() && (j == -1 || k < j) ==> (#[trigger] ms[k]).0 != name
        }),
    decreases ms.len(),
{
    if ms.len() == 0 {
    } else if ms[0].0 == name {
    } else {
        lemma_find_macro(ms.drop_first(), name);
        let j = find_macro(ms, name);
        let jr = find_macro(ms.drop_first(), name);
        assert forall|k: int| 0 <= k < ms.len() && (j == -1 || k < j) implies (#[trigger] ms[k]).0
            != name by {
            if k > 0 {
                assert(ms[k] == ms.drop_first()[k - 1]);
            }
        }
        if jr >= 0 {
            assert(ms[jr + 1] == ms.drop_first()[jr]);
        }
    }
}

/// The first macro with this name and a nonempty body, or `-1`; resolution
/// keeps looking past a macro whose body is empty.
pub open spec fn find_macro_nonempty(ms: Seq<(Seq<u8>, Seq<Seq<u8>>)>, name: Seq<u8>) -> int
    decreases ms.len(),
{
    if ms.len() == 0 {
        -1
    } else if ms[0].0 == name && ms[0].1.len() > 0 {
        0
    } else {
        let r = find_macro_nonempty(ms.drop_first(), name);
        if r < 0 {
            -1
        } else {
            r + 1
        }
    }
}

/// `find_macro_nonempty` names the first macro with the given name and a
/// nonempty body.
pub proof fn lemma_find_macro_nonempty(ms: Seq<(Seq<u8>, Seq<Seq<u8>>)>, name: Seq<u8>)
    ensures
        ({
            let j = find_macro_nonempty(ms, name);
            &&& -1 <= j < ms.len()
            &&& j >= 0 ==> ms[j].0 == name && ms[j].1.len() > 0
            &&& forall|k: int|
                0 <= k < ms.len() && (j == -1 || k < j) ==> !((#[trigger] ms[k]).0 == name
                    && ms[k].1.len() > 0)
        }),
    decreases ms.len(),
{
    if ms.len() == 0 {
    } else if ms[0].0 == name && ms[0].1.len() > 0 {
    } else {
        lemma_find_macro_nonempty(ms.drop_first(), name);
        let j = find_macro_nonempty(ms, name);
        let jr = find_macro_nonempty(ms.drop_first(), name);
        assert forall|k: int| 0 <= k < ms.len() && (j == -1 || k < j) implies !((
        #[trigger] ms[k]).0 == name && ms[k].1.len() > 0) by {
            if k > 0 {
                assert(ms[k] == ms.drop_first()[k - 1]);
            }
        }
        if jr >= 0 {
            assert(ms[jr + 1] == ms.drop_first()[jr]);
        }
    }
}

/// The spelling at a body's edge on the given side.
pub open spec fn edge_of(body: Seq<Seq<u8>>, side: Side) -> Seq<u8> {
    match side {
        Side::Front => body[0],
        Side::Back => body[body.len() - 1],
    }
}

/// Resolve a spelling through macro references to its deepest leaf on the
/// given side, bounded by fuel: while the spelling names a macro with a
/// nonempty body, descend to that body's edge.
pub open spec fn resolve_spec(
    ms: Seq<(Seq<u8>, Seq<Seq<u8>>)>,
    sp: Seq<u8>,
    side: Side,
    fuel: nat,
) -> Seq<u8>
    decreases fuel,
{
    if fuel == 0 {
        sp
    } else {
        let j = find_macro_nonempty(ms, sp);
        if j < 0 {
            sp
        } else {
            resolve_spec(ms, edge_of(ms[j].1, side), side, (fuel - 1) as nat)
        }
    }
}

/// The first macro with this name and a nonempty body, if any.
fn find_macro_nonempty_exec(macros: &Vec<ParsedMacro>, sp: &Token) -> (r: Option<usize>)
    ensures
        ({
            let j = find_macro_nonempty(macros_view(macros@), sp@);
            match r {
                Some(k) => k < macros@.len() && j == k as int,
                None => j == -1,
            }
        }),
{
    let ghost mv = macros_view(macros@);
    proof {
        lemma_find_macro_nonempty(mv, sp@);
    }
    let mut k: usize = 0;
    while k < macros.len()
        invariant
            k <= macros@.len(),
            mv == macros_view(macros@),
            forall|q: int| 0 <= q < k ==> !((#[trigger] mv[q]).0 == sp@ && mv[q].1.len() > 0),
        decreases macros@.len() - k,
    {
        if macros[k].name.eq_spelling(sp) && macros[k].body.len() > 0 {
            proof {
                assert(mv[k as int].0 == sp@ && mv[k as int].1.len() > 0);
                lemma_find_macro_nonempty(mv, sp@);
            }
            return Some(k);
        }
        proof {
            assert(mv[k as int] == (macros@[k as int].name@, spellings(macros@[k as int].body@)));
        }
        k += 1;
    }
    proof {
        lemma_find_macro_nonempty(mv, sp@);
    }
    None
}

/// The first macro with this name, if any.
fn find_macro_exec(macros: &Vec<ParsedMacro>, sp: &Token) -> (r: Option<usize>)
    ensures
        ({
            let j = find_macro(macros_view(macros@), sp@);
            match r {
                Some(k) => k < macros@.len() && j == k as int,
                None => j == -1,
            }
        }),
{
    let ghost mv = macros_view(macros@);
    let mut k: usize = 0;
    while k < macros.len()
        invariant
            k <= macros@.len(),
            mv == macros_view(macros@),
            forall|q: int| 0 <= q < k ==> (#[trigger] mv[q]).0 != sp@,
        decreases macros@.len() - k,
    {
        if macros[k].name.eq_spelling(sp) {
            proof {
                assert(mv[k as int].0 == sp@);
                lemma_find_macro(mv, sp@);
            }
            return Some(k);
        }
        proof {
            assert(mv[k as int] == (macros@[k as int].name@, spellings(macros@[k as int].body@)));
        }
        k += 1;
    }
    proof {
        lemma_find_macro(mv, sp@);
    }
    None
}

/// Resolution with explicit fuel.
fn resolve_fueled(token: &Token, side: Side, macros: &Vec<ParsedMacro>, fuel: usize) -> (r: Token)
    ensures
        r@ == resolve_spec(macros_view(macros@), token@, side, fuel as nat),
    decreases fuel,
{
    if fuel == 0 {
        return token.clone();
    }
    match find_macro_nonempty_exec(macros, token) {
        None => token.clone(),
        Some(j) => {
            let body = &macros[j].body;
            proof {
                lemma_find_macro_nonempty(macros_view(macros@), token@);
                assert(macros_view(macros@)[j as int] == (macros@[j as int].name@, spellings(
                    macros@[j as int].body@,
                )));
                assert(macros_view(macros@)[j as int].1 == spellings(body@));
                assert(spellings(body@).len() > 0);
            }
            let next = match side {
                Side::Front => &body[0],
                Side::Back => &body[body.len() - 1],
            };
            proof {
                assert(next@ == edge_of(macros_view(macros@)[j as int].1, side));
            }
            resolve_fueled(next, side, macros, fuel - 1)
        },
    }
}

/// Resolve a token through macro references to the deepest leaf on the
/// given side, with the walk bounded by the macro count as a defensive
/// guard against a cyclic name graph.
pub fn resolve_token(token: &Token, side: Side, macros: &Vec<ParsedMacro>) -> (r: Token)
    ensures
        r@ == resolve_spec(macros_view(macros@), token@, side, macros@.len() as nat),
{
    resolve_fueled(token, side, macros, macros.len())
}

/// Whether a walk from a macro's edge ends at a leaf directly or passes
/// through further macro references first.
#[derive(Clone, Copy, Debug, PartialEq, Eq, Structural, Hash)]
pub enum MacroLocation {
    Nested,
    Leaf,
}

/// The macro whose edge is the leaf that a walk from `ms[index]` reaches on
/// this side: descend while the edge names another macro; `None` when an
/// empty body or the fuel bound stops the walk.
pub open spec fn locate_spec(
    ms: Seq<(Seq<u8>, Seq<Seq<u8>>)>,
    index: int,
    side: Side,
    fuel: nat,
) -> Option<Seq<u8>>
    decreases fuel,
{
    if fuel == 0 || !(0 <= index < ms.len()) {
        None
    } else if ms[index].1.len() == 0 {
        None
    } else {
        let t = edge_of(ms[index].1, side);
        let j = find_macro(ms, t);
        if j < 0 {
            Some(ms[index].0)
        } else {
            locate_spec(ms, j, side, (fuel - 1) as nat)
        }
    }
}

/// The set of names a token list denotes.
pub open spec fn marked_set(s: Seq<Token>) -> Set<Seq<u8>>
    decreases s.len(),
{
    if s.len() == 0 {
        Set::empty()
    } else {
        marked_set(s.drop_last()).insert(s.last()@)
    }
}

/// Membership in `marked_set` is having the spelling somewhere in the list.
pub proof fn lemma_marked_set(s: Seq<Token>, sp: Seq<u8>)
    ensures
        marked_set(s).contains(sp) <==> exists|k: int| 0 <= k < s.len() && s[k]@ == sp,
    decreases s.len(),
{
    if s.len() == 0 {
    } else {
        lemma_marked_set(s.drop_last(), sp);
        if marked_set(s).contains(sp) {
            if s.last()@ == sp {
                assert(s[s.len() - 1]@ == sp);
            } else {
                let k = choose|k: int| 0 <= k < s.drop_last().len() && s.drop_last()[k]@ == sp;
                assert(s[k]@ == sp);
            }
        }
        if exists|k: int| 0 <= k < s.len() && s[k]@ == sp {
            let k = choose|k: int| 0 <= k < s.len() && s[k]@ == sp;
            if k < s.len() - 1 {
                assert(s.drop_last()[k]@ == sp);
            }
        }
    }
}

/// Is this spelling among the marked names?
fn marked_contains(marked: &Vec<Token>, t: &Token) -> (r: bool)
    ensures
        r == marked_set(marked@).contains(t@),
{
    proof {
        lemma_marked_set(marked@, t@);
    }
    let mut k: usize = 0;
    while k < marked.len()
        invariant
            k <= marked@.len(),
            forall|q: int| 0 <= q < k ==> #[trigger] marked@[q]@ != t@,
        decreases marked@.len() - k,
    {
        if marked[k].eq_spelling(t) {
            proof {
                lemma_marked_set(marked@, t@);
            }
            return true;
        }
        k += 1;
    }
    proof {
        lemma_marked_set(marked@, t@);
        if marked_set(marked@).contains(t@) {
            let q = choose|q: int| 0 <= q < marked@.len() && marked@[q]@ == t@;
            assert(marked@[q]@ != t@);
        }
    }
    false
}

/// Locate with explicit fuel, recording the found macro's name.
fn locate_fueled(
    side: Side,
    macros: &Vec<ParsedMacro>,
    index: usize,
    macros_to_outline: &mut Vec<Token>,
    fuel: usize,
) -> (r: MacroLocation)
    requires
        index < macros@.len(),
    ensures
        ({
            let mv = macros_view(macros@);
            let loc = locate_spec(mv, index as int, side, fuel as nat);
            &&& match loc {
                Some(nm) => marked_set(final(macros_to_outline)@) == marked_set(
                    old(macros_to_outline)@,
                ).insert(nm),
                None => final(macros_to_outline)@ == old(macros_to_outline)@,
            }
            &&& r == (if fuel != 0 && mv[index as int].1.len() > 0 && find_macro(
                mv,
                edge_of(mv[index as int].1, side),
            ) < 0 {
                MacroLocation::Leaf
            } else {
                MacroLocation::Nested
            })
        }),
    decreases fuel,
{
    let ghost mv = macros_view(macros@);
    proof {
        assert(mv[index as int] == (macros@[index as int].name@, spellings(
            macros@[index as int].body@,
        )));
    }
    if fuel == 0 {
        return MacroLocation::Nested;
    }
    let body_len = macros[index].body.len();
    if body_len == 0 {
        return MacroLocation::Nested;
    }
    let edge = match side {
        Side::Front => &macros[index].body[0],
        Side::Back => &macros[index].body[body_len - 1],
    };
    proof {
        assert(edge@ == edge_of(mv[index as int].1, side));
    }
    match find_macro_exec(macros, edge) {
        None => {
            let ghost old_marked = macros_to_outline@;
            macros_to_outline.push(macros[index].name.clone());
            proof {
                assert(macros_to_outline@.drop_last() =~= old_marked);
                assert(macros_to_outline@.last()@ == mv[index as int].0);
            }
            MacroLocation::Leaf
        },
        Some(j) => {
            locate_fueled(side, macros, j, macros_to_outline, fuel - 1);
            MacroLocation::Nested
        },
    }
}

/// Walk from `macros[index]`'s edge on the given side through nested macro
/// references; when the walk reaches a macro whose edge is a plain leaf
/// token, record that macro's name as one to outline. Returns whether the
/// starting edge was already the leaf.
pub fn locate_deepest_macro(
    side: Side,
    macros: &Vec<ParsedMacro>,
    index: usize,
    macros_to_outline: &mut Vec<Token>,
) -> (r: MacroLocation)
    requires
        index < macros@.len(),
    ensures
        ({
            let mv = macros_view(macros@);
            let loc = locate_spec(mv, index as int, side, macros@.len() as nat);
            &&& match loc {
                Some(nm) => marked_set(final(macros_to_outline)@) == marked_set(
                    old(macros_to_outline)@,
                ).insert(nm),
                None => final(macros_to_outline)@ == old(macros_to_outline)@,
            }
            &&& r == (if mv[index as int].1.len() > 0 && find_macro(
                mv,
                edge_of(mv[index as int].1, side),
            ) < 0 {
                MacroLocation::Leaf
            } else {
                MacroLocation::Nested
            })
        }),
{
    locate_fueled(side, macros, index, macros_to_outline, macros.len())
}


/// Is position `q` the token standing, on this side, beside an occurrence
/// of the name? (`Front`: the occurrence follows `q`; `Back`: it precedes.)
pub open spec fn is_neighbor_pos(s: Seq<Seq<u8>>, name: Seq<u8>, side: Side, q: int) -> bool {
    match side {
        Side::Front => 0 <= q && q + 1 < s.len() && s[q + 1] == name,
        Side::Back => 1 <= q < s.len() && s[q - 1] == name,
    }
}

/// Every occurrence of the name in the sequence has an in-bounds adjacent
/// token on the side, and that token resolves, through the opposite side,
/// to the leaf `t`.
pub open spec fn seq_consistent_with(
    ms: Seq<(Seq<u8>, Seq<Seq<u8>>)>,
    s: Seq<Seq<u8>>,
    name: Seq<u8>,
    side: Side,
    t: Seq<u8>,
    fuel: nat,
) -> bool {
    forall|p: int|
        0 <= p < s.len() && #[trigger] s[p] == name ==> match side {
            Side::Front => p >= 1 && resolve_spec(ms, s[p - 1], Side::Back, fuel) == t,
            Side::Back => p + 1 < s.len() && resolve_spec(ms, s[p + 1], Side::Front, fuel) == t,
        }
}

/// The consistency precondition relative to one common leaf: it holds at
/// top level and inside every macro body.
pub open spec fn state_consistent_with(
    ms: Seq<(Seq<u8>, Seq<Seq<u8>>)>,
    toks: Seq<Seq<u8>>,
    name: Seq<u8>,
    side: Side,
    t: Seq<u8>,
) -> bool {
    &&& seq_consistent_with(ms, toks, name, side, t, ms.len() as nat)
    &&& forall|j: int|
        0 <= j < ms.len() ==> seq_consistent_with(
            ms,
            (#[trigger] ms[j]).1,
            name,
            side,
            t,
            ms.len() as nat,
        )
}

/// Does the name occur at top level or inside any macro body?
pub open spec fn has_occurrence(
    ms: Seq<(Seq<u8>, Seq<Seq<u8>>)>,
    toks: Seq<Seq<u8>>,
    name: Seq<u8>,
) -> bool {
    ||| exists|p: int| 0 <= p < toks.len() && #[trigger] toks[p] == name
    ||| exists|j: int, p: int|
        0 <= j < ms.len() && 0 <= p < ms[j].1.len() && #[trigger] ms[j].1[p] == name
}

/// The absorption precondition for `(ms[index], side)`: the name occurs
/// somewhere, and all tokens adjacent to its occurrences on this side
/// resolve to one common leaf.
pub open spec fn absorb_consistent(
    ms: Seq<(Seq<u8>, Seq<Seq<u8>>)>,
    toks: Seq<Seq<u8>>,
    index: int,
    side: Side,
) -> bool {
    &&& has_occurrence(ms, toks, ms[index].0)
    &&& exists|t: Seq<u8>| state_consistent_with(ms, toks, ms[index].0, side, t)
}

/// The common leaf that absorption pulls into the macro body.
pub open spec fn absorbed_token(
    ms: Seq<(Seq<u8>, Seq<Seq<u8>>)>,
    toks: Seq<Seq<u8>>,
    index: int,
    side: Side,
) -> Seq<u8> {
    choose|t: Seq<u8>| state_consistent_with(ms, toks, ms[index].0, side, t)
}

/// One sequence after the removal step, from position `q` on: a token at a
/// neighbor position disappears unless it is itself a macro name, which
/// outlining handles instead.
pub open spec fn remove_from(
    ms0: Seq<(Seq<u8>, Seq<Seq<u8>>)>,
    s: Seq<Seq<u8>>,
    name: Seq<u8>,
    side: Side,
    q: int,
) -> Seq<Seq<u8>>
    decreases s.len() - q,
{
    if q < 0 || q >= s.len() {
        Seq::empty()
    } else {
        let keep = !is_neighbor_pos(s, name, side, q) || find_macro(ms0, s[q]) >= 0;
        (if keep {
            seq![s[q]]
        } else {
            Seq::empty()
        }) + remove_from(ms0, s, name, side, q + 1)
    }
}

/// A whole sequence after the removal step.
pub open spec fn remove_pass(
    ms0: Seq<(Seq<u8>, Seq<Seq<u8>>)>,
    s: Seq<Seq<u8>>,
    name: Seq<u8>,
    side: Side,
) -> Seq<Seq<u8>> {
    remove_from(ms0, s, name, side, 0)
}

/// The names marked for outlining by one sequence, from position `q` on:
/// for each neighbor position holding a macro name, the deepest macro on
/// the opposite side.
pub open spec fn marked_from(
    ms0: Seq<(Seq<u8>, Seq<Seq<u8>>)>,
    s: Seq<Seq<u8>>,
    name: Seq<u8>,
    side: Side,
    q: int,
) -> Set<Seq<u8>>
    decreases s.len() - q,
{
    if q < 0 || q >= s.len() {
        Set::empty()
    } else {
        let rest = marked_from(ms0, s, name, side, q + 1);
        if is_neighbor_pos(s, name, side, q) && find_macro(ms0, s[q]) >= 0 {
            match locate_spec(
                ms0,
                find_macro(ms0, s[q]),
                side.spec_opposite(),
                ms0.len() as nat,
            ) {
                Some(nm) => rest.insert(nm),
                None => rest,
            }
        } else {
            rest
        }
    }
}

/// The names one whole sequence marks for outlining.
pub open spec fn marked_pass(
    ms0: Seq<(Seq<u8>, Seq<Seq<u8>>)>,
    s: Seq<Seq<u8>>,
    name: Seq<u8>,
    side: Side,
) -> Set<Seq<u8>> {
    marked_from(ms0, s, name, side, 0)
}

/// The names the macro bodies from `j` on mark for outlining.
pub open spec fn marked_bodies(
    ms0: Seq<(Seq<u8>, Seq<Seq<u8>>)>,
    name: Seq<u8>,
    side: Side,
    j: int,
) -> Set<Seq<u8>>
    decreases ms0.len() - j,
{
    if j < 0 || j >= ms0.len() {
        Set::empty()
    } else {
        marked_pass(ms0, ms0[j].1, name, side).union(marked_bodies(ms0, name, side, j + 1))
    }
}

/// Every name marked for outlining, over the top level and all bodies.
pub open spec fn marked_total(
    ms0: Seq<(Seq<u8>, Seq<Seq<u8>>)>,
    toks: Seq<Seq<u8>>,
    name: Seq<u8>,
    side: Side,
) -> Set<Seq<u8>> {
    marked_pass(ms0, toks, name, side).union(marked_bodies(ms0, name, side, 0))
}

/// One sequence after the outlining step, from position `q` on: each
/// marked name has the leaf it is about to lose duplicated beside it,
/// except where it stands directly beside the absorbed macro's own name,
/// which is the site the absorption serves.
pub open spec fn outline_from(
    basis: Seq<(Seq<u8>, Seq<Seq<u8>>)>,
    s: Seq<Seq<u8>>,
    marked: Set<Seq<u8>>,
    side: Side,
    mname: Option<Seq<u8>>,
    q: int,
) -> Seq<Seq<u8>>
    decreases s.len() - q,
{
    if q < 0 || q >= s.len() {
        Seq::empty()
    } else {
        let beside = match mname {
            Some(nm) => is_neighbor_pos(s, nm, side, q),
            None => false,
        };
        let one = if marked.contains(s[q]) && !beside {
            match side {
                Side::Front => seq![
                    s[q],
                    resolve_spec(basis, s[q], Side::Back, basis.len() as nat),
                ],
                Side::Back => seq![
                    resolve_spec(basis, s[q], Side::Front, basis.len() as nat),
                    s[q],
                ],
            }
        } else {
            seq![s[q]]
        };
        one + outline_from(basis, s, marked, side, mname, q + 1)
    }
}

/// A whole sequence after the outlining step.
pub open spec fn outline_pass(
    basis: Seq<(Seq<u8>, Seq<Seq<u8>>)>,
    s: Seq<Seq<u8>>,
    marked: Set<Seq<u8>>,
    side: Side,
    mname: Option<Seq<u8>>,
) -> Seq<Seq<u8>> {
    outline_from(basis, s, marked, side, mname, 0)
}

/// The `(macros, stream)` state that a consistent absorption leaves: the
/// removal step deletes the adjacent leaves, the outlining step duplicates
/// the edges that marked macros will drop, the leaf joins the absorbing
/// macro's body, and each marked macro drops its now-duplicated edge.
pub open spec fn absorb_result(
    ms: Seq<(Seq<u8>, Seq<Seq<u8>>)>,
    toks: Seq<Seq<u8>>,
    index: int,
    side: Side,
) -> (Seq<(Seq<u8>, Seq<Seq<u8>>)>, Seq<Seq<u8>>) {
    let name = ms[index].0;
    let the_token = absorbed_token(ms, toks, index, side);
    let marked = marked_total(ms, toks, name, side);
    let toks1 = remove_pass(ms, toks, name, side);
    let ms1 = Seq::new(ms.len(), |j: int| (ms[j].0, remove_pass(ms, ms[j].1, name, side)));
    let toks2 = outline_pass(ms1, toks1, marked, side, Some(name));
    let ms2 = Seq::new(
        ms.len(),
        |j: int| (ms1[j].0, outline_pass(ms1, ms1[j].1, marked, side, Some(name))),
    );
    let inserted = match side {
        Side::Front => seq![the_token] + ms2[index].1,
        Side::Back => ms2[index].1.push(the_token),
    };
    let ms3 = ms2.update(index, (ms2[index].0, inserted));
    let ms4 = Seq::new(
        ms.len(),
        |j: int|
            if marked.contains(ms3[j].0) && ms3[j].1.len() > 0 {
                (
                    ms3[j].0,
                    match side {
                        Side::Front => ms3[j].1.drop_last(),
                        Side::Back => ms3[j].1.drop_first(),
                    },
                )
            } else {
                ms3[j]
            },
    );
    (ms4, toks2)
}


/// Does position `q` stand beside an occurrence of `name` on this side?
fn is_neighbor_exec(s: &Vec<Token>, name: &Token, side: Side, q: usize) -> (r: bool)
    requires
        q < s@.len(),
    ensures
        r == is_neighbor_pos(spellings(s@), name@, side, q as int),
{
    match side {
        Side::Front => {
            let n = s.len();
            q + 1 < n && s[q + 1].eq_spelling(name)
        },
        Side::Back => q >= 1 && s[q - 1].eq_spelling(name),
    }
}

/// One sequence after the removal step: drop each token standing beside an
/// occurrence of the name on the given side, unless it is itself a macro
/// name.
fn remove_seq(macros: &Vec<ParsedMacro>, s: &Vec<Token>, name: &Token, side: Side) -> (r: Vec<
    Token,
>)
    ensures
        spellings(r@) == remove_pass(macros_view(macros@), spellings(s@), name@, side),
{
    let ghost mv = macros_view(macros@);
    let ghost sv = spellings(s@);
    let n = s.len();
    let mut out: Vec<Token> = Vec::new();
    let mut q: usize = 0;
    proof {
        assert(spellings(out@) + remove_from(mv, sv, name@, side, 0) =~= remove_from(
            mv,
            sv,
            name@,
            side,
            0,
        ));
    }
    while q < n
        invariant
            q <= n,
            n == s@.len(),
            mv == macros_view(macros@),
            sv == spellings(s@),
            remove_pass(mv, sv, name@, side) == spellings(out@) + remove_from(
                mv,
                sv,
                name@,
                side,
                q as int,
            ),
        decreases n - q,
    {
        let ghost out_old = out@;
        let neighbor = is_neighbor_exec(s, name, side, q);
        let keep = if !neighbor {
            true
        } else {
            match find_macro_exec(macros, &s[q]) {
                Some(_) => true,
                None => false,
            }
        };
        proof {
            assert(sv[q as int] == s@[q as int]@);
            assert(keep == (!is_neighbor_pos(sv, name@, side, q as int) || find_macro(
                mv,
                sv[q as int],
            ) >= 0));
        }
        if keep {
            out.push(s[q].clone());
            proof {
                assert(spellings(out@) =~= spellings(out_old) + seq![sv[q as int]]);
                assert(remove_from(mv, sv, name@, side, q as int) == seq![sv[q as int]]
                    + remove_from(mv, sv, name@, side, q + 1));
                assert(spellings(out_old) + (seq![sv[q as int]] + remove_from(
                    mv,
                    sv,
                    name@,
                    side,
                    q + 1,
                )) =~= (spellings(out_old) + seq![sv[q as int]]) + remove_from(
                    mv,
                    sv,
                    name@,
                    side,
                    q + 1,
                ));
            }
        } else {
            proof {
                assert(remove_from(mv, sv, name@, side, q as int) =~= Seq::<Seq<u8>>::empty()
                    + remove_from(mv, sv, name@, side, q + 1));
            }
        }
        q += 1;
    }
    proof {
        assert(remove_from(mv, sv, name@, side, q as int) =~= Seq::<Seq<u8>>::empty());
        assert(spellings(out@) + Seq::<Seq<u8>>::empty() =~= spellings(out@));
    }
    out
}

/// The outlining step over one sequence: beside every occurrence of a
/// marked macro's name, duplicate the leaf that macro is about to drop
/// (after it, for `Front`; before it, for `Back`), skipping an occurrence
/// that stands directly beside `current_macro`'s name, which is the site
/// the absorption serves.
pub fn outline_tokens(
    tokens: &mut Vec<Token>,
    macros: &Vec<ParsedMacro>,
    macros_to_outline: &Vec<Token>,
    side: Side,
    current_macro: Option<&Token>,
)
    ensures
        spellings(final(tokens)@) == outline_pass(
            macros_view(macros@),
            spellings(old(tokens)@),
            marked_set(macros_to_outline@),
            side,
            match current_macro {
                Some(t) => Some(t@),
                None => None,
            },
        ),
{
    let ghost mv = macros_view(macros@);
    let ghost sv = spellings(tokens@);
    let ghost marked = marked_set(macros_to_outline@);
    let ghost mname = match current_macro {
        Some(t) => Some(t@),
        None => None,
    };
    let n = tokens.len();
    let mut out: Vec<Token> = Vec::new();
    let mut q: usize = 0;
    proof {
        assert(spellings(out@) + outline_from(mv, sv, marked, side, mname, 0) =~= outline_from(
            mv,
            sv,
            marked,
            side,
            mname,
            0,
        ));
    }
    while q < n
        invariant
            q <= n,
            n == tokens@.len(),
            mv == macros_view(macros@),
            sv == spellings(tokens@),
            marked == marked_set(macros_to_outline@),
            mname == match current_macro {
                Some(t) => Some(t@),
                None => None::<Seq<u8>>,
            },
            outline_pass(mv, sv, marked, side, mname) == spellings(out@) + outline_from(
                mv,
                sv,
                marked,
                side,
                mname,
                q as int,
            ),
        decreases n - q,
    {
        let ghost out_old = out@;
        let t = &tokens[q];
        proof {
            assert(sv[q as int] == tokens@[q as int]@);
        }
        let beside = match current_macro {
            Some(nm) => is_neighbor_exec(tokens, nm, side, q),
            None => false,
        };
        let ghost step = outline_from(mv, sv, marked, side, mname, q as int);
        let ghost rest = outline_from(mv, sv, marked, side, mname, q + 1);
        if marked_contains(macros_to_outline, t) && !beside {
            let resolved = resolve_token(t, side.opposite(), macros);
            let ghost one = match side {
                Side::Front => seq![sv[q as int], resolved@],
                Side::Back => seq![resolved@, sv[q as int]],
            };
            match side {
                Side::Front => {
                    let copy = t.clone();
                    out.push(copy);
                    out.push(resolved);
                },
                Side::Back => {
                    out.push(resolved);
                    let copy = tokens[q].clone();
                    out.push(copy);
                },
            }
            proof {
                assert(step == one + rest);
                assert(spellings(out@) =~= spellings(out_old) + one);
                assert(spellings(out_old) + (one + rest) =~= (spellings(out_old) + one) + rest);
            }
        } else {
            out.push(tokens[q].clone());
            proof {
                assert(step == seq![sv[q as int]] + rest);
                assert(spellings(out@) =~= spellings(out_old) + seq![sv[q as int]]);
                assert(spellings(out_old) + (seq![sv[q as int]] + rest) =~= (spellings(out_old)
                    + seq![sv[q as int]]) + rest);
            }
        }
        q += 1;
    }
    proof {
        assert(outline_from(mv, sv, marked, side, mname, q as int) =~= Seq::<Seq<u8>>::empty());
        assert(spellings(out@) + Seq::<Seq<u8>>::empty() =~= spellings(out@));
    }
    *tokens = out;
}


/// `seq_consistent_with` restricted to positions below `hi`.
pub open spec fn seq_consistent_upto(
    ms: Seq<(Seq<u8>, Seq<Seq<u8>>)>,
    s: Seq<Seq<u8>>,
    name: Seq<u8>,
    side: Side,
    t: Seq<u8>,
    fuel: nat,
    hi: int,
) -> bool {
    forall|p: int|
        0 <= p < hi && p < s.len() && #[trigger] s[p] == name ==> match side {
            Side::Front => p >= 1 && resolve_spec(ms, s[p - 1], Side::Back, fuel) == t,
            Side::Back => p + 1 < s.len() && resolve_spec(ms, s[p + 1], Side::Front, fuel) == t,
        }
}

/// Scan one sequence for occurrences of the name. `t_in` carries the leaf
/// that occurrences seen earlier resolved to, if any; the scan fails when
/// an occurrence lacks an in-bounds neighbor or resolves to another leaf.
fn check_seq_consistency(
    macros: &Vec<ParsedMacro>,
    s: &Vec<Token>,
    name: &Token,
    side: Side,
    t_in: Option<&Token>,
) -> (r: Result<Option<Token>, ()>)
    ensures
        ({
            let mv = macros_view(macros@);
            let sv = spellings(s@);
            let fuel = mv.len() as nat;
            match r {
                Err(_) => match t_in {
                    Some(ti) => !seq_consistent_with(mv, sv, name@, side, ti@, fuel),
                    None => forall|t2: Seq<u8>|
                        !seq_consistent_with(mv, sv, name@, side, t2, fuel),
                },
                Ok(t_out) => match t_out {
                    None => t_in matches None && (forall|p: int|
                        0 <= p < sv.len() ==> #[trigger] sv[p] != name@),
                    Some(t) => {
                        &&& seq_consistent_with(mv, sv, name@, side, t@, fuel)
                        &&& match t_in {
                            Some(ti) => t@ == ti@,
                            None => exists|p: int|
                                #[trigger] occ_resolves(mv, sv, name@, side, fuel, p, t@),
                        }
                    },
                },
            }
        }),
{
    let ghost mv = macros_view(macros@);
    let ghost sv = spellings(s@);
    let ghost fuel = mv.len() as nat;
    let n = s.len();
    let ghost t_in_sp = match t_in {
        Some(ti) => Some(ti@),
        None => None::<Seq<u8>>,
    };
    let mut cur: Option<Token> = match t_in {
        Some(ti) => Some(ti.clone()),
        None => None,
    };
    let ghost mut wit_p: int = 0;
    let mut p: usize = 0;
    while p < n
        invariant
            p <= n,
            n == s@.len(),
            mv == macros_view(macros@),
            sv == spellings(s@),
            fuel == mv.len() as nat,
            t_in_sp == match t_in {
                Some(ti) => Some(ti@),
                None => None::<Seq<u8>>,
            },
            t_in_sp matches Some(tsp) ==> cur matches Some(c) && c@ == tsp,
            match cur {
                None => t_in_sp matches None && (forall|q: int|
                    0 <= q < p ==> #[trigger] sv[q] != name@),
                Some(c) => {
                    &&& seq_consistent_upto(mv, sv, name@, side, c@, fuel, p as int)
                    &&& (t_in_sp matches None ==> wit_p < p && occ_resolves(
                        mv,
                        sv,
                        name@,
                        side,
                        fuel,
                        wit_p,
                        c@,
                    ))
                },
            },
        decreases n - p,
    {
        if s[p].eq_spelling(name) {
            proof {
                assert(sv[p as int] == name@);
            }
            let in_bounds = match side {
                Side::Front => p >= 1,
                Side::Back => p + 1 < n,
            };
            if !in_bounds {
                proof {
                    assert forall|t2: Seq<u8>| !seq_consistent_with(
                        mv,
                        sv,
                        name@,
                        side,
                        t2,
                        fuel,
                    ) by {
                        if seq_consistent_with(mv, sv, name@, side, t2, fuel) {
                            assert(sv[p as int] == name@);
                            assert(false);
                        }
                    }
                }
                return Err(());
            }
            let neighbor = match side {
                Side::Front => &s[p - 1],
                Side::Back => &s[p + 1],
            };
            proof {
                match side {
                    Side::Front => assert(neighbor@ == sv[p - 1]),
                    Side::Back => assert(neighbor@ == sv[p + 1]),
                }
            }
            let resolved = resolve_token(neighbor, side.opposite(), macros);
            match &cur {
                None => {
                    proof {
                        wit_p = p as int;
                        assert(occ_resolves(mv, sv, name@, side, fuel, p as int, resolved@));
                    }
                    cur = Some(resolved);
                },
                Some(c) => {
                    if !c.eq_spelling(&resolved) {
                        proof {
                            let cv = c@;
                            match t_in_sp {
                                Some(tsp) => {
                                    assert(!seq_consistent_with(mv, sv, name@, side, tsp, fuel))
                                        by {
                                        if seq_consistent_with(mv, sv, name@, side, tsp, fuel) {
                                            assert(sv[p as int] == name@);
                                            assert(false);
                                        }
                                    }
                                },
                                None => {
                                    assert forall|t2: Seq<u8>| !seq_consistent_with(
                                        mv,
                                        sv,
                                        name@,
                                        side,
                                        t2,
                                        fuel,
                                    ) by {
                                        if seq_consistent_with(mv, sv, name@, side, t2, fuel) {
                                            assert(occ_resolves(mv, sv, name@, side, fuel, wit_p,
                                                cv));
                                            assert(sv[wit_p] == name@);
                                            assert(sv[p as int] == name@);
                                            assert(t2 == cv);
                                            assert(t2 == resolved@);
                                            assert(false);
                                        }
                                    }
                                },
                            }
                        }
                        return Err(());
                    }
                },
            }
        } else {
            proof {
                assert(sv[p as int] == s@[p as int]@);
                assert(sv[p as int] != name@);
            }
        }
        p += 1;
    }
    proof {
        match &cur {
            Some(c) => {
                assert(seq_consistent_with(mv, sv, name@, side, c@, fuel)) by {
                    assert(seq_consistent_upto(mv, sv, name@, side, c@, fuel, sv.len() as int));
                }
                if (t_in_sp matches None) {
                    assert(occ_resolves(mv, sv, name@, side, fuel, wit_p, c@));
                }
            },
            None => {},
        }
    }
    Ok(cur)
}


/// Position `p` is an occurrence of the name whose adjacent token on the
/// side resolves to `t`.
pub open spec fn occ_resolves(
    ms: Seq<(Seq<u8>, Seq<Seq<u8>>)>,
    s: Seq<Seq<u8>>,
    name: Seq<u8>,
    side: Side,
    fuel: nat,
    p: int,
    t: Seq<u8>,
) -> bool {
    0 <= p < s.len() && s[p] == name && match side {
        Side::Front => p >= 1 && resolve_spec(ms, s[p - 1], Side::Back, fuel) == t,
        Side::Back => p + 1 < s.len() && resolve_spec(ms, s[p + 1], Side::Front, fuel) == t,
    }
}

/// Consistency of a sequence transfers to any equal sequence and name term.
proof fn lemma_seq_consistent_transfer(
    ms: Seq<(Seq<u8>, Seq<Seq<u8>>)>,
    s1: Seq<Seq<u8>>,
    s2: Seq<Seq<u8>>,
    name1: Seq<u8>,
    name2: Seq<u8>,
    side: Side,
    t: Seq<u8>,
    fuel: nat,
)
    requires
        s1 == s2,
        name1 == name2,
        seq_consistent_with(ms, s1, name1, side, t, fuel),
    ensures
        seq_consistent_with(ms, s2, name2, side, t, fuel),
{
    assert forall|p: int| 0 <= p < s2.len() && #[trigger] s2[p] == name2 implies (match side {
        Side::Front => p >= 1 && resolve_spec(ms, s2[p - 1], Side::Back, fuel) == t,
        Side::Back => p + 1 < s2.len() && resolve_spec(ms, s2[p + 1], Side::Front, fuel) == t,
    }) by {
        assert(s1[p] == s2[p]);
        assert(s1[p] == name1);
        if p >= 1 {
            assert(s1[p - 1] == s2[p - 1]);
        }
        if p + 1 < s1.len() {
            assert(s1[p + 1] == s2[p + 1]);
        }
    }
}

/// An occurrence witness transfers to any equal sequence and name term.
proof fn lemma_occ_transfer(
    ms: Seq<(Seq<u8>, Seq<Seq<u8>>)>,
    s1: Seq<Seq<u8>>,
    s2: Seq<Seq<u8>>,
    name1: Seq<u8>,
    name2: Seq<u8>,
    side: Side,
    fuel: nat,
    p: int,
    t: Seq<u8>,
)
    requires
        s1 == s2,
        name1 == name2,
        occ_resolves(ms, s1, name1, side, fuel, p, t),
    ensures
        occ_resolves(ms, s2, name2, side, fuel, p, t),
{
    assert(s1[p] == s2[p]);
    if p >= 1 {
        assert(s1[p - 1] == s2[p - 1]);
    }
    if p + 1 < s1.len() {
        assert(s1[p + 1] == s2[p + 1]);
    }
}

/// Decide the absorption precondition for `(macros[index], side)`; hand
/// back the common leaf exactly when it holds.
fn check_consistency(
    macros: &Vec<ParsedMacro>,
    tokens: &Vec<Token>,
    index: usize,
    side: Side,
) -> (r: Option<Token>)
    requires
        index < macros@.len(),
    ensures
        ({
            let mv = macros_view(macros@);
            let tv = spellings(tokens@);
            match r {
                Some(t) => absorb_consistent(mv, tv, index as int, side) && t@ == absorbed_token(
                    mv,
                    tv,
                    index as int,
                    side,
                ),
                None => !absorb_consistent(mv, tv, index as int, side),
            }
        }),
{
    let ghost mv = macros_view(macros@);
    let ghost tv = spellings(tokens@);
    let ghost fuel = mv.len() as nat;
    let name = macros[index].name.clone();
    proof {
        assert(mv[index as int] == (macros@[index as int].name@, spellings(
            macros@[index as int].body@,
        )));
        assert(name@ == mv[index as int].0);
    }
    let ghost nm = name@;
    let first = check_seq_consistency(macros, tokens, &name, side, None);
    let mut cur: Option<Token> = match first {
        Err(_) => {
            proof {
                assert forall|t2: Seq<u8>| !state_consistent_with(mv, tv, nm, side, t2) by {
                    assert(!seq_consistent_with(mv, tv, nm, side, t2, fuel));
                }
            }
            return None;
        },
        Ok(c) => c,
    };
    proof {
        match &cur {
            Some(c) => {
                let p = choose|p: int|
                    #[trigger] occ_resolves(mv, spellings(tokens@), name@, side, fuel, p, c@);
                assert(occ_resolves(mv, tv, nm, side, fuel, p, c@));
            },
            None => {},
        }
    }
    let mut j: usize = 0;
    while j < macros.len()
        invariant
            j <= macros@.len(),
            mv == macros_view(macros@),
            tv == spellings(tokens@),
            fuel == mv.len() as nat,
            nm == mv[index as int].0,
            nm == name@,
            index < macros@.len(),
            match cur {
                None => (forall|p: int| 0 <= p < tv.len() ==> #[trigger] tv[p] != nm) && (forall|
                    jj: int,
                    p: int,
                |
                    0 <= jj < j && 0 <= p < mv[jj].1.len() ==> #[trigger] mv[jj].1[p] != nm),
                Some(c) => {
                    &&& seq_consistent_with(mv, tv, nm, side, c@, fuel)
                    &&& (forall|jj: int|
                        0 <= jj < j ==> seq_consistent_with(
                            mv,
                            (#[trigger] mv[jj]).1,
                            nm,
                            side,
                            c@,
                            fuel,
                        ))
                    &&& ((exists|p: int| occ_resolves(mv, tv, nm, side, fuel, p, c@)) || (exists|
                        jj: int,
                        p: int,
                    |
                        0 <= jj < mv.len() && #[trigger] occ_resolves(
                            mv,
                            mv[jj].1,
                            nm,
                            side,
                            fuel,
                            p,
                            c@,
                        )))
                },
            },
        decreases macros@.len() - j,
    {
        let body_j = &macros[j].body;
        let ghost bv = spellings(body_j@);
        proof {
            assert(mv[j as int] == (macros@[j as int].name@, spellings(macros@[j as int].body@)));
            assert(bv =~= mv[j as int].1);
        }
        let t_ref: Option<&Token> = match &cur {
            Some(c) => Some(c),
            None => None,
        };
        proof {
            match &cur {
                Some(c) => {
                    assert(t_ref matches Some(tr) && tr@ == c@);
                },
                None => {
                    assert(t_ref matches None);
                },
            }
        }
        let res = check_seq_consistency(macros, body_j, &name, side, t_ref);
        match res {
            Err(_) => {
                proof {
                    assert forall|t2: Seq<u8>| !state_consistent_with(mv, tv, nm, side, t2) by {
                        match &cur {
                            Some(c) => {
                                if state_consistent_with(mv, tv, nm, side, t2) {
                                    if t2 == c@ {
                                        assert(seq_consistent_with(mv, mv[j as int].1, nm, side,
                                            t2, fuel));
                                        assert(t_ref matches Some(tr) && tr@ == t2);
                                        lemma_seq_consistent_transfer(
                                            mv,
                                            mv[j as int].1,
                                            spellings(body_j@),
                                            nm,
                                            name@,
                                            side,
                                            t2,
                                            fuel,
                                        );
                                        assert(false);
                                    } else {
                                        if exists|p: int|
                                            occ_resolves(mv, tv, nm, side, fuel, p, c@) {
                                            let p = choose|p: int|
                                                occ_resolves(mv, tv, nm, side, fuel, p, c@);
                                            assert(tv[p] == nm);
                                            assert(false);
                                        } else {
                                            let (jj, p) = choose|jj: int, p: int|
                                                0 <= jj < mv.len() && #[trigger] occ_resolves(
                                                    mv,
                                                    mv[jj].1,
                                                    nm,
                                                    side,
                                                    fuel,
                                                    p,
                                                    c@,
                                                );
                                            assert(seq_consistent_with(mv, mv[jj].1, nm, side,
                                                t2, fuel));
                                            assert(mv[jj].1[p] == nm);
                                            assert(false);
                                        }
                                    }
                                }
                            },
                            None => {
                                if state_consistent_with(mv, tv, nm, side, t2) {
                                    assert(seq_consistent_with(mv, mv[j as int].1, nm, side, t2,
                                        fuel));
                                    lemma_seq_consistent_transfer(
                                        mv,
                                        mv[j as int].1,
                                        spellings(body_j@),
                                        nm,
                                        name@,
                                        side,
                                        t2,
                                        fuel,
                                    );
                                    assert(false);
                                }
                            },
                        }
                    }
                }
                return None;
            },
            Ok(c2) => {
                proof {
                    match &c2 {
                        Some(t) => {
                            lemma_seq_consistent_transfer(
                                mv,
                                spellings(body_j@),
                                mv[j as int].1,
                                name@,
                                nm,
                                side,
                                t@,
                                fuel,
                            );
                            match &cur {
                                Some(c) => {
                                    assert(t@ == c@);
                                },
                                None => {
                                    let p = choose|p: int|
                                        #[trigger] occ_resolves(
                                            mv,
                                            spellings(body_j@),
                                            name@,
                                            side,
                                            fuel,
                                            p,
                                            t@,
                                        );
                                    lemma_occ_transfer(
                                        mv,
                                        spellings(body_j@),
                                        mv[j as int].1,
                                        name@,
                                        nm,
                                        side,
                                        fuel,
                                        p,
                                        t@,
                                    );
                                    assert(occ_resolves(mv, mv[j as int].1, nm, side, fuel, p,
                                        t@));
                                    assert(seq_consistent_with(mv, tv, nm, side, t@, fuel)) by {
                                        assert(forall|q: int|
                                            0 <= q < tv.len() ==> #[trigger] tv[q] != nm);
                                    }
                                    assert forall|jj: int| 0 <= jj < j implies
                                        seq_consistent_with(
                                        mv,
                                        (#[trigger] mv[jj]).1,
                                        nm,
                                        side,
                                        t@,
                                        fuel,
                                    ) by {
                                        assert(forall|q: int|
                                            0 <= jj < j && 0 <= q < mv[jj].1.len()
                                                ==> #[trigger] mv[jj].1[q] != nm);
                                    }
                                },
                            }
                        },
                        None => {
                            assert forall|p: int| 0 <= p < mv[j as int].1.len() implies #[trigger]
                            mv[j as int].1[p] != nm by {
                                assert(mv[j as int].1[p] == spellings(body_j@)[p]);
                            }
                        },
                    }
                }
                cur = c2;
            },
        }
        j += 1;
    }
    match cur {
        Some(c) => {
            proof {
                assert(state_consistent_with(mv, tv, nm, side, c@));
                if exists|p: int| occ_resolves(mv, tv, nm, side, fuel, p, c@) {
                    let p = choose|p: int| occ_resolves(mv, tv, nm, side, fuel, p, c@);
                    assert(tv[p] == nm);
                } else {
                    let (jj, p) = choose|jj: int, p: int|
                        0 <= jj < mv.len() && #[trigger] occ_resolves(
                            mv,
                            mv[jj].1,
                            nm,
                            side,
                            fuel,
                            p,
                            c@,
                        );
                    assert(mv[jj].1[p] == nm);
                }
                assert(absorb_consistent(mv, tv, index as int, side));
                let t2 = absorbed_token(mv, tv, index as int, side);
                assert(state_consistent_with(mv, tv, nm, side, t2));
                if exists|p: int| occ_resolves(mv, tv, nm, side, fuel, p, c@) {
                    let p = choose|p: int| occ_resolves(mv, tv, nm, side, fuel, p, c@);
                    assert(tv[p] == nm);
                    assert(t2 == c@);
                } else {
                    let (jj, p) = choose|jj: int, p: int|
                        0 <= jj < mv.len() && #[trigger] occ_resolves(
                            mv,
                            mv[jj].1,
                            nm,
                            side,
                            fuel,
                            p,
                            c@,
                        );
                    assert(seq_consistent_with(mv, mv[jj].1, nm, side, t2, fuel));
                    assert(mv[jj].1[p] == nm);
                    assert(t2 == c@);
                }
            }
            Some(c)
        },
        None => {
            proof {
                if has_occurrence(mv, tv, nm) {
                    if exists|p: int| 0 <= p < tv.len() && #[trigger] tv[p] == nm {
                        let p = choose|p: int| 0 <= p < tv.len() && #[trigger] tv[p] == nm;
                        assert(false);
                    } else {
                        let (jj, p) = choose|jj: int, p: int|
                            0 <= jj < mv.len() && 0 <= p < mv[jj].1.len() && #[trigger] mv[jj].1[p]
                                == nm;
                        assert(false);
                    }
                }
                assert(!absorb_consistent(mv, tv, index as int, side));
            }
            None
        },
    }
}


/// Record the outlining marks that one sequence induces: for each position
/// beside an occurrence of the name that holds a macro name, walk to the
/// deepest macro on the opposite side and mark it.
fn mark_seq(
    macros: &Vec<ParsedMacro>,
    s: &Vec<Token>,
    name: &Token,
    side: Side,
    marked: &mut Vec<Token>,
)
    ensures
        marked_set(final(marked)@) == marked_set(old(marked)@).union(
            marked_pass(macros_view(macros@), spellings(s@), name@, side),
        ),
{
    let ghost mv = macros_view(macros@);
    let ghost sv = spellings(s@);
    let ghost base = marked_set(marked@);
    let n = s.len();
    let mut q: usize = 0;
    proof {
        assert(marked_set(marked@).union(marked_from(mv, sv, name@, side, 0)) =~= base.union(
            marked_from(mv, sv, name@, side, 0),
        ));
    }
    while q < n
        invariant
            q <= n,
            n == s@.len(),
            mv == macros_view(macros@),
            sv == spellings(s@),
            base == marked_set(old(marked)@),
            marked_set(marked@).union(marked_from(mv, sv, name@, side, q as int)) == base.union(
                marked_from(mv, sv, name@, side, 0),
            ),
        decreases n - q,
    {
        let ghost set_old = marked_set(marked@);
        let ghost rest = marked_from(mv, sv, name@, side, q + 1);
        let ghost here = marked_from(mv, sv, name@, side, q as int);
        proof {
            assert(sv[q as int] == s@[q as int]@);
        }
        if is_neighbor_exec(s, name, side, q) {
            match find_macro_exec(macros, &s[q]) {
                Some(jm) => {
                    locate_deepest_macro(side.opposite(), macros, jm, marked);
                    proof {
                        match locate_spec(mv, jm as int, side.spec_opposite(), mv.len() as nat) {
                            Some(nm2) => {
                                assert(here == rest.insert(nm2));
                                assert(marked_set(marked@) == set_old.insert(nm2));
                                assert(marked_set(marked@).union(rest) =~= set_old.union(here));
                            },
                            None => {
                                assert(here == rest);
                            },
                        }
                    }
                },
                None => {
                    proof {
                        assert(here == rest);
                    }
                },
            }
        } else {
            proof {
                assert(here == rest);
            }
        }
        q += 1;
    }
    proof {
        assert(marked_from(mv, sv, name@, side, q as int) =~= Set::<Seq<u8>>::empty());
        assert(marked_set(marked@).union(Set::<Seq<u8>>::empty()) =~= marked_set(marked@));
        assert(base.union(marked_from(mv, sv, name@, side, 0)) == base.union(
            marked_pass(mv, sv, name@, side),
        ));
    }
}


/// Try to absorb, into `macros[index]`'s body, the token standing beside
/// every occurrence of its name on the given side. When the adjacent
/// tokens do not all resolve to one common leaf, the macro table and the
/// stream are returned unchanged; otherwise the leaf joins the body
/// (prepended for `Front`, appended for `Back`), its copies beside the
/// occurrences disappear, and outlining compensates every other use site
/// of the macros that drop an edge.
pub fn absorb_macro_from_side(
    index: usize,
    macros: &mut Vec<ParsedMacro>,
    tokens: &Vec<Token>,
    side: Side,
) -> (r: Vec<Token>)
    requires
        index < old(macros)@.len(),
    ensures
        ({
            let mv = macros_view(old(macros)@);
            let tv = spellings(tokens@);
            if absorb_consistent(mv, tv, index as int, side) {
                (macros_view(final(macros)@), spellings(r@)) == absorb_result(
                    mv,
                    tv,
                    index as int,
                    side,
                )
            } else {
                macros_view(final(macros)@) == mv && spellings(r@) == tv
            }
        }),
{
    let ghost mv = macros_view(macros@);
    let ghost tv = spellings(tokens@);
    let name = macros[index].name.clone();
    proof {
        assert(mv[index as int] == (macros@[index as int].name@, spellings(
            macros@[index as int].body@,
        )));
    }
    let ghost nm = name@;
    let the_token = match check_consistency(macros, tokens, index, side) {
        None => {
            let r = clone_tokens(tokens);
            return r;
        },
        Some(t) => t,
    };
    let ghost fuel = mv.len() as nat;
    let mut marked: Vec<Token> = Vec::new();
    mark_seq(macros, tokens, &name, side, &mut marked);
    proof {
        assert(marked_set(marked@) =~= Set::<Seq<u8>>::empty().union(
            marked_pass(mv, tv, nm, side),
        ));
        assert(marked_set(marked@).union(marked_bodies(mv, nm, side, 0)) =~= marked_pass(
            mv,
            tv,
            nm,
            side,
        ).union(marked_bodies(mv, nm, side, 0)));
    }
    let mut j: usize = 0;
    while j < macros.len()
        invariant
            j <= macros@.len(),
            mv == macros_view(macros@),
            tv == spellings(tokens@),
            nm == name@,
            marked_set(marked@).union(marked_bodies(mv, nm, side, j as int)) == marked_pass(
                mv,
                tv,
                nm,
                side,
            ).union(marked_bodies(mv, nm, side, 0)),
        decreases macros@.len() - j,
    {
        let ghost set_old = marked_set(marked@);
        let body_j = &macros[j].body;
        proof {
            assert(mv[j as int] == (macros@[j as int].name@, spellings(macros@[j as int].body@)));
            assert(spellings(body_j@) =~= mv[j as int].1);
        }
        mark_seq(macros, body_j, &name, side, &mut marked);
        proof {
            assert(marked_pass(mv, spellings(body_j@), name@, side) == marked_from(
                mv,
                mv[j as int].1,
                nm,
                side,
                0,
            ));
            assert(marked_bodies(mv, nm, side, j as int) == marked_pass(mv, mv[j as int].1, nm,
                side).union(marked_bodies(mv, nm, side, j + 1)));
            assert(marked_set(marked@).union(marked_bodies(mv, nm, side, j + 1)) =~= set_old.union(
                marked_bodies(mv, nm, side, j as int),
            ));
        }
        j += 1;
    }
    let ghost marked_v = marked_set(marked@);
    proof {
        assert(marked_bodies(mv, nm, side, macros@.len() as int) =~= Set::<Seq<u8>>::empty());
        assert(marked_v.union(Set::<Seq<u8>>::empty()) =~= marked_v);
        assert(marked_v == marked_total(mv, tv, nm, side));
    }
    let mut toks2 = remove_seq(macros, tokens, &name, side);
    let ghost toks1_v = spellings(toks2@);
    proof {
        assert(toks1_v == remove_pass(mv, tv, nm, side));
    }
    let mut table1: Vec<ParsedMacro> = Vec::new();
    let ghost ms1 = Seq::new(mv.len(), |jj: int| (mv[jj].0, remove_pass(mv, mv[jj].1, nm, side)));
    let mut j: usize = 0;
    while j < macros.len()
        invariant
            j <= macros@.len(),
            mv == macros_view(macros@),
            nm == name@,
            ms1 == Seq::new(mv.len(), |jj: int| (mv[jj].0, remove_pass(mv, mv[jj].1, nm, side))),
            table1@.len() == j,
            forall|jj: int| 0 <= jj < j ==> macro_view(#[trigger] table1@[jj]) == ms1[jj],
        decreases macros@.len() - j,
    {
        let body_j = &macros[j].body;
        proof {
            assert(mv[j as int] == (macros@[j as int].name@, spellings(macros@[j as int].body@)));
            assert(spellings(body_j@) =~= mv[j as int].1);
        }
        let nb = remove_seq(macros, body_j, &name, side);
        proof {
            assert(spellings(nb@) == remove_pass(mv, mv[j as int].1, nm, side));
        }
        table1.push(ParsedMacro { name: macros[j].name.clone(), body: nb });
        j += 1;
    }
    proof {
        assert(macros_view(table1@) =~= ms1);
    }
    outline_tokens(&mut toks2, &table1, &marked, side, Some(&name));
    let ghost toks2_v = spellings(toks2@);
    proof {
        assert(toks2_v == outline_pass(ms1, toks1_v, marked_v, side, Some(nm)));
    }
    let ghost ms2 = Seq::new(
        mv.len(),
        |jj: int| (ms1[jj].0, outline_pass(ms1, ms1[jj].1, marked_v, side, Some(nm))),
    );
    let ghost the_sp = the_token@;
    let ghost inserted = match side {
        Side::Front => seq![the_sp] + ms2[index as int].1,
        Side::Back => ms2[index as int].1.push(the_sp),
    };
    let ghost ms3 = ms2.update(index as int, (ms2[index as int].0, inserted));
    let ghost ms4 = Seq::new(
        mv.len(),
        |jj: int|
            if marked_v.contains(ms3[jj].0) && ms3[jj].1.len() > 0 {
                (
                    ms3[jj].0,
                    match side {
                        Side::Front => ms3[jj].1.drop_last(),
                        Side::Back => ms3[jj].1.drop_first(),
                    },
                )
            } else {
                ms3[jj]
            },
    );
    let mut table2: Vec<ParsedMacro> = Vec::new();
    let mut j: usize = 0;
    while j < table1.len()
        invariant
            j <= table1@.len(),
            table1@.len() == mv.len(),
            index < mv.len(),
            nm == name@,
            the_sp == the_token@,
            marked_v == marked_set(marked@),
            macros_view(table1@) == ms1,
            ms1 == Seq::new(mv.len(), |jj: int| (mv[jj].0, remove_pass(mv, mv[jj].1, nm, side))),
            ms2 == Seq::new(
                mv.len(),
                |jj: int| (ms1[jj].0, outline_pass(ms1, ms1[jj].1, marked_v, side, Some(nm))),
            ),
            inserted == (match side {
                Side::Front => seq![the_sp] + ms2[index as int].1,
                Side::Back => ms2[index as int].1.push(the_sp),
            }),
            ms3 == ms2.update(index as int, (ms2[index as int].0, inserted)),
            ms4 == Seq::new(
                mv.len(),
                |jj: int|
                    if marked_v.contains(ms3[jj].0) && ms3[jj].1.len() > 0 {
                        (
                            ms3[jj].0,
                            match side {
                                Side::Front => ms3[jj].1.drop_last(),
                                Side::Back => ms3[jj].1.drop_first(),
                            },
                        )
                    } else {
                        ms3[jj]
                    },
            ),
            table2@.len() == j,
            forall|jj: int| 0 <= jj < j ==> macro_view(#[trigger] table2@[jj]) == ms4[jj],
        decreases table1@.len() - j,
    {
        let body_j = &table1[j].body;
        proof {
            assert(macros_view(table1@)[j as int] == (table1@[j as int].name@, spellings(
                table1@[j as int].body@,
            )));
            assert(spellings(body_j@) =~= ms1[j as int].1);
        }
        let mut b = clone_tokens(body_j);
        outline_tokens(&mut b, &table1, &marked, side, Some(&name));
        proof {
            assert(spellings(b@) == outline_pass(ms1, ms1[j as int].1, marked_v, side, Some(nm)));
            assert(spellings(b@) == ms2[j as int].1);
        }
        if j == index {
            match side {
                Side::Front => {
                    let ghost b_old = b@;
                    b.insert(0, the_token.clone());
                    proof {
                        assert(spellings(b@) =~= seq![the_sp] + spellings(b_old));
                    }
                },
                Side::Back => {
                    let ghost b_old = b@;
                    b.push(the_token.clone());
                    proof {
                        assert(spellings(b@) =~= spellings(b_old).push(the_sp));
                    }
                },
            }
            proof {
                assert(spellings(b@) == ms3[j as int].1);
            }
        } else {
            proof {
                assert(ms3[j as int] == ms2[j as int]);
                assert(spellings(b@) == ms3[j as int].1);
            }
        }
        let nm_j = table1[j].name.clone();
        proof {
            assert(nm_j@ == ms1[j as int].0);
            assert(ms3[j as int].0 == ms1[j as int].0);
        }
        if marked_contains(&marked, &nm_j) && b.len() > 0 {
            let ghost b_old = b@;
            match side {
                Side::Front => {
                    b.pop();
                    proof {
                        assert(spellings(b@) =~= spellings(b_old).drop_last());
                    }
                },
                Side::Back => {
                    b.remove(0);
                    proof {
                        assert(spellings(b@) =~= spellings(b_old).drop_first());
                    }
                },
            }
            proof {
                assert(spellings(b@) == ms4[j as int].1);
            }
        } else {
            proof {
                assert(spellings(b@) == ms4[j as int].1);
            }
        }
        table2.push(ParsedMacro { name: nm_j, body: b });
        proof {
            assert(macro_view(table2@[j as int]) == ms4[j as int]);
        }
        j += 1;
    }
    proof {
        assert(macros_view(table2@) =~= ms4);
        let res = absorb_result(mv, tv, index as int, side);
        assert(the_sp == absorbed_token(mv, tv, index as int, side));
        assert(res.0 =~= ms4);
        assert(res.1 == toks2_v);
    }
    *macros = table2;
    toks2
}


/// The removal step never lengthens a sequence.
proof fn lemma_remove_from_len(
    ms: Seq<(Seq<u8>, Seq<Seq<u8>>)>,
    s: Seq<Seq<u8>>,
    name: Seq<u8>,
    side: Side,
    q: int,
)
    requires
        0 <= q <= s.len(),
    ensures
        remove_from(ms, s, name, side, q).len() <= s.len() - q,
    decreases s.len() - q,
{
    if q < s.len() {
        lemma_remove_from_len(ms, s, name, side, q + 1);
    }
}

/// The outlining step at most doubles a sequence.
proof fn lemma_outline_from_len(
    basis: Seq<(Seq<u8>, Seq<Seq<u8>>)>,
    s: Seq<Seq<u8>>,
    marked: Set<Seq<u8>>,
    side: Side,
    mname: Option<Seq<u8>>,
    q: int,
)
    requires
        0 <= q <= s.len(),
    ensures
        outline_from(basis, s, marked, side, mname, q).len() <= 2 * (s.len() - q),
    decreases s.len() - q,
{
    if q < s.len() {
        lemma_outline_from_len(basis, s, marked, side, mname, q + 1);
    }
}

/// A table whose bodies are pointwise at most one more than twice another
/// table's costs at most twice as much.
proof fn lemma_macros_cost_pointwise(
    a: Seq<(Seq<u8>, Seq<Seq<u8>>)>,
    b: Seq<(Seq<u8>, Seq<Seq<u8>>)>,
)
    requires
        a.len() == b.len(),
        forall|j: int| 0 <= j < a.len() ==> (#[trigger] a[j]).1.len() <= 2 * b[j].1.len() + 1,
    ensures
        macros_cost(a) <= 2 * macros_cost(b),
    decreases a.len(),
{
    if a.len() > 0 {
        assert(a[a.len() - 1].1.len() <= 2 * b[b.len() - 1].1.len() + 1);
        assert forall|j: int| 0 <= j < a.drop_last().len() implies (#[trigger] a.drop_last()[j]
        ).1.len() <= 2 * b.drop_last()[j].1.len() + 1 by {
            assert(a.drop_last()[j] == a[j]);
            assert(b.drop_last()[j] == b[j]);
        }
        lemma_macros_cost_pointwise(a.drop_last(), b.drop_last());
    }
}

/// The tentative state an absorption produces costs at most twice the
/// state it came from.
proof fn lemma_absorb_cost(
    ms: Seq<(Seq<u8>, Seq<Seq<u8>>)>,
    toks: Seq<Seq<u8>>,
    index: int,
    side: Side,
)
    requires
        0 <= index < ms.len(),
    ensures
        total_cost(absorb_result(ms, toks, index, side).0, absorb_result(ms, toks, index, side).1)
            <= 2 * total_cost(ms, toks),
{
    let name = ms[index].0;
    let the_token = absorbed_token(ms, toks, index, side);
    let marked = marked_total(ms, toks, name, side);
    let toks1 = remove_pass(ms, toks, name, side);
    let ms1 = Seq::new(ms.len(), |j: int| (ms[j].0, remove_pass(ms, ms[j].1, name, side)));
    let toks2 = outline_pass(ms1, toks1, marked, side, Some(name));
    let ms2 = Seq::new(
        ms.len(),
        |j: int| (ms1[j].0, outline_pass(ms1, ms1[j].1, marked, side, Some(name))),
    );
    let inserted = match side {
        Side::Front => seq![the_token] + ms2[index].1,
        Side::Back => ms2[index].1.push(the_token),
    };
    let ms3 = ms2.update(index, (ms2[index].0, inserted));
    let res = absorb_result(ms, toks, index, side);
    lemma_remove_from_len(ms, toks, name, side, 0);
    lemma_outline_from_len(ms1, toks1, marked, side, Some(name), 0);
    assert(res.1 == toks2);
    assert(toks2.len() <= 2 * toks.len());
    assert forall|j: int| 0 <= j < ms.len() implies (#[trigger] res.0[j]).1.len() <= 2
        * ms[j].1.len() + 1 by {
        lemma_remove_from_len(ms, ms[j].1, name, side, 0);
        lemma_outline_from_len(ms1, ms1[j].1, marked, side, Some(name), 0);
        assert(ms1[j].1.len() <= ms[j].1.len());
        assert(ms2[j].1.len() <= 2 * ms1[j].1.len());
        assert(ms3[j].1.len() <= ms2[j].1.len() + (if j == index {
            1int
        } else {
            0int
        }));
        assert(res.0[j].1.len() <= ms3[j].1.len());
    }
    lemma_macros_cost_pointwise(res.0, ms);
}

/// The table with every empty-bodied macro dropped.
pub open spec fn retain_nonempty(ms: Seq<(Seq<u8>, Seq<Seq<u8>>)>) -> Seq<(Seq<u8>, Seq<Seq<u8>>)>
    decreases ms.len(),
{
    if ms.len() == 0 {
        Seq::empty()
    } else if ms[0].1.len() == 0 {
        retain_nonempty(ms.drop_first())
    } else {
        seq![ms[0]] + retain_nonempty(ms.drop_first())
    }
}

/// Dropping empty-bodied macros never raises the cost.
proof fn lemma_retain_cost(ms: Seq<(Seq<u8>, Seq<Seq<u8>>)>)
    ensures
        macros_cost(retain_nonempty(ms)) <= macros_cost(ms),
        macros_cost(ms) >= 0,
    decreases ms.len(),
{
    crate::macros::lemma_macros_cost_nonneg(ms);
    if ms.len() > 0 {
        lemma_retain_cost(ms.drop_first());
        lemma_macros_cost_cons(ms);
        if ms[0].1.len() == 0 {
        } else {
            lemma_macros_cost_cons_general(ms[0], retain_nonempty(ms.drop_first()));
        }
    }
}

/// Peeling the first macro off the cost sum.
proof fn lemma_macros_cost_cons(ms: Seq<(Seq<u8>, Seq<Seq<u8>>)>)
    requires
        ms.len() > 0,
    ensures
        macros_cost(ms) == ms[0].1.len() + 3 + macros_cost(ms.drop_first()),
    decreases ms.len(),
{
    if ms.len() == 1 {
        assert(ms.drop_last() =~= Seq::<(Seq<u8>, Seq<Seq<u8>>)>::empty());
        assert(ms.drop_first() =~= Seq::<(Seq<u8>, Seq<Seq<u8>>)>::empty());
    } else {
        lemma_macros_cost_cons(ms.drop_last());
        assert(ms.drop_last().drop_first() =~= ms.drop_first().drop_last());
        assert(ms.drop_last()[0] == ms[0]);
        assert(ms.drop_first().last() == ms.last());
    }
}

/// The cost of a macro prepended to a table.
proof fn lemma_macros_cost_cons_general(
    m: (Seq<u8>, Seq<Seq<u8>>),
    ms: Seq<(Seq<u8>, Seq<Seq<u8>>)>,
)
    ensures
        macros_cost(seq![m] + ms) == m.1.len() + 3 + macros_cost(ms),
{
    let c = seq![m] + ms;
    assert(c.len() > 0);
    assert(c[0] == m);
    assert(c.drop_first() =~= ms);
    lemma_macros_cost_cons(c);
}

/// Drop every macro whose body has become empty.
fn retain_nonempty_exec(ms: &Vec<ParsedMacro>) -> (r: Vec<ParsedMacro>)
    ensures
        macros_view(r@) == retain_nonempty(macros_view(ms@)),
{
    let ghost mv = macros_view(ms@);
    let mut out: Vec<ParsedMacro> = Vec::new();
    let mut i: usize = 0;
    proof {
        assert(mv.skip(0) =~= mv);
        assert(macros_view(out@) + retain_nonempty(mv) =~= retain_nonempty(mv));
    }
    while i < ms.len()
        invariant
            i <= ms@.len(),
            mv == macros_view(ms@),
            retain_nonempty(mv) == macros_view(out@) + retain_nonempty(mv.skip(i as int)),
        decreases ms@.len() - i,
    {
        let ghost out_old = out@;
        let ghost rem = mv.skip(i as int);
        proof {
            assert(rem[0] == mv[i as int]);
            assert(rem.drop_first() =~= mv.skip(i + 1));
            assert(mv[i as int] == (ms@[i as int].name@, spellings(ms@[i as int].body@)));
        }
        if ms[i].body.len() > 0 {
            let m = &ms[i];
            out.push(ParsedMacro { name: m.name.clone(), body: clone_tokens(&m.body) });
            proof {
                assert(retain_nonempty(rem) == seq![mv[i as int]] + retain_nonempty(
                    mv.skip(i + 1),
                ));
                assert(macro_view(out@[out_old.len() as int]) == mv[i as int]);
                assert(macros_view(out@) =~= macros_view(out_old) + seq![mv[i as int]]);
                assert(macros_view(out_old) + (seq![mv[i as int]] + retain_nonempty(
                    mv.skip(i + 1),
                )) =~= (macros_view(out_old) + seq![mv[i as int]]) + retain_nonempty(
                    mv.skip(i + 1),
                ));
            }
        } else {
            proof {
                assert(retain_nonempty(rem) == retain_nonempty(mv.skip(i + 1)));
            }
        }
        i += 1;
    }
    proof {
        assert(mv.skip(i as int) =~= Seq::<(Seq<u8>, Seq<Seq<u8>>)>::empty());
        assert(macros_view(out@) + Seq::<(Seq<u8>, Seq<Seq<u8>>)>::empty() =~= macros_view(out@));
    }
    out
}

/// The state one tentative absorption attempt proposes: the absorption
/// outcome when the precondition holds (the state itself otherwise), with
/// empty-bodied macros dropped.
pub open spec fn absorb_step(
    ms: Seq<(Seq<u8>, Seq<Seq<u8>>)>,
    toks: Seq<Seq<u8>>,
    index: int,
    side: Side,
) -> (Seq<(Seq<u8>, Seq<Seq<u8>>)>, Seq<Seq<u8>>) {
    let raw = if absorb_consistent(ms, toks, index, side) {
        absorb_result(ms, toks, index, side)
    } else {
        (ms, toks)
    };
    (retain_nonempty(raw.0), raw.1)
}

/// Does the attempt strictly lower the total token cost (the commit rule)?
pub open spec fn absorb_improves(
    ms: Seq<(Seq<u8>, Seq<Seq<u8>>)>,
    toks: Seq<Seq<u8>>,
    index: int,
    side: Side,
) -> bool {
    total_cost(absorb_step(ms, toks, index, side).0, absorb_step(ms, toks, index, side).1)
        < total_cost(ms, toks)
}



/// Apply a trace of absorption attempts, in order.
pub open spec fn apply_trace(
    ms: Seq<(Seq<u8>, Seq<Seq<u8>>)>,
    toks: Seq<Seq<u8>>,
    tr: Seq<(int, Side)>,
) -> (Seq<(Seq<u8>, Seq<Seq<u8>>)>, Seq<Seq<u8>>)
    decreases tr.len(),
{
    if tr.len() == 0 {
        (ms, toks)
    } else {
        let next = absorb_step(ms, toks, tr[0].0, tr[0].1);
        apply_trace(next.0, next.1, tr.drop_first())
    }
}

/// Every attempt of the trace names a live macro and strictly lowers the
/// total token cost of the state it meets.
pub open spec fn trace_improves(
    ms: Seq<(Seq<u8>, Seq<Seq<u8>>)>,
    toks: Seq<Seq<u8>>,
    tr: Seq<(int, Side)>,
) -> bool
    decreases tr.len(),
{
    if tr.len() == 0 {
        true
    } else {
        let next = absorb_step(ms, toks, tr[0].0, tr[0].1);
        &&& 0 <= tr[0].0 < ms.len()
        &&& absorb_improves(ms, toks, tr[0].0, tr[0].1)
        &&& trace_improves(next.0, next.1, tr.drop_first())
    }
}

/// Appending one attempt to a trace applies it after the trace.
proof fn lemma_apply_trace_snoc(
    ms: Seq<(Seq<u8>, Seq<Seq<u8>>)>,
    toks: Seq<Seq<u8>>,
    tr: Seq<(int, Side)>,
    x: (int, Side),
)
    ensures
        ({
            let mid = apply_trace(ms, toks, tr);
            apply_trace(ms, toks, tr.push(x)) == absorb_step(mid.0, mid.1, x.0, x.1)
        }),
        trace_improves(ms, toks, tr.push(x)) == (trace_improves(ms, toks, tr) && {
            let mid = apply_trace(ms, toks, tr);
            0 <= x.0 < mid.0.len() && absorb_improves(mid.0, mid.1, x.0, x.1)
        }),
    decreases tr.len(),
{
    if tr.len() == 0 {
        assert(tr.push(x)[0] == x);
        assert(tr.push(x).drop_first() =~= Seq::<(int, Side)>::empty());
        assert(apply_trace(ms, toks, tr) == (ms, toks));
        assert(trace_improves(ms, toks, tr));
        let nx = absorb_step(ms, toks, x.0, x.1);
        assert(apply_trace(ms, toks, tr.push(x)) == apply_trace(
            nx.0,
            nx.1,
            tr.push(x).drop_first(),
        ));
        assert(apply_trace(nx.0, nx.1, Seq::<(int, Side)>::empty()) == (nx.0, nx.1));
        assert(trace_improves(nx.0, nx.1, Seq::<(int, Side)>::empty()));
    } else {
        assert(tr.push(x)[0] == tr[0]);
        let next = absorb_step(ms, toks, tr[0].0, tr[0].1);
        lemma_apply_trace_snoc(next.0, next.1, tr.drop_first(), x);
        assert(tr.push(x).drop_first() =~= tr.drop_first().push(x));
        assert(apply_trace(ms, toks, tr) == apply_trace(next.0, next.1, tr.drop_first()));
        assert(apply_trace(ms, toks, tr.push(x)) == apply_trace(
            next.0,
            next.1,
            tr.drop_first().push(x),
        ));
        assert(trace_improves(ms, toks, tr) == (0 <= tr[0].0 < ms.len() && absorb_improves(
            ms,
            toks,
            tr[0].0,
            tr[0].1,
        ) && trace_improves(next.0, next.1, tr.drop_first())));
        assert(trace_improves(ms, toks, tr.push(x)) == (0 <= tr[0].0 < ms.len()
            && absorb_improves(ms, toks, tr[0].0, tr[0].1) && trace_improves(
            next.0,
            next.1,
            tr.drop_first().push(x),
        )));
    }
}

/// Run absorption to a fixed point: repeatedly try every macro on both
/// sides, committing an attempt only when it strictly lowers the total
/// token cost, and dropping any macro whose body becomes empty. The
/// returned state is reached from the input by a trace of committed
/// improving attempts, so the cost never rises, and it admits no further
/// improving attempt.
pub fn absorb_macros(macros: &mut Vec<ParsedMacro>, tokens: Vec<Token>) -> (r: Vec<Token>)
    requires
        total_cost(macros_view(old(macros)@), spellings(tokens@)) <= 0x4000_0000,
    ensures
        total_cost(macros_view(final(macros)@), spellings(r@)) <= total_cost(
            macros_view(old(macros)@),
            spellings(tokens@),
        ),
        forall|i: int, side: Side|
            0 <= i < final(macros)@.len() ==> !absorb_improves(
                macros_view(final(macros)@),
                spellings(r@),
                i,
                side,
            ),
        exists|tr: Seq<(int, Side)>|
            #[trigger] trace_improves(macros_view(old(macros)@), spellings(tokens@), tr)
                && apply_trace(macros_view(old(macros)@), spellings(tokens@), tr) == (
            macros_view(final(macros)@),
            spellings(r@),
            ),
{
    let mut toks = tokens;
    let ghost mv0 = macros_view(macros@);
    let ghost tv0 = spellings(toks@);
    let ghost cost0 = total_cost(macros_view(macros@), spellings(toks@));
    let ghost mut tr: Seq<(int, Side)> = Seq::empty();
    proof {
        crate::macros::lemma_macros_cost_nonneg(macros_view(macros@));
    }
    loop
        invariant
            0 <= total_cost(macros_view(macros@), spellings(toks@)),
            total_cost(macros_view(macros@), spellings(toks@)) <= cost0,
            cost0 == total_cost(macros_view(old(macros)@), spellings(tokens@)),
            cost0 <= 0x4000_0000,
            mv0 == macros_view(old(macros)@),
            tv0 == spellings(tokens@),
            trace_improves(mv0, tv0, tr),
            apply_trace(mv0, tv0, tr) == (macros_view(macros@), spellings(toks@)),
        decreases total_cost(macros_view(macros@), spellings(toks@)),
    {
        let ghost mvc = macros_view(macros@);
        let ghost tvc = spellings(toks@);
        let mut committed = false;
        let mut k: usize = 0;
        while k < 2 && !committed
            invariant
                k <= 2,
                cost0 <= 0x4000_0000,
                0 <= total_cost(macros_view(macros@), spellings(toks@)),
                total_cost(macros_view(macros@), spellings(toks@)) <= cost0,
                mv0 == macros_view(old(macros)@),
                tv0 == spellings(tokens@),
                trace_improves(mv0, tv0, tr),
                apply_trace(mv0, tv0, tr) == (macros_view(macros@), spellings(toks@)),
                !committed ==> macros_view(macros@) == mvc && spellings(toks@) == tvc,
                !committed && k >= 1 ==> forall|ii: int|
                    0 <= ii < mvc.len() ==> !absorb_improves(mvc, tvc, ii, Side::Front),
                !committed && k >= 2 ==> forall|ii: int|
                    0 <= ii < mvc.len() ==> !absorb_improves(mvc, tvc, ii, Side::Back),
                committed ==> total_cost(macros_view(macros@), spellings(toks@)) < total_cost(
                    mvc,
                    tvc,
                ),
            decreases 2 - k,
        {
            let side = if k == 0 {
                Side::Front
            } else {
                Side::Back
            };
            let mut i: usize = 0;
            while i < macros.len() && !committed
                invariant
                    !committed ==> i <= macros@.len(),
                    cost0 <= 0x4000_0000,
                    side == (if k == 0 {
                        Side::Front
                    } else {
                        Side::Back
                    }),
                    0 <= total_cost(macros_view(macros@), spellings(toks@)),
                    total_cost(macros_view(macros@), spellings(toks@)) <= cost0,
                    mv0 == macros_view(old(macros)@),
                    tv0 == spellings(tokens@),
                    trace_improves(mv0, tv0, tr),
                    apply_trace(mv0, tv0, tr) == (macros_view(macros@), spellings(toks@)),
                    !committed ==> macros_view(macros@) == mvc && spellings(toks@) == tvc,
                    !committed ==> forall|ii: int|
                        0 <= ii < i ==> !absorb_improves(mvc, tvc, ii, side),
                    committed ==> total_cost(macros_view(macros@), spellings(toks@)) < total_cost(
                        mvc,
                        tvc,
                    ),
                decreases (if committed {
                    0int
                } else {
                    macros@.len() - i
                }),
            {
                let mut mclone = clone_macros(macros);
                proof {
                    assert(macros_view(mclone@) == mvc);
                }
                let ttoks = absorb_macro_from_side(i, &mut mclone, &toks, side);
                let retained = retain_nonempty_exec(&mclone);
                proof {
                    crate::macros::lemma_macros_cost_nonneg(macros_view(retained@));
                    lemma_retain_cost(macros_view(mclone@));
                    if absorb_consistent(mvc, tvc, i as int, side) {
                        lemma_absorb_cost(mvc, tvc, i as int, side);
                    }
                    assert(total_cost(macros_view(retained@), spellings(ttoks@)) <= 2 * total_cost(
                        mvc,
                        tvc,
                    ));
                    assert((macros_view(retained@), spellings(ttoks@)) == absorb_step(
                        mvc,
                        tvc,
                        i as int,
                        side,
                    ));
                }
                let new_cost = count_tokens(&retained, &ttoks);
                let old_cost = count_tokens(macros, &toks);
                if new_cost < old_cost {
                    proof {
                        lemma_apply_trace_snoc(mv0, tv0, tr, (i as int, side));
                        tr = tr.push((i as int, side));
                        assert(absorb_improves(mvc, tvc, i as int, side));
                    }
                    *macros = retained;
                    toks = ttoks;
                    committed = true;
                } else {
                    proof {
                        assert(!absorb_improves(mvc, tvc, i as int, side));
                    }
                }
                i += 1;
            }
            k += 1;
        }
        if !committed {
            proof {
                assert forall|i: int, sd: Side| 0 <= i < macros@.len() implies !absorb_improves(
                    macros_view(macros@),
                    spellings(toks@),
                    i,
                    sd,
                ) by {
                    match sd {
                        Side::Front => {
                            assert(!absorb_improves(mvc, tvc, i, Side::Front));
                        },
                        Side::Back => {
                            assert(!absorb_improves(mvc, tvc, i, Side::Back));
                        },
                    }
                }
            }
            return toks;
        }
    }
}


/// A position in the state: inside one macro's body, or in the top-level
/// stream.
#[derive(Copy, Clone, Debug, Hash, PartialEq, Eq, Structural)]
pub enum IndexType {
    Macro { macro_index: usize, index: usize },
    Tokens(usize),
}

impl IndexType {
    /// The token this position denotes.
    pub fn resolve(self, macros: &Vec<ParsedMacro>, tokens: &Vec<Token>) -> (r: Token)
        requires
            match self {
                IndexType::Macro { macro_index, index } => macro_index < macros@.len() && index
                    < macros@[macro_index as int].body@.len(),
                IndexType::Tokens(i) => i < tokens@.len(),
            },
        ensures
            r@ == match self {
                IndexType::Macro { macro_index, index } => macros_view(
                    macros@,
                )[macro_index as int].1[index as int],
                IndexType::Tokens(i) => spellings(tokens@)[i as int],
            },
    {
        match self {
            IndexType::Macro { macro_index, index } => {
                proof {
                    assert(macros_view(macros@)[macro_index as int] == (
                        macros@[macro_index as int].name@,
                        spellings(macros@[macro_index as int].body@),
                    ));
                }
                macros[macro_index].body[index].clone()
            },
            IndexType::Tokens(i) => tokens[i].clone(),
        }
    }
}

} // verus!
