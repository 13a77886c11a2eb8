use vstd::prelude::*;
use crate::axis::{edit_spec, slot_spec, MAX_AXIS_LIMBS};
use crate::error::NockError;
use crate::noun::{lemma_value_injective, limbs_value, normalized, u64_limbs, Noun, Tree};

verus! {

/// The tag of the native-acceleration hint: the bytes `sham`, read as a
/// little-endian number.
pub const SHAM_TAG: u64 = 0x6d61_6873;

pub open spec fn atom_tree(n: u64) -> Tree {
    Tree::Atom(u64_limbs(n))
}

pub open spec fn cons(x: Tree, y: Tree) -> Tree {
    Tree::Cell(Box::new(x), Box::new(y))
}

/// The head of a cell.
pub open spec fn hd(t: Tree) -> Tree {
    match t {
        Tree::Cell(h, _) => *h,
        Tree::Atom(_) => t,
    }
}

/// The tail of a cell.
pub open spec fn tl(t: Tree) -> Tree {
    match t {
        Tree::Cell(_, x) => *x,
        Tree::Atom(_) => t,
    }
}

/// The formula is a cell whose head is the atom `k`.
pub open spec fn op_is(f: Tree, k: nat) -> bool {
    f is Cell && hd(f) is Atom && limbs_value(hd(f)->Atom_0) == k
}

/// The jet name in a hint `[%sham [f name]]`, if the hint has that shape.
pub open spec fn sham_name(hint: Tree) -> Option<Tree> {
    if hint is Cell && hd(hint) is Atom && limbs_value(hd(hint)->Atom_0) == SHAM_TAG && tl(
        hint,
    ) is Cell {
        Some(tl(tl(hint)))
    } else {
        None
    }
}

/// The jets may answer `v` for the jet `name` on subject `s`.
pub open spec fn jet_gives<J: Fn(&Noun, &Noun) -> Option<Noun>>(
    jets: J,
    name: Tree,
    s: Tree,
    v: Tree,
) -> bool {
    exists|a: Noun, b: Noun, x: Noun|
        a@ == name && b@ == s && x@ == v && #[trigger] call_ensures(jets, (&a, &b), Some(x))
}

/// The jets may decline the jet `name` on subject `s`.
pub open spec fn jet_declines<J: Fn(&Noun, &Noun) -> Option<Noun>>(
    jets: J,
    name: Tree,
    s: Tree,
) -> bool {
    exists|a: Noun, b: Noun|
        a@ == name && b@ == s && #[trigger] call_ensures(jets, (&a, &b), None::<Noun>)
}

/// A hint may be evaluated as an ordinary formula: it names no jet, or the
/// jets decline it.
pub open spec fn hint_falls_back<J: Fn(&Noun, &Noun) -> Option<Noun>>(
    jets: J,
    hint: Tree,
    s: Tree,
) -> bool {
    sham_name(hint) is None || jet_declines(jets, sham_name(hint)->Some_0, s)
}

/// A derivation of the meaning of a formula: a conclusion `(s, f, v)`, read
/// "formula `f` on subject `s` gives `v`", above up to three premises.
pub enum Deriv {
    Leaf,
    Node(Tree, Tree, Tree, Box<Deriv>, Box<Deriv>, Box<Deriv>),
}

/// What a derivation concludes.
pub open spec fn concl(d: Deriv) -> Option<(Tree, Tree, Tree)> {
    match d {
        Deriv::Leaf => None,
        Deriv::Node(s, f, v, _, _, _) => Some((s, f, v)),
    }
}

/// The premise concludes something of formula `f` on subject `s`.
pub open spec fn premise(p: Option<(Tree, Tree, Tree)>, s: Tree, f: Tree) -> bool {
    p is Some && p->Some_0.0 == s && p->Some_0.1 == f
}

/// What the premise says the formula gives.
pub open spec fn out(p: Option<(Tree, Tree, Tree)>) -> Tree {
    p->Some_0.2
}

/// One rule of Nock: from premises `pa`, `pb`, `pc`, formula `f` on subject
/// `s` gives `v`. A cell whose head is a cell builds a cell of two results;
/// otherwise the head atom is the opcode and the tail its argument.
pub open spec fn step_ok<J: Fn(&Noun, &Noun) -> Option<Noun>>(
    jets: J,
    s: Tree,
    f: Tree,
    v: Tree,
    pa: Option<(Tree, Tree, Tree)>,
    pb: Option<(Tree, Tree, Tree)>,
    pc: Option<(Tree, Tree, Tree)>,
) -> bool {
    if !(f is Cell) {
        false
    } else if hd(f) is Cell {
        premise(pa, s, hd(f)) && premise(pb, s, tl(f)) && v == cons(out(pa), out(pb))
    } else {
        let k = limbs_value(hd(f)->Atom_0);
        let a = tl(f);
        let (b, c) = (hd(a), tl(a));
        if k == 0 {
            a is Atom && slot_spec(s, a->Atom_0) == Ok::<Tree, NockError>(v)
        } else if k == 1 {
            v == a
        } else if k == 3 {
            premise(pa, s, a) && v == atom_tree(
                if out(pa) is Cell {
                    0
                } else {
                    1
                },
            )
        } else if k == 4 {
            premise(pa, s, a) && out(pa) is Atom && v is Atom && normalized(v->Atom_0)
                && limbs_value(v->Atom_0) == limbs_value(out(pa)->Atom_0) + 1
        } else if !(a is Cell) {
            false
        } else if k == 2 {
            premise(pa, s, b) && premise(pb, s, c) && premise(pc, out(pa), out(pb)) && v == out(
                pc,
            )
        } else if k == 5 {
            premise(pa, s, b) && premise(pb, s, c) && v == atom_tree(
                if out(pa) == out(pb) {
                    0
                } else {
                    1
                },
            )
        } else if k == 6 {
            c is Cell && premise(pa, s, b) && out(pa) is Atom && ((limbs_value(out(pa)->Atom_0) == 0
                && premise(pb, s, hd(c))) || (limbs_value(out(pa)->Atom_0) == 1 && premise(
                pb,
                s,
                tl(c),
            ))) && v == out(pb)
        } else if k == 7 {
            premise(pa, s, b) && premise(pb, out(pa), c) && v == out(pb)
        } else if k == 8 {
            premise(pa, s, b) && premise(pb, cons(out(pa), s), c) && v == out(pb)
        } else if k == 9 {
            b is Atom && premise(pa, s, c) && slot_spec(out(pa), b->Atom_0) is Ok && premise(
                pb,
                out(pa),
                slot_spec(out(pa), b->Atom_0)->Ok_0,
            ) && v == out(pb)
        } else if k == 10 {
            b is Cell && hd(b) is Atom && premise(pa, s, c) && premise(pb, s, tl(b)) && edit_spec(
                out(pa),
                hd(b)->Atom_0,
                out(pb),
            ) == Ok::<Tree, NockError>(v)
        } else if k == 11 {
            if b is Atom {
                premise(pa, s, c) && v == out(pa)
            } else {
                (sham_name(b) is Some && jet_gives(jets, sham_name(b)->Some_0, s, v)) || (
                hint_falls_back(jets, b, s) && premise(pa, s, tl(b)) && premise(pb, s, c) && v
                    == out(pb))
            }
        } else {
            false
        }
    }
}

/// Every node of the derivation follows from its premises by a rule.
pub open spec fn valid<J: Fn(&Noun, &Noun) -> Option<Noun>>(jets: J, d: Deriv) -> bool
    decreases d,
{
    match d {
        Deriv::Leaf => true,
        Deriv::Node(s, f, v, a, b, c) => step_ok(jets, s, f, v, concl(*a), concl(*b), concl(*c))
            && valid(jets, *a) && valid(jets, *b) && valid(jets, *c),
    }
}

/// Formula `f` on subject `s` gives `v`: the meaning of Nock, with hints
/// answered by `jets`.
pub open spec fn evaluates<J: Fn(&Noun, &Noun) -> Option<Noun>>(
    jets: J,
    s: Tree,
    f: Tree,
    v: Tree,
) -> bool {
    exists|d: Deriv| #[trigger] valid(jets, d) && concl(d) == Some((s, f, v))
}

/// A derivation of a fact that holds.
proof fn deriv_of<J: Fn(&Noun, &Noun) -> Option<Noun>>(jets: J, s: Tree, f: Tree, v: Tree) -> (d: Deriv)
    requires
        evaluates(jets, s, f, v),
    ensures
        valid(jets, d),
        concl(d) == Some((s, f, v)),
{
    choose|d: Deriv| #[trigger] valid(jets, d) && concl(d) == Some((s, f, v))
}

/// A cell of two formulas gives the cell of their results.
pub proof fn rule_cell<J: Fn(&Noun, &Noun) -> Option<Noun>>(jets: J, s: Tree, f: Tree, x: Tree, y: Tree)
    requires
        f is Cell,
        hd(f) is Cell,
        evaluates(jets, s, hd(f), x),
        evaluates(jets, s, tl(f), y),
    ensures
        evaluates(jets, s, f, cons(x, y)),
{
    let d0 = deriv_of(jets, s, hd(f), x);
    let d1 = deriv_of(jets, s, tl(f), y);
    let d = Deriv::Node(s, f, cons(x, y), Box::new(d0), Box::new(d1), Box::new(Deriv::Leaf));
    reveal_with_fuel(valid, 2);
    assert(valid(jets, d));
}

/// Opcode 0 addresses the subject.
pub proof fn rule_axis<J: Fn(&Noun, &Noun) -> Option<Noun>>(jets: J, s: Tree, f: Tree, v: Tree)
    requires
        op_is(f, 0),
        tl(f) is Atom,
        slot_spec(s, tl(f)->Atom_0) == Ok::<Tree, NockError>(v),
    ensures
        evaluates(jets, s, f, v),
{
    let d = Deriv::Node(s, f, v, Box::new(Deriv::Leaf), Box::new(Deriv::Leaf), Box::new(Deriv::Leaf));
    reveal_with_fuel(valid, 2);
    assert(valid(jets, d));
}

/// Opcode 1 gives its argument.
pub proof fn rule_constant<J: Fn(&Noun, &Noun) -> Option<Noun>>(jets: J, s: Tree, f: Tree)
    requires
        op_is(f, 1),
    ensures
        evaluates(jets, s, f, tl(f)),
{
    let d = Deriv::Node(s, f, tl(f), Box::new(Deriv::Leaf), Box::new(Deriv::Leaf), Box::new(Deriv::Leaf));
    reveal_with_fuel(valid, 2);
    assert(valid(jets, d));
}

/// Opcode 2 evaluates a computed formula on a computed subject.
pub proof fn rule_eval<J: Fn(&Noun, &Noun) -> Option<Noun>>(jets: J, s: Tree, f: Tree, x: Tree, g: Tree, v: Tree)
    requires
        op_is(f, 2),
        tl(f) is Cell,
        evaluates(jets, s, hd(tl(f)), x),
        evaluates(jets, s, tl(tl(f)), g),
        evaluates(jets, x, g, v),
    ensures
        evaluates(jets, s, f, v),
{
    let d0 = deriv_of(jets, s, hd(tl(f)), x);
    let d1 = deriv_of(jets, s, tl(tl(f)), g);
    let d2 = deriv_of(jets, x, g, v);
    let d = Deriv::Node(s, f, v, Box::new(d0), Box::new(d1), Box::new(d2));
    reveal_with_fuel(valid, 2);
    assert(valid(jets, d));
}

/// Opcode 3 tells a cell (0) from an atom (1).
pub proof fn rule_is_cell<J: Fn(&Noun, &Noun) -> Option<Noun>>(jets: J, s: Tree, f: Tree, x: Tree)
    requires
        op_is(f, 3),
        evaluates(jets, s, tl(f), x),
    ensures
        evaluates(jets, s, f, atom_tree(if x is Cell { 0 } else { 1 })),
{
    let d0 = deriv_of(jets, s, tl(f), x);
    let d = Deriv::Node(s, f, atom_tree(if x is Cell { 0 } else { 1 }), Box::new(d0), Box::new(Deriv::Leaf), Box::new(Deriv::Leaf));
    reveal_with_fuel(valid, 2);
    assert(valid(jets, d));
}

/// Opcode 4 gives the successor of an atom.
pub proof fn rule_increment<J: Fn(&Noun, &Noun) -> Option<Noun>>(jets: J, s: Tree, f: Tree, x: Seq<u64>, v: Tree)
    requires
        op_is(f, 4),
        evaluates(jets, s, tl(f), Tree::Atom(x)),
        v is Atom,
        normalized(v->Atom_0),
        limbs_value(v->Atom_0) == limbs_value(x) + 1,
    ensures
        evaluates(jets, s, f, v),
{
    let d0 = deriv_of(jets, s, tl(f), Tree::Atom(x));
    let d = Deriv::Node(s, f, v, Box::new(d0), Box::new(Deriv::Leaf), Box::new(Deriv::Leaf));
    reveal_with_fuel(valid, 2);
    assert(valid(jets, d));
}

/// Opcode 5 compares two results: 0 if equal, 1 if not.
pub proof fn rule_equals<J: Fn(&Noun, &Noun) -> Option<Noun>>(jets: J, s: Tree, f: Tree, x: Tree, y: Tree)
    requires
        op_is(f, 5),
        tl(f) is Cell,
        evaluates(jets, s, hd(tl(f)), x),
        evaluates(jets, s, tl(tl(f)), y),
    ensures
        evaluates(jets, s, f, atom_tree(if x == y { 0 } else { 1 })),
{
    let d0 = deriv_of(jets, s, hd(tl(f)), x);
    let d1 = deriv_of(jets, s, tl(tl(f)), y);
    let d = Deriv::Node(s, f, atom_tree(if x == y { 0 } else { 1 }), Box::new(d0), Box::new(d1), Box::new(Deriv::Leaf));
    reveal_with_fuel(valid, 2);
    assert(valid(jets, d));
}

/// Opcode 6 takes its first branch on a test of 0.
pub proof fn rule_if_yes<J: Fn(&Noun, &Noun) -> Option<Noun>>(jets: J, s: Tree, f: Tree, x: Seq<u64>, v: Tree)
    requires
        op_is(f, 6),
        tl(f) is Cell,
        tl(tl(f)) is Cell,
        evaluates(jets, s, hd(tl(f)), Tree::Atom(x)),
        limbs_value(x) == 0,
        evaluates(jets, s, hd(tl(tl(f))), v),
    ensures
        evaluates(jets, s, f, v),
{
    let d0 = deriv_of(jets, s, hd(tl(f)), Tree::Atom(x));
    let d1 = deriv_of(jets, s, hd(tl(tl(f))), v);
    let d = Deriv::Node(s, f, v, Box::new(d0), Box::new(d1), Box::new(Deriv::Leaf));
    reveal_with_fuel(valid, 2);
    assert(valid(jets, d));
}

/// Opcode 6 takes its second branch on a test of 1.
pub proof fn rule_if_no<J: Fn(&Noun, &Noun) -> Option<Noun>>(jets: J, s: Tree, f: Tree, x: Seq<u64>, v: Tree)
    requires
        op_is(f, 6),
        tl(f) is Cell,
        tl(tl(f)) is Cell,
        evaluates(jets, s, hd(tl(f)), Tree::Atom(x)),
        limbs_value(x) == 1,
        evaluates(jets, s, tl(tl(tl(f))), v),
    ensures
        evaluates(jets, s, f, v),
{
    let d0 = deriv_of(jets, s, hd(tl(f)), Tree::Atom(x));
    let d1 = deriv_of(jets, s, tl(tl(tl(f))), v);
    let d = Deriv::Node(s, f, v, Box::new(d0), Box::new(d1), Box::new(Deriv::Leaf));
    reveal_with_fuel(valid, 2);
    assert(valid(jets, d));
}

/// Opcode 7 evaluates its second formula on the result of the first.
pub proof fn rule_compose<J: Fn(&Noun, &Noun) -> Option<Noun>>(jets: J, s: Tree, f: Tree, x: Tree, v: Tree)
    requires
        op_is(f, 7),
        tl(f) is Cell,
        evaluates(jets, s, hd(tl(f)), x),
        evaluates(jets, x, tl(tl(f)), v),
    ensures
        evaluates(jets, s, f, v),
{
    let d0 = deriv_of(jets, s, hd(tl(f)), x);
    let d1 = deriv_of(jets, x, tl(tl(f)), v);
    let d = Deriv::Node(s, f, v, Box::new(d0), Box::new(d1), Box::new(Deriv::Leaf));
    reveal_with_fuel(valid, 2);
    assert(valid(jets, d));
}

/// Opcode 8 evaluates its second formula on the first result consed onto the subject.
pub proof fn rule_push<J: Fn(&Noun, &Noun) -> Option<Noun>>(jets: J, s: Tree, f: Tree, x: Tree, v: Tree)
    requires
        op_is(f, 8),
        tl(f) is Cell,
        evaluates(jets, s, hd(tl(f)), x),
        evaluates(jets, cons(x, s), tl(tl(f)), v),
    ensures
        evaluates(jets, s, f, v),
{
    let d0 = deriv_of(jets, s, hd(tl(f)), x);
    let d1 = deriv_of(jets, cons(x, s), tl(tl(f)), v);
    let d = Deriv::Node(s, f, v, Box::new(d0), Box::new(d1), Box::new(Deriv::Leaf));
    reveal_with_fuel(valid, 2);
    assert(valid(jets, d));
}

/// Opcode 9 evaluates the arm at an axis of a core on the core.
pub proof fn rule_invoke<J: Fn(&Noun, &Noun) -> Option<Noun>>(jets: J, s: Tree, f: Tree, core: Tree, arm: Tree, v: Tree)
    requires
        op_is(f, 9),
        tl(f) is Cell,
        hd(tl(f)) is Atom,
        evaluates(jets, s, tl(tl(f)), core),
        slot_spec(core, hd(tl(f))->Atom_0) == Ok::<Tree, NockError>(arm),
        evaluates(jets, core, arm, v),
    ensures
        evaluates(jets, s, f, v),
{
    let d0 = deriv_of(jets, s, tl(tl(f)), core);
    let d1 = deriv_of(jets, core, arm, v);
    let d = Deriv::Node(s, f, v, Box::new(d0), Box::new(d1), Box::new(Deriv::Leaf));
    reveal_with_fuel(valid, 2);
    assert(valid(jets, d));
}

/// Opcode 10 replaces the subtree at an axis of a result.
pub proof fn rule_edit<J: Fn(&Noun, &Noun) -> Option<Noun>>(jets: J, s: Tree, f: Tree, tree: Tree, patch: Tree, v: Tree)
    requires
        op_is(f, 10),
        tl(f) is Cell,
        hd(tl(f)) is Cell,
        hd(hd(tl(f))) is Atom,
        evaluates(jets, s, tl(tl(f)), tree),
        evaluates(jets, s, tl(hd(tl(f))), patch),
        edit_spec(tree, hd(hd(tl(f)))->Atom_0, patch) == Ok::<Tree, NockError>(v),
    ensures
        evaluates(jets, s, f, v),
{
    let d0 = deriv_of(jets, s, tl(tl(f)), tree);
    let d1 = deriv_of(jets, s, tl(hd(tl(f))), patch);
    let d = Deriv::Node(s, f, v, Box::new(d0), Box::new(d1), Box::new(Deriv::Leaf));
    reveal_with_fuel(valid, 2);
    assert(valid(jets, d));
}

/// Opcode 11 with an atom hint gives its body.
pub proof fn rule_static_hint<J: Fn(&Noun, &Noun) -> Option<Noun>>(jets: J, s: Tree, f: Tree, v: Tree)
    requires
        op_is(f, 11),
        tl(f) is Cell,
        hd(tl(f)) is Atom,
        evaluates(jets, s, tl(tl(f)), v),
    ensures
        evaluates(jets, s, f, v),
{
    let d0 = deriv_of(jets, s, tl(tl(f)), v);
    let d = Deriv::Node(s, f, v, Box::new(d0), Box::new(Deriv::Leaf), Box::new(Deriv::Leaf));
    reveal_with_fuel(valid, 2);
    assert(valid(jets, d));
}

/// Opcode 11 with a jet hint may give what the jet gives.
pub proof fn rule_jet<J: Fn(&Noun, &Noun) -> Option<Noun>>(jets: J, s: Tree, f: Tree, v: Tree)
    requires
        op_is(f, 11),
        tl(f) is Cell,
        hd(tl(f)) is Cell,
        sham_name(hd(tl(f))) is Some,
        jet_gives(jets, sham_name(hd(tl(f)))->Some_0, s, v),
    ensures
        evaluates(jets, s, f, v),
{
    let d = Deriv::Node(s, f, v, Box::new(Deriv::Leaf), Box::new(Deriv::Leaf), Box::new(Deriv::Leaf));
    reveal_with_fuel(valid, 2);
    assert(valid(jets, d));
}

/// Opcode 11 with a cell hint that no jet takes evaluates the hint, then gives its body.
pub proof fn rule_dynamic_hint<J: Fn(&Noun, &Noun) -> Option<Noun>>(jets: J, s: Tree, f: Tree, x: Tree, v: Tree)
    requires
        op_is(f, 11),
        tl(f) is Cell,
        hd(tl(f)) is Cell,
        hint_falls_back(jets, hd(tl(f)), s),
        evaluates(jets, s, tl(hd(tl(f))), x),
        evaluates(jets, s, tl(tl(f)), v),
    ensures
        evaluates(jets, s, f, v),
{
    let d0 = deriv_of(jets, s, tl(hd(tl(f))), x);
    let d1 = deriv_of(jets, s, tl(tl(f)), v);
    let d = Deriv::Node(s, f, v, Box::new(d0), Box::new(d1), Box::new(Deriv::Leaf));
    reveal_with_fuel(valid, 2);
    assert(valid(jets, d));
}


/// A result is derived by a rule from premises that each hold.
pub proof fn inversion<J: Fn(&Noun, &Noun) -> Option<Noun>>(jets: J, s: Tree, f: Tree, v: Tree) -> (ps: (
    Option<(Tree, Tree, Tree)>,
    Option<(Tree, Tree, Tree)>,
    Option<(Tree, Tree, Tree)>,
))
    requires
        evaluates(jets, s, f, v),
    ensures
        step_ok(jets, s, f, v, ps.0, ps.1, ps.2),
        ps.0 is Some ==> evaluates(jets, ps.0->Some_0.0, ps.0->Some_0.1, ps.0->Some_0.2),
        ps.1 is Some ==> evaluates(jets, ps.1->Some_0.0, ps.1->Some_0.1, ps.1->Some_0.2),
        ps.2 is Some ==> evaluates(jets, ps.2->Some_0.0, ps.2->Some_0.1, ps.2->Some_0.2),
{
    let d = deriv_of(jets, s, f, v);
    match d {
        Deriv::Node(_, _, _, a, b, c) => {
            assert(valid(jets, *a) && valid(jets, *b) && valid(jets, *c));
            (concl(*a), concl(*b), concl(*c))
        },
        Deriv::Leaf => {
            assert(false);
            (None, None, None)
        },
    }
}

/// The atom `k` as a tree has the value `k`.
pub proof fn lemma_atom_tree_value(k: u64)
    ensures
        limbs_value(u64_limbs(k)) == k,
{
    reveal_with_fuel(limbs_value, 2);
    if k != 0 {
        assert(u64_limbs(k).drop_first() =~= Seq::<u64>::empty());
    }
}

/// Opcode 0 gives exactly the subtree of the subject at its axis.
pub proof fn lemma_opcode_axis<J: Fn(&Noun, &Noun) -> Option<Noun>>(jets: J, s: Tree, p: Seq<u64>, v: Tree)
    ensures
        evaluates(jets, s, cons(atom_tree(0), Tree::Atom(p)), v) <==> slot_spec(s, p) == Ok::<
            Tree,
            NockError,
        >(v),
{
    let f = cons(atom_tree(0), Tree::Atom(p));
    lemma_atom_tree_value(0);
    if evaluates(jets, s, f, v) {
        inversion(jets, s, f, v);
    }
    if slot_spec(s, p) == Ok::<Tree, NockError>(v) {
        rule_axis(jets, s, f, v);
    }
}

/// Opcode 4 gives a result exactly where its argument gives an atom, and then
/// the successor of that atom: an argument giving a cell leaves it no result.
pub proof fn lemma_opcode_increment<J: Fn(&Noun, &Noun) -> Option<Noun>>(jets: J, s: Tree, b: Tree, v: Tree)
    ensures
        evaluates(jets, s, cons(atom_tree(4), b), v) <==> exists|x: Seq<u64>|
            #[trigger] evaluates(jets, s, b, Tree::Atom(x)) && v is Atom && normalized(v->Atom_0)
                && limbs_value(v->Atom_0) == limbs_value(x) + 1,
{
    let f = cons(atom_tree(4), b);
    lemma_atom_tree_value(4);
    if evaluates(jets, s, f, v) {
        let ps = inversion(jets, s, f, v);
        let x = out(ps.0)->Atom_0;
        assert(evaluates(jets, s, b, Tree::Atom(x)));
    }
    if exists|x: Seq<u64>|
        #[trigger] evaluates(jets, s, b, Tree::Atom(x)) && v is Atom && normalized(v->Atom_0)
            && limbs_value(v->Atom_0) == limbs_value(x) + 1 {
        let x = choose|x: Seq<u64>|
            #[trigger] evaluates(jets, s, b, Tree::Atom(x)) && v is Atom && normalized(v->Atom_0)
                && limbs_value(v->Atom_0) == limbs_value(x) + 1;
        rule_increment(jets, s, f, x, v);
    }
}

/// Opcode 5 gives 0 where its two formulas give equal trees and 1 where they
/// give different ones.
pub proof fn lemma_opcode_equals<J: Fn(&Noun, &Noun) -> Option<Noun>>(jets: J, s: Tree, b: Tree, c: Tree, v: Tree)
    ensures
        evaluates(jets, s, cons(atom_tree(5), cons(b, c)), v) <==> exists|x: Tree, y: Tree|
            #[trigger] evaluates(jets, s, b, x) && #[trigger] evaluates(jets, s, c, y) && v
                == atom_tree(
                if x == y {
                    0
                } else {
                    1
                },
            ),
{
    let f = cons(atom_tree(5), cons(b, c));
    lemma_atom_tree_value(5);
    if evaluates(jets, s, f, v) {
        let ps = inversion(jets, s, f, v);
        assert(evaluates(jets, s, b, out(ps.0)) && evaluates(jets, s, c, out(ps.1)));
    }
    if exists|x: Tree, y: Tree|
        #[trigger] evaluates(jets, s, b, x) && #[trigger] evaluates(jets, s, c, y) && v == atom_tree(
            if x == y {
                0
            } else {
                1
            },
        ) {
        let (x, y) = choose|x: Tree, y: Tree|
            #[trigger] evaluates(jets, s, b, x) && #[trigger] evaluates(jets, s, c, y) && v
                == atom_tree(
                if x == y {
                    0
                } else {
                    1
                },
            );
        rule_equals(jets, s, f, x, y);
    }
}

/// Opcode 6 takes its first branch on a test giving 0 and its second on a
/// test giving 1; a test giving anything else leaves it no result.
pub proof fn lemma_opcode_if<J: Fn(&Noun, &Noun) -> Option<Noun>>(jets: J, s: Tree, b: Tree, yes: Tree, no: Tree, v: Tree)
    ensures
        evaluates(jets, s, cons(atom_tree(6), cons(b, cons(yes, no))), v) <==> exists|x: Seq<u64>|
            #[trigger] evaluates(jets, s, b, Tree::Atom(x)) && ((limbs_value(x) == 0 && evaluates(
                jets,
                s,
                yes,
                v,
            )) || (limbs_value(x) == 1 && evaluates(jets, s, no, v))),
{
    let f = cons(atom_tree(6), cons(b, cons(yes, no)));
    lemma_atom_tree_value(6);
    if evaluates(jets, s, f, v) {
        let ps = inversion(jets, s, f, v);
        let x = out(ps.0)->Atom_0;
        assert(evaluates(jets, s, b, Tree::Atom(x)));
    }
    if exists|x: Seq<u64>|
        #[trigger] evaluates(jets, s, b, Tree::Atom(x)) && ((limbs_value(x) == 0 && evaluates(
            jets,
            s,
            yes,
            v,
        )) || (limbs_value(x) == 1 && evaluates(jets, s, no, v))) {
        let x = choose|x: Seq<u64>|
            #[trigger] evaluates(jets, s, b, Tree::Atom(x)) && ((limbs_value(x) == 0 && evaluates(
                jets,
                s,
                yes,
                v,
            )) || (limbs_value(x) == 1 && evaluates(jets, s, no, v)));
        if limbs_value(x) == 0 {
            rule_if_yes(jets, s, f, x, v);
        } else {
            rule_if_no(jets, s, f, x, v);
        }
    }
}

/// Opcode 9 gives what the arm at its axis of the core gives when evaluated
/// with the core as subject.
pub proof fn lemma_opcode_invoke<J: Fn(&Noun, &Noun) -> Option<Noun>>(jets: J, s: Tree, p: Seq<u64>, c: Tree, v: Tree)
    ensures
        evaluates(jets, s, cons(atom_tree(9), cons(Tree::Atom(p), c)), v) <==> exists|
            core: Tree,
            arm: Tree,
        |
            #[trigger] evaluates(jets, s, c, core) && slot_spec(core, p) == Ok::<Tree, NockError>(
                arm,
            ) && #[trigger] evaluates(jets, core, arm, v),
{
    let f = cons(atom_tree(9), cons(Tree::Atom(p), c));
    lemma_atom_tree_value(9);
    if evaluates(jets, s, f, v) {
        let ps = inversion(jets, s, f, v);
        assert(evaluates(jets, s, c, out(ps.0)) && evaluates(jets, out(ps.0), ps.1->Some_0.1, v));
    }
    if exists|core: Tree, arm: Tree|
        #[trigger] evaluates(jets, s, c, core) && slot_spec(core, p) == Ok::<Tree, NockError>(arm)
            && #[trigger] evaluates(jets, core, arm, v) {
        let (core, arm) = choose|core: Tree, arm: Tree|
            #[trigger] evaluates(jets, s, c, core) && slot_spec(core, p) == Ok::<Tree, NockError>(
                arm,
            ) && #[trigger] evaluates(jets, core, arm, v);
        rule_invoke(jets, s, f, core, arm, v);
    }
}

/// A hint `[%sham [x name]]` on a body gives what the jet `name` gives on the
/// subject, without the body; where the jets decline the name, it gives what
/// the body gives (after the hint formula `[x name]` itself gives something).
pub proof fn lemma_jet_hint<J: Fn(&Noun, &Noun) -> Option<Noun>>(jets: J, s: Tree, x: Tree, name: Tree, body: Tree, v: Tree)
    ensures
        jet_gives(jets, name, s, v) ==> evaluates(
            jets,
            s,
            cons(atom_tree(11), cons(cons(atom_tree(SHAM_TAG), cons(x, name)), body)),
            v,
        ),
        jet_declines(jets, name, s) ==> ((exists|h: Tree|
            #[trigger] evaluates(jets, s, cons(x, name), h)) && evaluates(jets, s, body, v)
            ==> evaluates(
            jets,
            s,
            cons(atom_tree(11), cons(cons(atom_tree(SHAM_TAG), cons(x, name)), body)),
            v,
        )),
{
    let hint = cons(atom_tree(SHAM_TAG), cons(x, name));
    let f = cons(atom_tree(11), cons(hint, body));
    lemma_atom_tree_value(11);
    lemma_atom_tree_value(SHAM_TAG);
    assert(sham_name(hint) == Some(name));
    if jet_gives(jets, name, s, v) {
        rule_jet(jets, s, f, v);
    }
    if jet_declines(jets, name, s) && (exists|h: Tree| #[trigger] evaluates(jets, s, cons(x, name), h))
        && evaluates(jets, s, body, v) {
        let h = choose|h: Tree| #[trigger] evaluates(jets, s, cons(x, name), h);
        rule_dynamic_hint(jets, s, f, h, v);
    }
}


/// The jets answer equal arguments alike: both decline, or both give equal
/// trees.
pub open spec fn jets_deterministic<J: Fn(&Noun, &Noun) -> Option<Noun>>(jets: J) -> bool {
    forall|a1: Noun, b1: Noun, a2: Noun, b2: Noun, r1: Option<Noun>, r2: Option<Noun>|
        a1@ == a2@ && b1@ == b2@ && #[trigger] call_ensures(jets, (&a1, &b1), r1)
            && #[trigger] call_ensures(jets, (&a2, &b2), r2) ==> (r1 is None <==> r2 is None) && (
        r1 is Some ==> r1->Some_0@ == r2->Some_0@)
}

pub proof fn lemma_jet_answers<J: Fn(&Noun, &Noun) -> Option<Noun>>(jets: J, name: Tree, s: Tree, v1: Tree, v2: Tree)
    requires
        jets_deterministic(jets),
    ensures
        jet_gives(jets, name, s, v1) && jet_gives(jets, name, s, v2) ==> v1 == v2,
        !(jet_gives(jets, name, s, v1) && jet_declines(jets, name, s)),
{
    if jet_gives(jets, name, s, v1) {
        let (a1, b1, x1) = choose|a: Noun, b: Noun, x: Noun|
            a@ == name && b@ == s && x@ == v1 && #[trigger] call_ensures(jets, (&a, &b), Some(x));
        if jet_gives(jets, name, s, v2) {
            let (a2, b2, x2) = choose|a: Noun, b: Noun, x: Noun|
                a@ == name && b@ == s && x@ == v2 && #[trigger] call_ensures(jets, (&a, &b), Some(x));
            assert(call_ensures(jets, (&a1, &b1), Some(x1)) && call_ensures(jets, (&a2, &b2), Some(x2)));
        }
        if jet_declines(jets, name, s) {
            let (a2, b2) = choose|a: Noun, b: Noun|
                a@ == name && b@ == s && #[trigger] call_ensures(jets, (&a, &b), None::<Noun>);
            assert(call_ensures(jets, (&a1, &b1), Some(x1)) && call_ensures(jets, (&a2, &b2), None::<Noun>));
        }
    }
}

/// Two conclusions about the same formula on the same subject.
pub open spec fn same_question(p: Option<(Tree, Tree, Tree)>, q: Option<(Tree, Tree, Tree)>) -> bool {
    p is Some && q is Some && p->Some_0.0 == q->Some_0.0 && p->Some_0.1 == q->Some_0.1
}

#[verifier::rlimit(50)]
proof fn lemma_derivations_agree<J: Fn(&Noun, &Noun) -> Option<Noun>>(jets: J, d1: Deriv, d2: Deriv)
    requires
        jets_deterministic(jets),
        valid(jets, d1),
        valid(jets, d2),
        same_question(concl(d1), concl(d2)),
    ensures
        concl(d1) == concl(d2),
    decreases d1,
{
    if let (Deriv::Node(s, f, v1, a1, b1, c1), Deriv::Node(_, _, v2, a2, b2, c2)) = (d1, d2) {
        assert(step_ok(jets, s, f, v1, concl(*a1), concl(*b1), concl(*c1)));
        assert(step_ok(jets, s, f, v2, concl(*a2), concl(*b2), concl(*c2)));
        assert(valid(jets, *a1) && valid(jets, *b1) && valid(jets, *c1));
        assert(valid(jets, *a2) && valid(jets, *b2) && valid(jets, *c2));
        if same_question(concl(*a1), concl(*a2)) {
            lemma_derivations_agree(jets, *a1, *a2);
        }
        if same_question(concl(*b1), concl(*b2)) {
            lemma_derivations_agree(jets, *b1, *b2);
        }
        if same_question(concl(*c1), concl(*c2)) {
            lemma_derivations_agree(jets, *c1, *c2);
        }
        let hint = hd(tl(f));
        if sham_name(hint) is Some {
            lemma_jet_answers(jets, sham_name(hint)->Some_0, s, v1, v2);
            lemma_jet_answers(jets, sham_name(hint)->Some_0, s, v2, v1);
        }
        if f is Cell && hd(f) is Atom && limbs_value(hd(f)->Atom_0) == 4 {
            lemma_value_injective(v1->Atom_0, v2->Atom_0);
        }
    }
}

/// With jets that answer alike, a formula on a subject gives at most one
/// result: evaluation is a function, whatever memory the results share.
pub proof fn lemma_deterministic<J: Fn(&Noun, &Noun) -> Option<Noun>>(jets: J, s: Tree, f: Tree, v1: Tree, v2: Tree)
    requires
        jets_deterministic(jets),
        evaluates(jets, s, f, v1),
        evaluates(jets, s, f, v2),
    ensures
        v1 == v2,
{
    let d1 = deriv_of(jets, s, f, v1);
    let d2 = deriv_of(jets, s, f, v2);
    lemma_derivations_agree(jets, d1, d2);
}


/// The formula has some result on the subject.
pub open spec fn has_result<J: Fn(&Noun, &Noun) -> Option<Noun>>(jets: J, e: (Tree, Tree)) -> bool {
    exists|v: Tree| #[trigger] evaluates(jets, e.0, e.1, v)
}


/// The first, second and third premise of a derivation.
pub open spec fn prem_a(d: Deriv) -> Deriv {
    match d {
        Deriv::Node(_, _, _, a, _, _) => *a,
        Deriv::Leaf => d,
    }
}

pub open spec fn prem_b(d: Deriv) -> Deriv {
    match d {
        Deriv::Node(_, _, _, _, b, _) => *b,
        Deriv::Leaf => d,
    }
}

pub open spec fn prem_c(d: Deriv) -> Deriv {
    match d {
        Deriv::Node(_, _, _, _, _, c) => *c,
        Deriv::Leaf => d,
    }
}

/// A bound on the steps an evaluation along the derivation takes: at most
/// four frames run per rule.
pub open spec fn steps(d: Deriv) -> nat
    decreases d,
{
    match d {
        Deriv::Leaf => 0,
        Deriv::Node(_, _, _, a, b, c) => 4 + steps(*a) + steps(*b) + steps(*c),
    }
}

/// The axis a formula addresses by (opcodes 0, 9 and 10) has fewer limbs
/// than a bit slice can take.
pub open spec fn axis_fits(f: Tree) -> bool {
    let a = tl(f);
    &&& op_is(f, 0) && a is Atom ==> a->Atom_0.len() < MAX_AXIS_LIMBS
    &&& op_is(f, 9) && a is Cell && hd(a) is Atom ==> hd(a)->Atom_0.len() < MAX_AXIS_LIMBS
    &&& op_is(f, 10) && a is Cell && hd(a) is Cell && hd(hd(a)) is Atom ==> hd(hd(a))->Atom_0.len()
        < MAX_AXIS_LIMBS
}

/// Every axis used in the derivation fits a bit slice.
pub open spec fn axes_fit(d: Deriv) -> bool
    decreases d,
{
    match d {
        Deriv::Leaf => true,
        Deriv::Node(_, f, _, a, b, c) => axis_fits(f) && axes_fit(*a) && axes_fit(*b) && axes_fit(
            *c,
        ),
    }
}

/// The derivation holds, concludes something of formula `f` on subject `s`,
/// and uses only axes that fit.
pub open spec fn derives<J: Fn(&Noun, &Noun) -> Option<Noun>>(jets: J, d: Deriv, s: Tree, f: Tree) -> bool {
    valid(jets, d) && axes_fit(d) && concl(d) is Some && concl(d)->Some_0.0 == s && concl(d)->Some_0.1 == f
}

} // verus!
