use vstd::prelude::*;
use crate::axis::{edit, slot, slot_spec, MAX_AXIS_LIMBS};
use crate::error::NockError;
use crate::noun::{inc, limbs_value, tree_of, Atom, Noun, Tree};
use crate::semantics::{
    evaluates, hd, hint_falls_back, jet_declines, jet_gives, op_is, rule_axis, rule_cell,
    rule_compose, rule_constant, rule_dynamic_hint, rule_edit, rule_equals, rule_eval,
    rule_if_no, rule_if_yes, rule_increment, rule_invoke, rule_is_cell, rule_jet, rule_push,
    rule_static_hint, sham_name, tl, SHAM_TAG, has_result, derives, steps, prem_a, prem_b,
    prem_c, concl, step_ok, valid, axes_fit, Deriv, inversion, jets_deterministic,
    lemma_deterministic, lemma_jet_answers, out,
};

verus! {

/// One pending step of an evaluation, with the operands it still needs.
pub enum NockWork {
    /// The evaluation is complete once this frame is reached.
    Done,
    CellComputeHead(Noun, Noun),
    CellComputeTail(Noun),
    CellCons(Noun),
    Nock0Axis(Noun),
    Nock1Constant(Noun),
    Nock2ComputeSubject(Noun, Noun),
    Nock2ComputeFormula(Noun),
    Nock2ComputeResult(Noun),
    Nock2RestoreSubject(Noun),
    Nock3ComputeChild(Noun),
    Nock3ComputeType,
    Nock4ComputeChild(Noun),
    Nock4Increment,
    Nock5ComputeLeftChild(Noun, Noun),
    Nock5ComputeRightChild(Noun),
    Nock5TestEquals(Noun),
    Nock6ComputeTest(Noun, Noun, Noun),
    Nock6ComputeBranch(Noun, Noun),
    Nock6Done,
    Nock7ComputeSubject(Noun, Noun),
    Nock7ComputeResult(Noun),
    Nock7RestoreSubject(Noun),
    Nock8ComputeSubject(Noun, Noun),
    Nock8ComputeResult(Noun),
    Nock8RestoreSubject,
    Nock9ComputeCore(Noun, Noun),
    Nock9ComputeResult(Noun),
    Nock9RestoreSubject(Noun),
    Nock10ComputeTree(Noun, Noun, Noun),
    Nock10ComputePatch(Noun, Noun),
    Nock10Edit(Noun, Noun),
    Nock11ComputeHint(Noun, Noun),
    Nock11ComputeResult(Noun),
    Nock11Done,
}

impl NockWork {
    /// Every noun the frame holds is well formed.
    pub open spec fn wf(&self) -> bool {
        match self {
            NockWork::CellComputeHead(a, b) | NockWork::Nock2ComputeSubject(a, b)
            | NockWork::Nock5ComputeLeftChild(a, b) | NockWork::Nock6ComputeBranch(a, b)
            | NockWork::Nock7ComputeSubject(a, b) | NockWork::Nock8ComputeSubject(a, b)
            | NockWork::Nock9ComputeCore(a, b) | NockWork::Nock10ComputePatch(a, b)
            | NockWork::Nock10Edit(a, b) | NockWork::Nock11ComputeHint(a, b) => a.wf() && b.wf(),
            NockWork::Nock6ComputeTest(a, b, c) | NockWork::Nock10ComputeTree(a, b, c) => a.wf()
                && b.wf() && c.wf(),
            NockWork::CellComputeTail(a) | NockWork::CellCons(a) | NockWork::Nock0Axis(a)
            | NockWork::Nock1Constant(a) | NockWork::Nock2ComputeFormula(a)
            | NockWork::Nock2ComputeResult(a) | NockWork::Nock2RestoreSubject(a)
            | NockWork::Nock3ComputeChild(a) | NockWork::Nock4ComputeChild(a)
            | NockWork::Nock5ComputeRightChild(a) | NockWork::Nock5TestEquals(a)
            | NockWork::Nock7ComputeResult(a) | NockWork::Nock7RestoreSubject(a)
            | NockWork::Nock8ComputeResult(a)
            | NockWork::Nock9ComputeResult(a) | NockWork::Nock9RestoreSubject(a)
            | NockWork::Nock11ComputeResult(a) => a.wf(),
            _ => true,
        }
    }
}

/// The frame that an opcode with argument `arg` installs.
pub open spec fn decode_opcode(op: nat, arg: Noun) -> Result<NockWork, NockError> {
    if op == 0 {
        Ok(NockWork::Nock0Axis(arg))
    } else if op == 1 {
        Ok(NockWork::Nock1Constant(arg))
    } else if op == 3 {
        Ok(NockWork::Nock3ComputeChild(arg))
    } else if op == 4 {
        Ok(NockWork::Nock4ComputeChild(arg))
    } else if op > 11 {
        Err(NockError::InvalidOpcode)
    } else {
        match arg {
            Noun::Atom(_) => Err(NockError::BadArgument),
            Noun::Cell(b, c) => if op == 2 {
                Ok(NockWork::Nock2ComputeSubject(*b, *c))
            } else if op == 5 {
                Ok(NockWork::Nock5ComputeLeftChild(*b, *c))
            } else if op == 6 {
                match *c {
                    Noun::Cell(yes, no) => Ok(NockWork::Nock6ComputeTest(*b, *yes, *no)),
                    Noun::Atom(_) => Err(NockError::BadArgument),
                }
            } else if op == 7 {
                Ok(NockWork::Nock7ComputeSubject(*b, *c))
            } else if op == 8 {
                Ok(NockWork::Nock8ComputeSubject(*b, *c))
            } else if op == 9 {
                Ok(NockWork::Nock9ComputeCore(*b, *c))
            } else if op == 10 {
                match *b {
                    Noun::Cell(axis, patch) => Ok(NockWork::Nock10ComputeTree(*axis, *patch, *c)),
                    Noun::Atom(_) => Err(NockError::BadArgument),
                }
            } else if *b is Cell {
                Ok(NockWork::Nock11ComputeHint(*b, *c))
            } else {
                Ok(NockWork::Nock11ComputeResult(*c))
            },
        }
    }
}

/// The frame that a formula installs: a cell with a cell head builds a cell of
/// two results; a cell with an atom head is an opcode; an atom is no formula.
pub open spec fn decode(formula: Noun) -> Result<NockWork, NockError> {
    match formula {
        Noun::Atom(_) => Err(NockError::AtomFormula),
        Noun::Cell(h, t) => match *h {
            Noun::Cell(_, _) => Ok(NockWork::CellComputeHead(*h, *t)),
            Noun::Atom(op) => decode_opcode(op.value(), *t),
        },
    }
}

/// A frame just installed for formula `f`: what it holds, read off `f`.
pub open spec fn installs(w: NockWork, f: Tree) -> bool {
    let a = tl(f);
    let (b, c) = (hd(a), tl(a));
    match w {
        NockWork::CellComputeHead(h, t) => f is Cell && hd(f) is Cell && hd(f) == h@ && tl(f) == t@,
        NockWork::Nock0Axis(p) => op_is(f, 0) && a == p@,
        NockWork::Nock1Constant(x) => op_is(f, 1) && a == x@,
        NockWork::Nock2ComputeSubject(x, y) => op_is(f, 2) && a is Cell && b == x@ && c == y@,
        NockWork::Nock3ComputeChild(x) => op_is(f, 3) && a == x@,
        NockWork::Nock4ComputeChild(x) => op_is(f, 4) && a == x@,
        NockWork::Nock5ComputeLeftChild(x, y) => op_is(f, 5) && a is Cell && b == x@ && c == y@,
        NockWork::Nock6ComputeTest(x, yes, no) => op_is(f, 6) && a is Cell && b == x@ && c is Cell
            && hd(c) == yes@ && tl(c) == no@,
        NockWork::Nock7ComputeSubject(x, y) => op_is(f, 7) && a is Cell && b == x@ && c == y@,
        NockWork::Nock8ComputeSubject(x, y) => op_is(f, 8) && a is Cell && b == x@ && c == y@,
        NockWork::Nock9ComputeCore(x, y) => op_is(f, 9) && a is Cell && b == x@ && c == y@,
        NockWork::Nock10ComputeTree(p, x, y) => op_is(f, 10) && a is Cell && b is Cell && hd(b)
            == p@ && tl(b) == x@ && c == y@,
        NockWork::Nock11ComputeHint(h, body) => op_is(f, 11) && a is Cell && b is Cell && b == h@
            && c == body@,
        NockWork::Nock11ComputeResult(body) => op_is(f, 11) && a is Cell && b is Atom && c
            == body@,
        _ => false,
    }
}

/// Decodes `formula` and pushes the frame it installs.
fn push_formula(frames: &mut Vec<NockWork>, formula: Noun) -> (r: Result<(), NockError>)
    requires
        formula.wf(),
    ensures
        r is Ok <==> decode(formula) is Ok,
        r is Ok ==> final(frames)@ == old(frames)@.push(decode(formula)->Ok_0),
        r is Ok ==> (decode(formula)->Ok_0).wf() && !(decode(formula)->Ok_0 is Done),
        r is Ok ==> installs(decode(formula)->Ok_0, formula@),
        r matches Err(e) ==> decode(formula) == Err::<NockWork, NockError>(e) && final(frames)@
            == old(frames)@,
{
    proof {
        reveal_with_fuel(Noun::wf, 4);
        reveal_with_fuel(tree_of, 4);
    }
    let (head, tail) = match formula {
        Noun::Atom(_) => return Err(NockError::AtomFormula),
        Noun::Cell(h, t) => (*h, *t),
    };
    let op_atom = match head {
        Noun::Cell(_, _) => {
            frames.push(NockWork::CellComputeHead(head, tail));
            return Ok(());
        },
        Noun::Atom(a) => a,
    };
    let op = match op_atom.as_u64() {
        Some(n) => n,
        None => return Err(NockError::InvalidOpcode),
    };
    let work = if op == 0 {
        NockWork::Nock0Axis(tail)
    } else if op == 1 {
        NockWork::Nock1Constant(tail)
    } else if op == 3 {
        NockWork::Nock3ComputeChild(tail)
    } else if op == 4 {
        NockWork::Nock4ComputeChild(tail)
    } else if op > 11 {
        return Err(NockError::InvalidOpcode);
    } else {
        let (b, c) = match tail {
            Noun::Atom(_) => return Err(NockError::BadArgument),
            Noun::Cell(b, c) => (*b, *c),
        };
        if op == 2 {
            NockWork::Nock2ComputeSubject(b, c)
        } else if op == 5 {
            NockWork::Nock5ComputeLeftChild(b, c)
        } else if op == 6 {
            match c {
                Noun::Cell(yes, no) => NockWork::Nock6ComputeTest(b, *yes, *no),
                Noun::Atom(_) => return Err(NockError::BadArgument),
            }
        } else if op == 7 {
            NockWork::Nock7ComputeSubject(b, c)
        } else if op == 8 {
            NockWork::Nock8ComputeSubject(b, c)
        } else if op == 9 {
            NockWork::Nock9ComputeCore(b, c)
        } else if op == 10 {
            match b {
                Noun::Cell(axis, patch) => NockWork::Nock10ComputeTree(*axis, *patch, c),
                Noun::Atom(_) => return Err(NockError::BadArgument),
            }
        } else if b.is_cell() {
            NockWork::Nock11ComputeHint(b, c)
        } else {
            NockWork::Nock11ComputeResult(c)
        }
    };
    frames.push(work);
    Ok(())
}


/// The control stack: the frames of evaluations in progress, innermost last.
pub struct NockStack {
    frames: Vec<NockWork>,
}

impl NockStack {
    pub closed spec fn frames_view(&self) -> Seq<NockWork> {
        self.frames@
    }

    pub fn new() -> (r: NockStack)
        ensures
            r.frames_view().len() == 0,
    {
        NockStack { frames: Vec::new() }
    }

    /// The number of frames on the stack.
    pub fn depth(&self) -> (r: usize)
        ensures
            r == self.frames_view().len(),
    {
        self.frames.len()
    }
}

/// The axis held by a frame, where it is an atom short enough to address by.
fn axis_of(n: &Noun) -> (r: Result<&Atom, NockError>)
    ensures
        r matches Ok(a) ==> *n == Noun::Atom(*a) && a.limbs_view().len() < MAX_AXIS_LIMBS,
        r matches Err(e) ==> (e == NockError::AxisNotAtom && n is Cell) || (e
            == NockError::AxisTooLong && n is Atom && n->Atom_0.limbs_view().len() >= MAX_AXIS_LIMBS),
{
    match n {
        Noun::Atom(a) => if a.limbs().len() < MAX_AXIS_LIMBS {
            Ok(a)
        } else {
            Err(NockError::AxisTooLong)
        },
        Noun::Cell(_, _) => Err(NockError::AxisNotAtom),
    }
}

/// The frames from `base` up: a `Done` frame at `base` and none above it,
/// every noun well formed.
pub open spec fn frames_ok(frames: Seq<NockWork>, base: int) -> bool {
    &&& 0 <= base < frames.len()
    &&& frames[base] is Done
    &&& forall|i: int| base < i < frames.len() ==> !(frames[i] is Done)
    &&& forall|i: int| base <= i < frames.len() ==> frames[i].wf()
}

/// A frame that waits for a result: `me` is the evaluation the frame belongs
/// to (subject and formula), `child` the evaluation whose result it awaits.
pub open spec fn waits<J: Fn(&Noun, &Noun) -> Option<Noun>>(
    jets: J,
    w: NockWork,
    me: (Tree, Tree),
    child: (Tree, Tree),
) -> bool {
    let (s, f) = me;
    let a = tl(f);
    let (b, c) = (hd(a), tl(a));
    match w {
        NockWork::Done => child == me,
        NockWork::CellComputeTail(t) => f is Cell && hd(f) is Cell && tl(f) == t@ && child == (
            s,
            hd(f),
        ),
        NockWork::CellCons(x) => f is Cell && hd(f) is Cell && evaluates(jets, s, hd(f), x@)
            && child == (s, tl(f)),
        NockWork::Nock2ComputeFormula(y) => op_is(f, 2) && a is Cell && c == y@ && child == (s, b),
        NockWork::Nock2ComputeResult(ns) => op_is(f, 2) && a is Cell && evaluates(jets, s, b, ns@)
            && child == (s, c),
        NockWork::Nock2RestoreSubject(old) => op_is(f, 2) && a is Cell && old@ == s && evaluates(
            jets,
            s,
            b,
            child.0,
        ) && evaluates(jets, s, c, child.1),
        NockWork::Nock3ComputeType => op_is(f, 3) && child == (s, a),
        NockWork::Nock4Increment => op_is(f, 4) && child == (s, a),
        NockWork::Nock5ComputeRightChild(y) => op_is(f, 5) && a is Cell && c == y@ && child == (
            s,
            b,
        ),
        NockWork::Nock5TestEquals(l) => op_is(f, 5) && a is Cell && evaluates(jets, s, b, l@)
            && child == (s, c),
        NockWork::Nock6ComputeBranch(yes, no) => op_is(f, 6) && a is Cell && c is Cell && hd(c)
            == yes@ && tl(c) == no@ && child == (s, b),
        NockWork::Nock6Done => op_is(f, 6) && a is Cell && c is Cell && exists|x: Seq<u64>|
            #[trigger] evaluates(jets, s, b, Tree::Atom(x)) && ((limbs_value(x) == 0 && child == (
                s,
                hd(c),
            )) || (limbs_value(x) == 1 && child == (s, tl(c)))),
        NockWork::Nock7ComputeResult(y) => op_is(f, 7) && a is Cell && c == y@ && child == (s, b),
        NockWork::Nock7RestoreSubject(old) => op_is(f, 7) && a is Cell && old@ == s && evaluates(
            jets,
            s,
            b,
            child.0,
        ) && child.1 == c,
        NockWork::Nock8ComputeResult(y) => op_is(f, 8) && a is Cell && c == y@ && child == (s, b),
        NockWork::Nock8RestoreSubject => op_is(f, 8) && a is Cell && child.1 == c
            && child.0 is Cell && evaluates(jets, s, b, hd(child.0)) && tl(child.0) == s,
        NockWork::Nock9ComputeResult(p) => op_is(f, 9) && a is Cell && b == p@ && child == (s, c),
        NockWork::Nock9RestoreSubject(old) => op_is(f, 9) && a is Cell && old@ == s && b is Atom
            && evaluates(jets, s, c, child.0) && slot_spec(child.0, b->Atom_0) == Ok::<
            Tree,
            NockError,
        >(child.1),
        NockWork::Nock10ComputePatch(p, x) => op_is(f, 10) && a is Cell && b is Cell && hd(b)
            == p@ && tl(b) == x@ && child == (s, c),
        NockWork::Nock10Edit(p, tree) => op_is(f, 10) && a is Cell && b is Cell && hd(b) == p@
            && evaluates(jets, s, c, tree@) && child == (s, tl(b)),
        NockWork::Nock11ComputeResult(body) => op_is(f, 11) && a is Cell && b is Cell && c
            == body@ && hint_falls_back(jets, b, s) && child == (s, tl(b)),
        NockWork::Nock11Done => op_is(f, 11) && a is Cell && child == (s, c) && (b is Atom || (
        hint_falls_back(jets, b, s) && exists|x: Tree| #[trigger] evaluates(jets, s, tl(b), x))),
        _ => false,
    }
}

/// Where the evaluation a frame belongs to has a result, so does the one it
/// waits for (the jets answering alike).
proof fn lemma_child_has_result<J: Fn(&Noun, &Noun) -> Option<Noun>>(
    jets: J,
    w: NockWork,
    me: (Tree, Tree),
    child: (Tree, Tree),
)
    requires
        jets_deterministic(jets),
        waits(jets, w, me, child),
        has_result(jets, me),
    ensures
        has_result(jets, child),
{
    let (s, f) = me;
    let v = choose|v: Tree| #[trigger] evaluates(jets, s, f, v);
    let ps = inversion(jets, s, f, v);
    let a = tl(f);
    let (b, c) = (hd(a), tl(a));
    if sham_name(b) is Some {
        lemma_jet_answers(jets, sham_name(b)->Some_0, s, v, v);
    }
    match w {
        NockWork::Done => {
            assert(evaluates(jets, child.0, child.1, v));
        },
        NockWork::Nock2RestoreSubject(_) => {
            lemma_deterministic(jets, s, b, child.0, out(ps.0));
            lemma_deterministic(jets, s, c, child.1, out(ps.1));
            assert(evaluates(jets, child.0, child.1, out(ps.2)));
        },
        NockWork::Nock6Done => {
            let x = choose|x: Seq<u64>|
                #[trigger] evaluates(jets, s, b, Tree::Atom(x)) && ((limbs_value(x) == 0 && child == (
                    s,
                    hd(c),
                )) || (limbs_value(x) == 1 && child == (s, tl(c))));
            lemma_deterministic(jets, s, b, Tree::Atom(x), out(ps.0));
            assert(evaluates(jets, child.0, child.1, out(ps.1)));
        },
        NockWork::Nock7RestoreSubject(_) => {
            lemma_deterministic(jets, s, b, child.0, out(ps.0));
            assert(evaluates(jets, child.0, child.1, out(ps.1)));
        },
        NockWork::Nock8RestoreSubject => {
            lemma_deterministic(jets, s, b, hd(child.0), out(ps.0));
            assert(child.0 == crate::semantics::cons(hd(child.0), s));
            assert(evaluates(jets, child.0, child.1, out(ps.1)));
        },
        NockWork::Nock9RestoreSubject(_) => {
            lemma_deterministic(jets, s, c, child.0, out(ps.0));
            assert(evaluates(jets, child.0, child.1, out(ps.1)));
        },
        NockWork::CellComputeTail(_) | NockWork::Nock2ComputeFormula(_) | NockWork::Nock3ComputeType
        | NockWork::Nock4Increment | NockWork::Nock5ComputeRightChild(_)
        | NockWork::Nock6ComputeBranch(_, _) | NockWork::Nock7ComputeResult(_)
        | NockWork::Nock8ComputeResult(_) => {
            assert(evaluates(jets, child.0, child.1, out(ps.0)));
        },
        NockWork::Nock9ComputeResult(_) | NockWork::Nock10ComputePatch(_, _) => {
            assert(evaluates(jets, child.0, child.1, out(ps.0)));
        },
        NockWork::CellCons(_) | NockWork::Nock2ComputeResult(_) | NockWork::Nock5TestEquals(_)
        | NockWork::Nock10Edit(_, _) => {
            assert(evaluates(jets, child.0, child.1, out(ps.1)));
        },
        NockWork::Nock11ComputeResult(_) => {
            assert(evaluates(jets, child.0, child.1, out(ps.0)));
        },
        NockWork::Nock11Done => {
            if b is Atom {
                assert(evaluates(jets, child.0, child.1, out(ps.0)));
            } else {
                assert(evaluates(jets, child.0, child.1, out(ps.1)));
            }
        },
        _ => {},
    }
}

/// A formula that decodes to no frame has no result.
proof fn lemma_undecodable<J: Fn(&Noun, &Noun) -> Option<Noun>>(jets: J, s: Tree, g: Noun)
    requires
        decode(g) is Err,
    ensures
        !has_result(jets, (s, g@)),
{
    reveal_with_fuel(tree_of, 4);
    if has_result(jets, (s, g@)) {
        let v = choose|v: Tree| #[trigger] evaluates(jets, s, g@, v);
        inversion(jets, s, g@, v);
    }
}

/// A bound on the steps a frame still takes, its derivation being `d`: all
/// of it for a frame just installed; for a waiting frame, its own remaining
/// runs and the premises it has not yet started.
pub open spec fn frame_cost(w: NockWork, d: Deriv, fresh: bool) -> nat {
    if fresh {
        steps(d)
    } else {
        match w {
            NockWork::Nock2ComputeFormula(_) => 3 + steps(prem_b(d)) + steps(prem_c(d)),
            NockWork::CellComputeTail(_) | NockWork::Nock2ComputeResult(_)
            | NockWork::Nock5ComputeRightChild(_) | NockWork::Nock6ComputeBranch(_, _)
            | NockWork::Nock7ComputeResult(_) | NockWork::Nock8ComputeResult(_)
            | NockWork::Nock9ComputeResult(_) | NockWork::Nock10ComputePatch(_, _)
            | NockWork::Nock11ComputeResult(_) => 2 + if w is Nock2ComputeResult {
                steps(prem_c(d))
            } else {
                steps(prem_b(d))
            },
            _ => 1,
        }
    }
}

/// The total of a sequence of costs.
pub open spec fn total(c: Seq<nat>) -> nat
    decreases c.len(),
{
    if c.len() == 0 {
        0
    } else {
        total(c.drop_last()) + c.last()
    }
}

proof fn lemma_total_push(c: Seq<nat>, x: nat)
    ensures
        total(c.push(x)) == total(c) + x,
{
    assert(c.push(x).drop_last() =~= c);
}

/// The frames from `base` up stand for nested evaluations: `ctx[k]` is the
/// evaluation of the frame at `base + k`, and each frame below the top waits
/// for the one above it. The top frame was just installed (`fresh`), or waits
/// for the evaluation `done`, whose result is `res`.
pub open spec fn machine_ok<J: Fn(&Noun, &Noun) -> Option<Noun>>(
    jets: J,
    frames: Seq<NockWork>,
    base: int,
    ctx: Seq<(Tree, Tree)>,
    fresh: bool,
    done: (Tree, Tree),
    subject: Tree,
    res: Tree,
) -> bool {
    &&& ctx.len() == frames.len() - base
    &&& forall|k: int|
        0 <= k < ctx.len() - 1 ==> #[trigger] waits(jets, frames[base + k], ctx[k], ctx[k + 1])
    &&& fresh ==> installs(frames.last(), ctx.last().1) && subject == ctx.last().0
    &&& !fresh ==> waits(jets, frames.last(), ctx.last(), done) && evaluates(
        jets,
        done.0,
        done.1,
        res,
    ) && subject == done.0
}

/// Runs one frame popped off the stack. It either installs a frame that
/// waits for a sub-evaluation (`Some` of its formula, to be decoded on top),
/// completes the frame's evaluation (`None`, with the result in `res`), or
/// fails. `me` is the evaluation the frame belongs to; a frame that does not
/// come `fresh` from decoding waits for `done`, whose result is `res`.
#[verifier::rlimit(100)]
fn run_frame<J: Fn(&Noun, &Noun) -> Option<Noun>>(
    frames: &mut Vec<NockWork>,
    subj: Noun,
    res: Noun,
    work: NockWork,
    jets: &J,
    me_g: Ghost<(Tree, Tree)>,
    fresh_g: Ghost<bool>,
    done_g: Ghost<(Tree, Tree)>,
    d_g: Ghost<Deriv>,
    trk_g: Ghost<bool>,
) -> (r: (Noun, Noun, Result<Option<Noun>, NockError>, Ghost<Deriv>))
    requires
        work.wf(),
        !(work is Done),
        subj.wf(),
        res.wf(),
        forall|name: &Noun, s: &Noun| call_requires(*jets, (name, s)),
        forall|name: &Noun, s: &Noun, x: Option<Noun>|
            call_ensures(*jets, (name, s), x) ==> (x matches Some(v) ==> v.wf()),
        fresh_g@ ==> installs(work, me_g@.1) && subj@ == me_g@.0,
        !fresh_g@ ==> waits(*jets, work, me_g@, done_g@) && evaluates(
            *jets,
            done_g@.0,
            done_g@.1,
            res@,
        ) && subj@ == done_g@.0,
        trk_g@ ==> jets_deterministic(*jets) && derives(*jets, d_g@, me_g@.0, me_g@.1),
    ensures
        r.0.wf(),
        r.1.wf(),
        r.2 matches Ok(Some(g)) ==> (g.wf() && final(frames)@ == old(frames)@.push(final(frames)@.last()) && final(frames)@.last().wf() && !(final(frames)@.last() is Done) && waits(*jets, final(frames)@.last(), me_g@, (r.0@, g@))),
        r.2 matches Ok(None) ==> (final(frames)@ == old(frames)@ && evaluates(*jets, me_g@.0, me_g@.1, r.1@) && r.0@ == me_g@.0),
        r.2 is Err ==> final(frames)@ == old(frames)@,
        trk_g@ ==> r.2 is Ok,
        trk_g@ && r.2 is Ok && r.2->Ok_0 is Some ==> valid(*jets, r.3@),
        trk_g@ && r.2 is Ok && r.2->Ok_0 is Some ==> derives(*jets, r.3@, r.0@, (r.2->Ok_0->Some_0)@),
        trk_g@ && r.2 is Ok && r.2->Ok_0 is Some ==> frame_cost(final(frames)@.last(), d_g@, false) + steps(r.3@) + 1 <= frame_cost(
            work,
            d_g@,
            fresh_g@,
        ),
        trk_g@ && r.2 is Ok && r.2->Ok_0 is None ==> frame_cost(work, d_g@, fresh_g@) >= 1,
        r.2 matches Err(e) ==> (e != NockError::OutOfSteps && (jets_deterministic(*jets) && e
            != NockError::AxisTooLong ==> !has_result(*jets, me_g@))),
{
    let ghost me = me_g@;
    let ghost fresh = fresh_g@;
    let ghost done = done_g@;
    let ghost (s, f) = me;
    let ghost a = tl(f);
    let ghost (b, c) = (hd(a), tl(a));
    let ghost res0 = res@;
    let ghost frames0 = frames@;
    let ghost d = d_g@;
    let ghost trk = trk_g@;
    let ghost work0 = work;
    let ghost dc = if fresh {
        prem_a(d)
    } else if work is Nock2ComputeResult {
        prem_c(d)
    } else {
        prem_b(d)
    };
    proof {
        if trk {
            assert(evaluates(*jets, s, f, concl(d)->Some_0.2));
            assert(has_result(*jets, me));
            assert(step_ok(*jets, s, f, concl(d)->Some_0.2, concl(prem_a(d)), concl(prem_b(d)), concl(prem_c(d))));
        }
    }
    let mut subj = subj;
    let mut res = res;
    let mut next: Option<Noun> = None;
    match work {
        NockWork::Done => {},
        NockWork::CellComputeHead(h, t) => {
            frames.push(NockWork::CellComputeTail(t));
            next = Some(h);
        },
        NockWork::CellComputeTail(t) => {
            frames.push(NockWork::CellCons(res));
            res = Noun::atom(0);
            next = Some(t);
        },
        NockWork::CellCons(head) => {
            proof {
                rule_cell(*jets, s, f, head@, res0);
            }
            res = Noun::cell(head, res);
        },
        NockWork::Nock0Axis(axis) => {
            match axis_of(&axis) {
                Ok(at) => match slot(&subj, at) {
                    Ok(x) => {
                        proof {
                            rule_axis(*jets, s, f, x@);
                        }
                        res = x;
                    },
                    Err(e) => {
                        proof {
                            if jets_deterministic(*jets) && has_result(*jets, me) {
                                let v = choose|v: Tree| #[trigger] evaluates(*jets, s, f, v);
                                let ps = inversion(*jets, s, f, v);
                            }
                        }
                        return (subj, res, Err(e), Ghost(Deriv::Leaf));
                    },
                },
                Err(e) => {
                    proof {
                        if jets_deterministic(*jets) && has_result(*jets, me) {
                            let v = choose|v: Tree| #[trigger] evaluates(*jets, s, f, v);
                            let ps = inversion(*jets, s, f, v);
                        }
                    }
                    return (subj, res, Err(e), Ghost(Deriv::Leaf));
                },
            }
        },
        NockWork::Nock1Constant(k) => {
            proof {
                rule_constant(*jets, s, f);
            }
            res = k;
        },
        NockWork::Nock2ComputeSubject(x, y) => {
            frames.push(NockWork::Nock2ComputeFormula(y));
            next = Some(x);
        },
        NockWork::Nock2ComputeFormula(y) => {
            frames.push(NockWork::Nock2ComputeResult(res));
            res = Noun::atom(0);
            next = Some(y);
        },
        NockWork::Nock2ComputeResult(new_subject) => {
            let g = res;
            res = Noun::atom(0);
            frames.push(NockWork::Nock2RestoreSubject(subj));
            subj = new_subject;
            next = Some(g);
        },
        NockWork::Nock2RestoreSubject(old_subject) => {
            proof {
                rule_eval(*jets, s, f, done.0, done.1, res0);
            }
            subj = old_subject;
        },
        NockWork::Nock3ComputeChild(x) => {
            frames.push(NockWork::Nock3ComputeType);
            next = Some(x);
        },
        NockWork::Nock3ComputeType => {
            proof {
                rule_is_cell(*jets, s, f, res0);
            }
            res = Noun::atom(if res.is_cell() { 0 } else { 1 });
        },
        NockWork::Nock4ComputeChild(x) => {
            frames.push(NockWork::Nock4Increment);
            next = Some(x);
        },
        NockWork::Nock4Increment => {
            match res {
                Noun::Atom(at) => {
                    let n = inc(&at);
                    proof {
                        rule_increment(*jets, s, f, at.limbs_view(), Tree::Atom(n.limbs_view()));
                    }
                    res = Noun::Atom(n);
                },
                Noun::Cell(_, _) => {
                    proof {
                        if jets_deterministic(*jets) && has_result(*jets, me) {
                            let v = choose|v: Tree| #[trigger] evaluates(*jets, s, f, v);
                            let ps = inversion(*jets, s, f, v);
                            lemma_deterministic(*jets, s, a, res0, out(ps.0));
                        }
                    }
                    return (subj, Noun::atom(0), Err(NockError::IncrementCell), Ghost(Deriv::Leaf));
                },
            }
        },
        NockWork::Nock5ComputeLeftChild(x, y) => {
            frames.push(NockWork::Nock5ComputeRightChild(y));
            next = Some(x);
        },
        NockWork::Nock5ComputeRightChild(y) => {
            frames.push(NockWork::Nock5TestEquals(res));
            res = Noun::atom(0);
            next = Some(y);
        },
        NockWork::Nock5TestEquals(left) => {
            proof {
                rule_equals(*jets, s, f, left@, res0);
            }
            res = Noun::atom(if left.equals(&res) { 0 } else { 1 });
        },
        NockWork::Nock6ComputeTest(x, yes, no) => {
            frames.push(NockWork::Nock6ComputeBranch(yes, no));
            next = Some(x);
        },
        NockWork::Nock6ComputeBranch(yes, no) => {
            let test = match &res {
                Noun::Atom(at) => at.as_u64(),
                Noun::Cell(_, _) => None,
            };
            if test == Some(0u64) {
                frames.push(NockWork::Nock6Done);
                proof {
                    let x = res->Atom_0.limbs_view();
                    assert(evaluates(*jets, s, b, Tree::Atom(x)));
                }
                next = Some(yes);
            } else if test == Some(1u64) {
                frames.push(NockWork::Nock6Done);
                proof {
                    let x = res->Atom_0.limbs_view();
                    assert(evaluates(*jets, s, b, Tree::Atom(x)));
                }
                next = Some(no);
            } else {
                proof {
                    if jets_deterministic(*jets) && has_result(*jets, me) {
                        let v = choose|v: Tree| #[trigger] evaluates(*jets, s, f, v);
                        let ps = inversion(*jets, s, f, v);
                        lemma_deterministic(*jets, s, b, res0, out(ps.0));
                    }
                }
                return (subj, res, Err(NockError::BadTest), Ghost(Deriv::Leaf));
            }
        },
        NockWork::Nock6Done => {
            proof {
                let x = choose|x: Seq<u64>|
                    #[trigger] evaluates(*jets, s, b, Tree::Atom(x)) && ((limbs_value(x) == 0
                        && done == (s, hd(c))) || (limbs_value(x) == 1 && done == (s, tl(c))));
                if limbs_value(x) == 0 {
                    rule_if_yes(*jets, s, f, x, res0);
                } else {
                    rule_if_no(*jets, s, f, x, res0);
                }
            }
        },
        NockWork::Nock7ComputeSubject(x, y) => {
            frames.push(NockWork::Nock7ComputeResult(y));
            next = Some(x);
        },
        NockWork::Nock7ComputeResult(y) => {
            let new_subject = res;
            res = Noun::atom(0);
            frames.push(NockWork::Nock7RestoreSubject(subj));
            subj = new_subject;
            next = Some(y);
        },
        NockWork::Nock7RestoreSubject(old_subject) => {
            proof {
                rule_compose(*jets, s, f, done.0, res0);
            }
            subj = old_subject;
        },
        NockWork::Nock8ComputeSubject(x, y) => {
            frames.push(NockWork::Nock8ComputeResult(y));
            next = Some(x);
        },
        NockWork::Nock8ComputeResult(y) => {
            let head = res;
            res = Noun::atom(0);
            frames.push(NockWork::Nock8RestoreSubject);
            subj = Noun::cell(head, subj);
            next = Some(y);
        },
        NockWork::Nock8RestoreSubject => {
            proof {
                assert(done.0 == crate::semantics::cons(hd(done.0), s));
                rule_push(*jets, s, f, hd(done.0), res0);
                reveal_with_fuel(Noun::wf, 2);
            }
            // The subject handed back is the pushed cell; its tail is the
            // subject from before the push.
            subj = match subj {
                Noun::Cell(_, t) => *t,
                Noun::Atom(at) => Noun::Atom(at),
            };
        },
        NockWork::Nock9ComputeCore(axis, x) => {
            frames.push(NockWork::Nock9ComputeResult(axis));
            next = Some(x);
        },
        NockWork::Nock9ComputeResult(axis) => {
            let arm = match axis_of(&axis) {
                Ok(at) => match slot(&res, at) {
                    Ok(x) => x,
                    Err(e) => {
                        proof {
                            if jets_deterministic(*jets) && has_result(*jets, me) {
                                let v = choose|v: Tree| #[trigger] evaluates(*jets, s, f, v);
                                let ps = inversion(*jets, s, f, v);
                                lemma_deterministic(*jets, s, c, res0, out(ps.0));
                            }
                        }
                        return (subj, res, Err(e), Ghost(Deriv::Leaf));
                    },
                },
                Err(e) => {
                    proof {
                        if jets_deterministic(*jets) && has_result(*jets, me) {
                            let v = choose|v: Tree| #[trigger] evaluates(*jets, s, f, v);
                            let ps = inversion(*jets, s, f, v);
                        }
                    }
                    return (subj, res, Err(e), Ghost(Deriv::Leaf));
                },
            };
            let core = res;
            res = Noun::atom(0);
            frames.push(NockWork::Nock9RestoreSubject(subj));
            subj = core;
            next = Some(arm);
        },
        NockWork::Nock9RestoreSubject(old_subject) => {
            proof {
                rule_invoke(*jets, s, f, done.0, done.1, res0);
            }
            subj = old_subject;
        },
        NockWork::Nock10ComputeTree(axis, patch, tree) => {
            frames.push(NockWork::Nock10ComputePatch(axis, patch));
            next = Some(tree);
        },
        NockWork::Nock10ComputePatch(axis, patch) => {
            frames.push(NockWork::Nock10Edit(axis, res));
            res = Noun::atom(0);
            next = Some(patch);
        },
        NockWork::Nock10Edit(axis, tree) => {
            let ghost tree_v = tree@;
            match axis_of(&axis) {
                Ok(at) => match edit(at, res, tree) {
                    Ok(x) => {
                        proof {
                            rule_edit(*jets, s, f, tree_v, res0, x@);
                        }
                        res = x;
                    },
                    Err(e) => {
                        proof {
                            if jets_deterministic(*jets) && has_result(*jets, me) {
                                let v = choose|v: Tree| #[trigger] evaluates(*jets, s, f, v);
                                let ps = inversion(*jets, s, f, v);
                                lemma_deterministic(*jets, s, c, tree_v, out(ps.0));
                                lemma_deterministic(*jets, s, tl(b), res0, out(ps.1));
                            }
                        }
                        return (subj, Noun::atom(0), Err(e), Ghost(Deriv::Leaf));
                    },
                },
                Err(e) => {
                    proof {
                        if jets_deterministic(*jets) && has_result(*jets, me) {
                            let v = choose|v: Tree| #[trigger] evaluates(*jets, s, f, v);
                            let ps = inversion(*jets, s, f, v);
                        }
                    }
                    return (subj, res, Err(e), Ghost(Deriv::Leaf));
                },
            }
        },
        NockWork::Nock11ComputeHint(hint, body) => {
            proof {
                reveal_with_fuel(Noun::wf, 2);
            }
            let (tag, hint_formula) = match hint {
                Noun::Cell(tag, hf) => (*tag, *hf),
                Noun::Atom(_) => {
                    proof {
                        if jets_deterministic(*jets) && has_result(*jets, me) {
                            let v = choose|v: Tree| #[trigger] evaluates(*jets, s, f, v);
                            let ps = inversion(*jets, s, f, v);
                        }
                    }
                    return (subj, res, Err(NockError::BadArgument), Ghost(Deriv::Leaf));
                },
            };
            assert(b == crate::semantics::cons(tag@, hint_formula@));
            let mut name: Option<&Noun> = None;
            if let Noun::Atom(t) = &tag {
                assert(tag@ == Tree::Atom(t.limbs_view()));
                if t.as_u64() == Some(SHAM_TAG) {
                    if let Noun::Cell(_, nm) = &hint_formula {
                        assert(hint_formula@ == crate::semantics::cons(hd(hint_formula@), nm@));
                        name = Some(&**nm);
                    } else {
                        assert(!(hint_formula@ is Cell));
                    }
                } else {
                    assert(limbs_value(t.limbs_view()) != SHAM_TAG);
                }
            } else {
                assert(tag@ is Cell);
            }
            proof {
                assert(name is Some <==> sham_name(b) is Some);
                assert(name matches Some(nm) ==> sham_name(b) == Some(nm@));
            }
            let answer = match name {
                Some(nm) => jets(nm, &subj),
                None => None,
            };
            match answer {
                Some(v) => {
                    proof {
                        let nm = name->Some_0;
                        assert(call_ensures(*jets, (nm, &subj), Some(v)));
                        assert(jet_gives(*jets, nm@, s, v@));
                        rule_jet(*jets, s, f, v@);
                    }
                    res = v;
                },
                None => {
                    proof {
                        if name is Some {
                            let nm = name->Some_0;
                            assert(call_ensures(*jets, (nm, &subj), None::<Noun>));
                            assert(jet_declines(*jets, nm@, s));
                        }
                        assert(hint_falls_back(*jets, b, s));
                    }
                    frames.push(NockWork::Nock11ComputeResult(body));
                    next = Some(hint_formula);
                },
            }
        },
        NockWork::Nock11ComputeResult(body) => {
            proof {
                if !fresh {
                    assert(evaluates(*jets, s, tl(b), res0));
                }
            }
            frames.push(NockWork::Nock11Done);
            next = Some(body);
        },
        NockWork::Nock11Done => {
            proof {
                if b is Atom {
                    rule_static_hint(*jets, s, f, res0);
                } else {
                    let x = choose|x: Tree| #[trigger] evaluates(*jets, s, tl(b), x);
                    rule_dynamic_hint(*jets, s, f, x, res0);
                }
            }
        },
    }
    proof {
        if next is Some {
            assert(frames@ =~= frames0.push(frames@.last()));
        }
        if trk && next is Some {
            let v = concl(d)->Some_0.2;
            assert(axes_fit(prem_a(d)) && axes_fit(prem_b(d)) && axes_fit(prem_c(d)));
            let (pa, pb) = (concl(prem_a(d)), concl(prem_b(d)));
            assert(valid(*jets, prem_a(d)) && valid(*jets, prem_b(d)));
            if pa is Some {
                assert(concl(prem_a(d)) == Some((pa->Some_0.0, pa->Some_0.1, pa->Some_0.2)));
                assert(evaluates(*jets, pa->Some_0.0, pa->Some_0.1, pa->Some_0.2));
            }
            if pb is Some {
                assert(concl(prem_b(d)) == Some((pb->Some_0.0, pb->Some_0.1, pb->Some_0.2)));
                assert(evaluates(*jets, pb->Some_0.0, pb->Some_0.1, pb->Some_0.2));
            }
            if !fresh {
                if pa is Some && pa->Some_0.0 == done.0 && pa->Some_0.1 == done.1 {
                    lemma_deterministic(*jets, done.0, done.1, res0, pa->Some_0.2);
                }
                if pb is Some && pb->Some_0.0 == done.0 && pb->Some_0.1 == done.1 {
                    lemma_deterministic(*jets, done.0, done.1, res0, pb->Some_0.2);
                }
                if let NockWork::Nock2ComputeResult(ns) = work0 {
                    lemma_deterministic(*jets, s, b, ns@, pa->Some_0.2);
                }
            }
            if sham_name(b) is Some {
                lemma_jet_answers(*jets, sham_name(b)->Some_0, s, v, v);
            }
        }
    }
    (subj, res, Ok(next), Ghost(dc))
}

/// The formula has a derivation within the budget, using only axes that fit,
/// and the jets answer alike.
pub open spec fn owed<J: Fn(&Noun, &Noun) -> Option<Noun>>(jets: J, s: Tree, f: Tree, budget: u64) -> bool {
    jets_deterministic(jets) && exists|d: Deriv| #[trigger] derives(jets, d, s, f) && steps(d) < budget
}

/// The evaluation loop behind `interpret`.
#[verifier::rlimit(100)]
fn run<J: Fn(&Noun, &Noun) -> Option<Noun>>(
    stack: &mut NockStack,
    subject: Noun,
    formula: Noun,
    jets: &J,
    budget: u64,
) -> (r: Result<Noun, NockError>)
    requires
        subject.wf(),
        formula.wf(),
        forall|name: &Noun, s: &Noun| call_requires(*jets, (name, s)),
        forall|name: &Noun, s: &Noun, x: Option<Noun>|
            call_ensures(*jets, (name, s), x) ==> (x matches Some(v) ==> v.wf()),
    ensures
        final(stack).frames_view() == old(stack).frames_view(),
        r matches Ok(x) ==> x.wf() && evaluates(*jets, subject@, formula@, x@),
        decode(formula) is Err ==> r == Err::<Noun, NockError>(decode(formula)->Err_0),
        budget == 0 && decode(formula) is Ok ==> r == Err::<Noun, NockError>(NockError::OutOfSteps),
        r matches Err(e) ==> (jets_deterministic(*jets) && e != NockError::OutOfSteps && e
            != NockError::AxisTooLong ==> !has_result(*jets, (subject@, formula@))),
        owed(*jets, subject@, formula@, budget) ==> r is Ok,
{
    let ghost trk = owed(*jets, subject@, formula@, budget);
    let ghost d0 = if trk {
        choose|d: Deriv| #[trigger] derives(*jets, d, subject@, formula@) && steps(d) < budget
    } else {
        Deriv::Leaf
    };
    let ghost outer = stack.frames@;
    let ghost top_eval = (subject@, formula@);
    let base = stack.frames.len();
    stack.frames.push(NockWork::Done);
    if let Err(e) = push_formula(&mut stack.frames, formula) {
        proof {
            lemma_undecodable(*jets, top_eval.0, formula);
            if trk {
                assert(evaluates(*jets, top_eval.0, top_eval.1, concl(d0)->Some_0.2));
            }
        }
        stack.frames.truncate(base);
        assert(stack.frames@ =~= outer);
        return Err(e);
    }
    let mut subj = subject;
    let mut res = Noun::atom(0);
    let mut fuel = budget;
    let ghost mut ctx: Seq<(Tree, Tree)> = seq![top_eval, top_eval];
    let ghost mut fresh = true;
    let ghost mut done = top_eval;
    let ghost mut ds: Seq<Deriv> = seq![d0, d0];
    let ghost mut costs: Seq<nat> = seq![1nat, steps(d0)];
    proof {
        assert(waits(*jets, stack.frames@[base as int + 0], ctx[0int], ctx[0int + 1]));
        if trk {
            lemma_total_push(Seq::<nat>::empty(), 1nat);
            assert(Seq::<nat>::empty().push(1nat) =~= seq![1nat]);
            lemma_total_push(seq![1nat], steps(d0));
            assert(seq![1nat].push(steps(d0)) =~= costs);
        }
    }
    loop
        invariant
            stack.frames@.subrange(0, base as int) == outer,
            outer == old(stack).frames_view(),
            decode(formula) is Ok,
            budget == 0 ==> fuel == 0,
            frames_ok(stack.frames@, base as int),
            subj.wf(),
            res.wf(),
            forall|name: &Noun, s: &Noun| call_requires(*jets, (name, s)),
            forall|name: &Noun, s: &Noun, x: Option<Noun>|
                call_ensures(*jets, (name, s), x) ==> (x matches Some(v) ==> v.wf()),
            fuel <= budget,
            ctx[0] == top_eval,
            top_eval == (subject@, formula@),
            machine_ok(*jets, stack.frames@, base as int, ctx, fresh, done, subj@, res@),
            jets_deterministic(*jets) && has_result(*jets, top_eval) ==> forall|k: int|
                0 <= k < ctx.len() ==> #[trigger] has_result(*jets, ctx[k]),
            trk == owed(*jets, subject@, formula@, budget),
            trk ==> jets_deterministic(*jets),
            trk ==> ds.len() == ctx.len() && costs.len() == ctx.len() && total(costs) <= fuel,
            trk ==> forall|k: int| 0 <= k < ctx.len() ==> #[trigger] derives(*jets, ds[k], ctx[k].0, ctx[k].1),
            trk ==> forall|k: int| 0 <= k < ctx.len() - 1 ==> #[trigger] costs[k] == frame_cost(stack.frames@[base + k], ds[k], false),
            trk ==> costs.last() == frame_cost(stack.frames@.last(), ds.last(), fresh),
        decreases fuel,
    {
        if fuel == 0 {
            proof {
                if trk {
                    let last = ds.last();
                    assert(steps(last) >= 4 || !fresh);
                    assert(total(costs) >= costs.last());
                }
            }
            stack.frames.truncate(base);
            assert(stack.frames@ =~= outer);
            return Err(NockError::OutOfSteps);
        }
        fuel -= 1;
        let ghost before = stack.frames@;
        let ghost me = ctx.last();
        let work = stack.frames.pop().unwrap();
        assert(stack.frames@ =~= before.drop_last());
        assert(work == before.last());
        proof {
            if ctx.len() > 1 {
                assert(waits(*jets, before[base + (ctx.len() - 2)], ctx[ctx.len() - 2], ctx[ctx.len() - 2 + 1]));
            }
        }
        let is_done = match &work {
            NockWork::Done => true,
            _ => false,
        };
        if is_done {
            assert(stack.frames@ =~= outer);
            return Ok(res);
        }
        let (s2, r2, outcome, child_d) = run_frame(
            &mut stack.frames,
            subj,
            res,
            work,
            jets,
            Ghost(me),
            Ghost(fresh),
            Ghost(done),
            Ghost(ds.last()),
            Ghost(trk),
        );
        proof {
            if trk {
                assert(has_result(*jets, me)) by {
                    assert(derives(*jets, ds[ds.len() - 1], ctx[ctx.len() - 1].0, ctx[ctx.len() - 1].1));
                    assert(evaluates(*jets, me.0, me.1, concl(ds.last())->Some_0.2));
                }
            }
        }
        subj = s2;
        res = r2;
        let next = match outcome {
            Ok(n) => n,
            Err(e) => {
                proof {
                    if jets_deterministic(*jets) && has_result(*jets, top_eval) {
                        assert(has_result(*jets, ctx[ctx.len() - 1]));
                    }
                }
                stack.frames.truncate(base);
                assert(stack.frames@ =~= outer);
                return Err(e);
            },
        };
        match next {
            Some(g) => {
                let ghost gv = g;
                proof {
                    if trk {
                        let c0 = costs;
                        let wc = frame_cost(stack.frames@.last(), ds.last(), false);
                        lemma_total_push(c0.drop_last(), c0.last());
                        assert(c0.drop_last().push(c0.last()) =~= c0);
                        lemma_total_push(c0.drop_last(), wc);
                        lemma_total_push(c0.drop_last().push(wc), steps(child_d@));
                        costs = c0.drop_last().push(wc).push(steps(child_d@));
                        let d_old = ds;
                        ds = ds.push(child_d@);
                        assert forall|k: int| 0 <= k < ds.len() - 1 implies ds[k] == d_old[k] by {}
                        assert forall|k: int| 0 <= k < costs.len() - 2 implies costs[k] == c0[k] by {}
                    }
                    ctx = ctx.push((subj@, g@));
                    fresh = true;
                    if jets_deterministic(*jets) && has_result(*jets, top_eval) {
                        assert(has_result(*jets, ctx[ctx.len() - 2]));
                        assert(waits(*jets, stack.frames@.last(), ctx[ctx.len() - 2], ctx.last()));
                        lemma_child_has_result(*jets, stack.frames@.last(), ctx[ctx.len() - 2], ctx.last());
                        assert forall|k: int| 0 <= k < ctx.len() implies #[trigger] has_result(*jets, ctx[k]) by {
                            if k < ctx.len() - 1 {
                                assert(ctx[k] == ctx.drop_last()[k]);
                            }
                        }
                    }
                }
                if let Err(e) = push_formula(&mut stack.frames, g) {
                    proof {
                        lemma_undecodable(*jets, subj@, gv);
                        if trk {
                            assert(derives(*jets, ds[ds.len() - 1], ctx[ctx.len() - 1].0, ctx[ctx.len() - 1].1));
                            assert(evaluates(*jets, subj@, gv@, concl(ds.last())->Some_0.2));
                        }
                        if jets_deterministic(*jets) && has_result(*jets, top_eval) {
                            assert(has_result(*jets, ctx[ctx.len() - 1]));
                        }
                    }
                    stack.frames.truncate(base);
                    return Err(e);
                }
            },
            None => {
                proof {
                    if trk {
                        let c0 = costs;
                        costs = costs.drop_last();
                        lemma_total_push(costs, c0.last());
                        assert(costs.push(c0.last()) =~= c0);
                        ds = ds.drop_last();
                    }
                    let old_ctx = ctx;
                    done = ctx.last();
                    ctx = ctx.drop_last();
                    fresh = false;
                    if jets_deterministic(*jets) && has_result(*jets, top_eval) {
                        assert forall|k: int| 0 <= k < ctx.len() implies #[trigger] has_result(*jets, ctx[k]) by {
                            assert(ctx[k] == old_ctx[k]);
                        }
                    }
                }
            },
        }
    }
}

/// Evaluates `formula` against `subject`, taking at most `budget` steps. All
/// pending work is kept as frames on `stack`, above what it held before; the
/// stack is left as it was found. `jets` is asked, for a hint `[%sham [f
/// name]]`, for a native result on the current subject; where it gives one,
/// the body of the hint is not evaluated. A result is what Nock gives; with
/// jets that answer alike, any error but running out of steps or an axis too
/// long to address means that the formula has no result at all. Success is
/// owed: with such jets, a derivation within the budget (by `steps`) whose
/// axes fit gives `Ok` of exactly its result.
pub fn interpret<J: Fn(&Noun, &Noun) -> Option<Noun>>(
    stack: &mut NockStack,
    subject: Noun,
    formula: Noun,
    jets: &J,
    budget: u64,
) -> (r: Result<Noun, NockError>)
    requires
        subject.wf(),
        formula.wf(),
        forall|name: &Noun, s: &Noun| call_requires(*jets, (name, s)),
        forall|name: &Noun, s: &Noun, x: Option<Noun>|
            call_ensures(*jets, (name, s), x) ==> (x matches Some(v) ==> v.wf()),
    ensures
        final(stack).frames_view() == old(stack).frames_view(),
        r matches Ok(x) ==> x.wf() && evaluates(*jets, subject@, formula@, x@),
        forall|d: Deriv|
            jets_deterministic(*jets) && #[trigger] derives(*jets, d, subject@, formula@) && steps(d)
                < budget ==> (r is Ok && r->Ok_0@ == concl(d)->Some_0.2),
        decode(formula) is Err ==> r == Err::<Noun, NockError>(decode(formula)->Err_0),
        budget == 0 && decode(formula) is Ok ==> r == Err::<Noun, NockError>(NockError::OutOfSteps),
        r matches Err(e) ==> (jets_deterministic(*jets) && e != NockError::OutOfSteps && e
            != NockError::AxisTooLong ==> !has_result(*jets, (subject@, formula@))),
{
    let ghost (s, f) = (subject@, formula@);
    let r = run(stack, subject, formula, jets, budget);
    proof {
        assert forall|d: Deriv|
            jets_deterministic(*jets) && #[trigger] derives(*jets, d, s, f) && steps(d) < budget implies (
            r is Ok && r->Ok_0@ == concl(d)->Some_0.2) by {
            let v = concl(d)->Some_0.2;
            assert(owed(*jets, s, f, budget));
            assert(evaluates(*jets, s, f, v));
            lemma_deterministic(*jets, s, f, r->Ok_0@, v);
        }
    }
    r
}

} // verus!
