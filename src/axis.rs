use vstd::prelude::*;
use bitvec::order::Lsb0;
use bitvec::slice::BitSlice;
use crate::error::NockError;
use crate::noun::{lemma_value_injective, lemma_value_zero, limbs_value, u64_limbs, Atom, Noun, Tree};

verus! {

/// Fewer limbs than this can always be viewed as a bit slice.
pub const MAX_AXIS_LIMBS: usize = 0x80_0000;

/// Bit `i` of little-endian limbs, counting from the least significant bit of
/// the first limb.
pub open spec fn limb_bit(s: Seq<u64>, i: int) -> bool {
    (s[i / 64] >> ((i % 64) as u64)) & 1 == 1
}

/// `i` is the highest set bit of the limbs.
pub open spec fn is_top_bit(s: Seq<u64>, i: int) -> bool {
    &&& 0 <= i < 64 * s.len()
    &&& limb_bit(s, i)
    &&& forall|j: int| i < j < 64 * s.len() ==> !limb_bit(s, j)
}

/// The path an axis names: its bits below the highest set bit, most
/// significant first, `false` for the head and `true` for the tail. Axis zero
/// names no path.
pub open spec fn axis_path(s: Seq<u64>) -> Option<Seq<bool>> {
    if exists|i: int| is_top_bit(s, i) {
        let top = choose|i: int| is_top_bit(s, i);
        Some(Seq::new(top as nat, |k: int| limb_bit(s, top - 1 - k)))
    } else {
        None
    }
}

/// The subtree reached by following a path from the root.
pub open spec fn follow(t: Tree, path: Seq<bool>) -> Option<Tree>
    decreases path.len(),
{
    if path.len() == 0 {
        Some(t)
    } else {
        match t {
            Tree::Cell(h, tl) => follow(if path[0] { *tl } else { *h }, path.drop_first()),
            Tree::Atom(_) => None,
        }
    }
}

/// The tree with the subtree at the end of a path replaced.
pub open spec fn replace_at(t: Tree, path: Seq<bool>, r: Tree) -> Option<Tree>
    decreases path.len(),
{
    if path.len() == 0 {
        Some(r)
    } else {
        match t {
            Tree::Cell(h, tl) => if path[0] {
                match replace_at(*tl, path.drop_first(), r) {
                    Some(x) => Some(Tree::Cell(h, Box::new(x))),
                    None => None,
                }
            } else {
                match replace_at(*h, path.drop_first(), r) {
                    Some(x) => Some(Tree::Cell(Box::new(x), tl)),
                    None => None,
                }
            },
            Tree::Atom(_) => None,
        }
    }
}

/// What addressing a tree at an axis gives.
pub open spec fn slot_spec(t: Tree, axis: Seq<u64>) -> Result<Tree, NockError> {
    match axis_path(axis) {
        None => Err(NockError::ZeroAxis),
        Some(p) => match follow(t, p) {
            Some(x) => Ok(x),
            None => Err(NockError::AxisThroughAtom),
        },
    }
}

/// What editing a tree at an axis gives.
pub open spec fn edit_spec(t: Tree, axis: Seq<u64>, r: Tree) -> Result<Tree, NockError> {
    match axis_path(axis) {
        None => Err(NockError::ZeroAxis),
        Some(p) => match replace_at(t, p, r) {
            Some(x) => Ok(x),
            None => Err(NockError::AxisThroughAtom),
        },
    }
}

/// Relies on bitvec's `BitSlice::from_slice` (which accepts fewer than
/// `BitSlice::MAX_ELTS` elements) and `BitSlice::last_one`: the index of the
/// highest set bit, bits of each element numbered from the least significant
/// (`Lsb0`), or `None` where no bit is set.
#[verifier::external_body]
fn highest_one(limbs: &Vec<u64>) -> (r: Option<usize>)
    requires
        limbs@.len() < MAX_AXIS_LIMBS,
    ensures
        r matches Some(i) ==> is_top_bit(limbs@, i as int),
        r is None ==> forall|j: int| 0 <= j < 64 * limbs@.len() ==> !limb_bit(limbs@, j),
{
    BitSlice::<u64, Lsb0>::from_slice(limbs.as_slice()).last_one()
}

/// Relies on bitvec's `BitSlice::from_slice` and its indexing: bit `i`, bits of
/// each element numbered from the least significant (`Lsb0`).
#[verifier::external_body]
fn bit_at(limbs: &Vec<u64>, i: usize) -> (r: bool)
    requires
        limbs@.len() < MAX_AXIS_LIMBS,
        i < 64 * limbs@.len(),
    ensures
        r == limb_bit(limbs@, i as int),
{
    BitSlice::<u64, Lsb0>::from_slice(limbs.as_slice())[i]
}

proof fn lemma_top_unique(s: Seq<u64>, i: int, j: int)
    requires
        is_top_bit(s, i),
        is_top_bit(s, j),
    ensures
        i == j,
{
}

/// The path of an axis whose highest set bit is `top`.
proof fn lemma_path_of_top(s: Seq<u64>, top: int)
    requires
        is_top_bit(s, top),
    ensures
        axis_path(s) == Some(Seq::new(top as nat, |k: int| limb_bit(s, top - 1 - k))),
{
    let c = choose|i: int| is_top_bit(s, i);
    lemma_top_unique(s, c, top);
}

/// The axis's highest set bit, or `ZeroAxis`.
fn top_bit(axis: &Atom) -> (r: Result<usize, NockError>)
    requires
        axis.limbs_view().len() < MAX_AXIS_LIMBS,
    ensures
        r matches Ok(top) ==> is_top_bit(axis.limbs_view(), top as int) && axis_path(axis.limbs_view())
            == Some(Seq::new(top as nat, |k: int| limb_bit(axis.limbs_view(), top - 1 - k))),
        r matches Err(e) ==> e == NockError::ZeroAxis && axis_path(axis.limbs_view()) is None,
{
    match highest_one(axis.limbs()) {
        Some(top) => {
            proof {
                lemma_path_of_top(axis.limbs_view(), top as int);
            }
            Ok(top)
        },
        None => Err(NockError::ZeroAxis),
    }
}


/// The subtree of `noun` at `axis`.
pub fn slot(noun: &Noun, axis: &Atom) -> (r: Result<Noun, NockError>)
    requires
        noun.wf(),
        axis.limbs_view().len() < MAX_AXIS_LIMBS,
    ensures
        r matches Ok(x) ==> x.wf() && slot_spec(noun@, axis.limbs_view()) == Ok::<Tree, NockError>(x@),
        r matches Err(e) ==> slot_spec(noun@, axis.limbs_view()) == Err::<Tree, NockError>(e),
{
    let top = match top_bit(axis) {
        Ok(t) => t,
        Err(e) => return Err(e),
    };
    let limbs = axis.limbs();
    let ghost path = axis_path(axis.limbs_view())->Some_0;
    let mut cur: &Noun = noun;
    let mut cursor: usize = top;
    assert(path.subrange(0, top as int) =~= path);
    while cursor > 0
        invariant
            cursor <= top < 64 * limbs@.len(),
            limbs@ == axis.limbs_view(),
            limbs@.len() < MAX_AXIS_LIMBS,
            path == Seq::new(top as nat, |k: int| limb_bit(limbs@, top - 1 - k)),
            axis_path(axis.limbs_view()) == Some(path),
            cur.wf(),
            follow(noun@, path) == follow(cur@, path.subrange(top - cursor, top as int)),
        decreases cursor,
    {
        let ghost rest = path.subrange(top - cursor, top as int);
        cursor -= 1;
        let b = bit_at(limbs, cursor);
        assert(rest.drop_first() =~= path.subrange(top - cursor, top as int));
        match cur {
            Noun::Cell(h, t) => {
                cur = if b { &**t } else { &**h };
            },
            Noun::Atom(a) => {
                assert(cur@ == Tree::Atom(a.limbs_view()));
                assert(rest.len() > 0);
                return Err(NockError::AxisThroughAtom);
            },
        }
    }
    assert(path.subrange(top as int, top as int) =~= Seq::<bool>::empty());
    Ok(cur.copy())
}

/// The subtree of `noun` at an axis given as a `u64`.
pub fn raw_slot(noun: &Noun, axis: u64) -> (r: Result<Noun, NockError>)
    requires
        noun.wf(),
    ensures
        r matches Ok(x) ==> x.wf() && slot_spec(noun@, u64_limbs(axis)) == Ok::<Tree, NockError>(x@),
        r matches Err(e) ==> slot_spec(noun@, u64_limbs(axis)) == Err::<Tree, NockError>(e),
{
    let a = Atom::from_u64(axis);
    slot(noun, &a)
}

/// The spine above the edited subtree, rebuilt around a new subtree: each
/// step holds its direction and the sibling that the edit leaves in place.
pub open spec fn rebuild(spine: Seq<(bool, Tree)>, x: Tree) -> Tree
    decreases spine.len(),
{
    if spine.len() == 0 {
        x
    } else {
        let (dir, sib) = spine.last();
        let node = if dir {
            Tree::Cell(Box::new(sib), Box::new(x))
        } else {
            Tree::Cell(Box::new(x), Box::new(sib))
        };
        rebuild(spine.drop_last(), node)
    }
}

/// `tree` with the subtree at `axis` replaced by `patch`. Every subtree off
/// the path is moved into the result, not copied.
pub fn edit(axis: &Atom, patch: Noun, tree: Noun) -> (r: Result<Noun, NockError>)
    requires
        tree.wf(),
        patch.wf(),
        axis.limbs_view().len() < MAX_AXIS_LIMBS,
    ensures
        r matches Ok(x) ==> x.wf() && edit_spec(tree@, axis.limbs_view(), patch@) == Ok::<Tree, NockError>(x@),
        r matches Err(e) ==> edit_spec(tree@, axis.limbs_view(), patch@) == Err::<Tree, NockError>(e),
{
    let top = match top_bit(axis) {
        Ok(t) => t,
        Err(e) => return Err(e),
    };
    let limbs = axis.limbs();
    let ghost path = axis_path(axis.limbs_view())->Some_0;
    let ghost whole = tree@;
    let mut cur: Noun = tree;
    let mut dirs: Vec<bool> = Vec::new();
    let mut sibs: Vec<Noun> = Vec::new();
    let ghost mut spine: Seq<(bool, Tree)> = Seq::empty();
    let mut cursor: usize = top;
    assert(path.subrange(0, top as int) =~= path);
    while cursor > 0
        invariant
            cursor <= top < 64 * limbs@.len(),
            limbs@ == axis.limbs_view(),
            limbs@.len() < MAX_AXIS_LIMBS,
            path == Seq::new(top as nat, |k: int| limb_bit(limbs@, top - 1 - k)),
            axis_path(axis.limbs_view()) == Some(path),
            whole == tree@,
            cur.wf(),
            dirs@.len() == sibs@.len() == spine.len(),
            forall|i: int| 0 <= i < spine.len() ==> spine[i] == (dirs@[i], sibs@[i]@) && sibs@[i].wf(),
            match replace_at(cur@, path.subrange(top - cursor, top as int), patch@) {
                Some(x) => replace_at(whole, path, patch@) == Some(rebuild(spine, x)),
                None => replace_at(whole, path, patch@) is None,
            },
        decreases cursor,
    {
        let ghost rest = path.subrange(top - cursor, top as int);
        cursor -= 1;
        let b = bit_at(limbs, cursor);
        assert(rest.drop_first() =~= path.subrange(top - cursor, top as int));
        let ghost curv = cur@;
        match cur {
            Noun::Cell(h, t) => {
                let ghost sib = if b { h@ } else { t@ };
                if b {
                    dirs.push(true);
                    sibs.push(*h);
                    cur = *t;
                } else {
                    dirs.push(false);
                    sibs.push(*t);
                    cur = *h;
                }
                proof {
                    let ghost old_spine = spine;
                    spine = spine.push((b, sib));
                    assert(spine.drop_last() =~= old_spine);
                }
            },
            Noun::Atom(a) => {
                assert(curv == Tree::Atom(a.limbs_view()));
                assert(rest.len() > 0);
                assert(replace_at(curv, rest, patch@) is None);
                return Err(NockError::AxisThroughAtom);
            },
        }
    }
    assert(path.subrange(top as int, top as int) =~= Seq::<bool>::empty());
    let mut acc: Noun = patch;
    while dirs.len() > 0
        invariant
            dirs@.len() == sibs@.len() == spine.len(),
            forall|i: int| 0 <= i < spine.len() ==> spine[i] == (dirs@[i], sibs@[i]@) && sibs@[i].wf(),
            acc.wf(),
            axis_path(axis.limbs_view()) == Some(path),
            whole == tree@,
            replace_at(whole, path, patch@) == Some(rebuild(spine, acc@)),
        decreases dirs@.len(),
    {
        let dir = dirs.pop().unwrap();
        let sib = sibs.pop().unwrap();
        proof {
            spine = spine.drop_last();
        }
        acc = if dir { Noun::cell(sib, acc) } else { Noun::cell(acc, sib) };
    }
    Ok(acc)
}


/// Two paths part ways: at some step they go to different sides, having
/// gone the same way before it. Neither leads through the other's end.
pub open spec fn paths_diverge(p: Seq<bool>, q: Seq<bool>) -> bool {
    exists|k: int|
        0 <= k < p.len() && k < q.len() && p[k] != q[k] && forall|j: int| 0 <= j < k ==> p[j] == q[j]
}

proof fn lemma_follow_replaced(t: Tree, path: Seq<bool>, r: Tree)
    requires
        replace_at(t, path, r) is Some,
    ensures
        follow(replace_at(t, path, r)->Some_0, path) == Some(r),
    decreases path.len(),
{
    if path.len() > 0 {
        if let Tree::Cell(h, tl) = t {
            if path[0] {
                lemma_follow_replaced(*tl, path.drop_first(), r);
            } else {
                lemma_follow_replaced(*h, path.drop_first(), r);
            }
        }
    }
}

proof fn lemma_follow_elsewhere(t: Tree, p: Seq<bool>, q: Seq<bool>, r: Tree, k: int)
    requires
        replace_at(t, p, r) is Some,
        0 <= k < p.len(),
        k < q.len(),
        p[k] != q[k],
        forall|j: int| 0 <= j < k ==> p[j] == q[j],
    ensures
        follow(replace_at(t, p, r)->Some_0, q) == follow(t, q),
    decreases k,
{
    if let Tree::Cell(h, tl) = t {
        if k > 0 {
            assert(p[0] == q[0]);
            let (p_rest, q_rest) = (p.drop_first(), q.drop_first());
            assert forall|j: int| 0 <= j < k - 1 implies p_rest[j] == q_rest[j] by {
                assert(p[j + 1] == q[j + 1]);
            }
            if p[0] {
                lemma_follow_elsewhere(*tl, p_rest, q_rest, r, k - 1);
            } else {
                lemma_follow_elsewhere(*h, p_rest, q_rest, r, k - 1);
            }
        }
    }
}

/// Addressing an edited tree at the edited axis gives the replacement; at any
/// axis whose path parts ways with the edited one, it gives what the tree
/// held there before.
pub proof fn lemma_edit_then_slot(t: Tree, p: Seq<u64>, q: Seq<u64>, r: Tree)
    requires
        edit_spec(t, p, r) is Ok,
    ensures
        slot_spec(edit_spec(t, p, r)->Ok_0, p) == Ok::<Tree, NockError>(r),
        axis_path(q) is Some && paths_diverge(axis_path(p)->Some_0, axis_path(q)->Some_0)
            ==> slot_spec(edit_spec(t, p, r)->Ok_0, q) == slot_spec(t, q),
{
    let pp = axis_path(p)->Some_0;
    lemma_follow_replaced(t, pp, r);
    if axis_path(q) is Some && paths_diverge(pp, axis_path(q)->Some_0) {
        let qq = axis_path(q)->Some_0;
        let k = choose|k: int|
            0 <= k < pp.len() && k < qq.len() && pp[k] != qq[k] && forall|j: int|
                0 <= j < k ==> pp[j] == qq[j];
        lemma_follow_elsewhere(t, pp, qq, r, k);
    }
}

/// Axis zero is refused by addressing and by editing, whatever the tree.
pub proof fn lemma_zero_axis(t: Tree, axis: Atom, r: Tree)
    requires
        axis.wf(),
        axis.value() == 0,
    ensures
        slot_spec(t, axis.limbs_view()) == Err::<Tree, NockError>(NockError::ZeroAxis),
        edit_spec(t, axis.limbs_view(), r) == Err::<Tree, NockError>(NockError::ZeroAxis),
{
    lemma_value_zero(axis.limbs_view());
}

/// Axis one names the whole tree.
pub proof fn lemma_axis_one(t: Tree, axis: Atom)
    requires
        axis.wf(),
        axis.value() == 1,
    ensures
        slot_spec(t, axis.limbs_view()) == Ok::<Tree, NockError>(t),
{
    let one = seq![1u64];
    reveal_with_fuel(limbs_value, 2);
    assert(one.drop_first() =~= Seq::<u64>::empty());
    assert(limbs_value(one) == 1);
    lemma_value_injective(axis.limbs_view(), one);
    assert(forall|j: u64| 0 < j < 64 ==> (1u64 >> j) & 1 != 1) by (bit_vector);
    assert((1u64 >> 0u64) & 1 == 1) by (bit_vector);
    assert forall|j: int| 0 < j < 64 implies !limb_bit(one, j) by {
        assert((1u64 >> (j as u64)) & 1 != 1);
    }
    assert(is_top_bit(one, 0));
    lemma_path_of_top(one, 0);
    assert(axis_path(one)->Some_0 =~= Seq::<bool>::empty());
}

} // verus!
