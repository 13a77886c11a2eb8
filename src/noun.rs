use vstd::prelude::*;

verus! {

/// One limb of an atom holds this many values.
pub open spec fn limb_base() -> nat {
    0x1_0000_0000_0000_0000
}

/// The number that little-endian 64-bit limbs stand for.
pub open spec fn limbs_value(s: Seq<u64>) -> nat
    decreases s.len(),
{
    if s.len() == 0 {
        0
    } else {
        s[0] as nat + limb_base() * limbs_value(s.drop_first())
    }
}

/// The limbs of a number below `limb_base()`.
pub open spec fn u64_limbs(n: u64) -> Seq<u64> {
    if n == 0 {
        Seq::empty()
    } else {
        seq![n]
    }
}

/// No limb of value zero at the most significant end.
pub open spec fn normalized(s: Seq<u64>) -> bool {
    s.len() == 0 || s.last() != 0
}

pub proof fn lemma_value_zero(s: Seq<u64>)
    requires
        normalized(s),
    ensures
        limbs_value(s) == 0 <==> s.len() == 0,
    decreases s.len(),
{
    if s.len() > 1 {
        let rest = s.drop_first();
        assert(rest.last() == s.last());
        lemma_value_zero(rest);
        assert(limb_base() * limbs_value(rest) > 0) by (nonlinear_arith)
            requires
                limbs_value(rest) > 0,
                limb_base() > 0,
        ;
    }
}

/// Two normalized limb sequences of equal value are the same sequence.
pub proof fn lemma_value_injective(s: Seq<u64>, t: Seq<u64>)
    requires
        normalized(s),
        normalized(t),
        limbs_value(s) == limbs_value(t),
    ensures
        s == t,
    decreases s.len(),
{
    lemma_value_zero(s);
    lemma_value_zero(t);
    if s.len() > 0 {
        let (s0, t0) = (s[0] as int, t[0] as int);
        let (vs, vt) = (limbs_value(s.drop_first()) as int, limbs_value(t.drop_first()) as int);
        let b = limb_base() as int;
        assert(s0 == t0 && vs == vt) by (nonlinear_arith)
            requires
                s0 + b * vs == t0 + b * vt,
                0 <= s0 < b,
                0 <= t0 < b,
                vs >= 0,
                vt >= 0,
        ;
        if s.len() > 1 {
            assert(s.drop_first().last() == s.last());
        }
        if t.len() > 1 {
            assert(t.drop_first().last() == t.last());
        }
        lemma_value_injective(s.drop_first(), t.drop_first());
        assert(s =~= t.drop_first().insert(0, t[0]));
        assert(t =~= t.drop_first().insert(0, t[0]));
    }
}

/// An arbitrary-precision non-negative integer, as little-endian 64-bit limbs
/// with no zero limb at the top (zero has no limbs at all).
pub struct Atom {
    limbs: Vec<u64>,
}

impl Atom {
    /// The limbs, least significant first.
    pub closed spec fn limbs_view(&self) -> Seq<u64> {
        self.limbs@
    }

    pub open spec fn wf(&self) -> bool {
        normalized(self.limbs_view())
    }

    /// The number the atom stands for.
    pub open spec fn value(&self) -> nat {
        limbs_value(self.limbs_view())
    }

    pub fn from_u64(n: u64) -> (r: Atom)
        ensures
            r.wf(),
            r.value() == n,
            r.limbs_view() == u64_limbs(n),
    {
        let mut limbs: Vec<u64> = Vec::new();
        if n != 0 {
            limbs.push(n);
        }
        let r = Atom { limbs };
        proof {
            reveal_with_fuel(limbs_value, 2);
            assert(r.limbs@ =~= u64_limbs(n));
            if n != 0 {
                assert(r.limbs@.drop_first() =~= Seq::<u64>::empty());
            }
        }
        r
    }

    /// Builds an atom from little-endian limbs, dropping zero limbs at the top.
    pub fn from_limbs(limbs: Vec<u64>) -> (r: Atom)
        ensures
            r.wf(),
            r.value() == limbs_value(limbs@),
    {
        let mut limbs = limbs;
        let ghost orig = limbs@;
        while limbs.len() > 0 && limbs[limbs.len() - 1] == 0
            invariant
                limbs_value(limbs@) == limbs_value(orig),
            decreases limbs.len(),
        {
            let ghost before = limbs@;
            limbs.pop();
            proof {
                lemma_value_trailing_zero(limbs@);
                assert(before =~= limbs@.push(0));
            }
        }
        Atom { limbs }
    }

    /// The limbs, least significant first.
    pub fn limbs(&self) -> (r: &Vec<u64>)
        ensures
            r@ == self.limbs_view(),
    {
        &self.limbs
    }

    /// The atom as a `u64`, where it fits in one.
    pub fn as_u64(&self) -> (r: Option<u64>)
        requires
            self.wf(),
        ensures
            r matches Some(n) ==> n == self.value(),
            r is None <==> self.value() >= limb_base(),
    {
        proof {
            lemma_value_zero(self.limbs@);
        }
        if self.limbs.len() == 0 {
            Some(0)
        } else if self.limbs.len() == 1 {
            proof {
                reveal_with_fuel(limbs_value, 2);
                assert(self.limbs@.drop_first() =~= Seq::<u64>::empty());
            }
            Some(self.limbs[0])
        } else {
            proof {
                let rest = self.limbs@.drop_first();
                assert(rest.last() == self.limbs@.last());
                lemma_value_zero(rest);
                assert(limb_base() * limbs_value(rest) >= limb_base()) by (nonlinear_arith)
                    requires
                        limbs_value(rest) >= 1,
                ;
            }
            None
        }
    }

    pub fn is_zero(&self) -> (r: bool)
        requires
            self.wf(),
        ensures
            r == (self.value() == 0),
    {
        proof {
            lemma_value_zero(self.limbs@);
        }
        self.limbs.len() == 0
    }

    /// Numeric equality, limb by limb.
    pub fn equals(&self, other: &Atom) -> (r: bool)
        requires
            self.wf(),
            other.wf(),
        ensures
            r == (self.value() == other.value()),
            r == (self.limbs_view() == other.limbs_view()),
    {
        proof {
            if self.value() == other.value() {
                lemma_value_injective(self.limbs@, other.limbs@);
            }
        }
        if self.limbs.len() != other.limbs.len() {
            return false;
        }
        let mut i: usize = 0;
        while i < self.limbs.len()
            invariant
                self.limbs@.len() == other.limbs@.len(),
                self.value() == other.value() ==> self.limbs@ == other.limbs@,
                forall|j: int| 0 <= j < i ==> self.limbs@[j] == other.limbs@[j],
            decreases self.limbs@.len() - i,
        {
            if self.limbs[i] != other.limbs[i] {
                return false;
            }
            i += 1;
        }
        proof {
            assert(self.limbs@ =~= other.limbs@);
        }
        true
    }

    pub fn copy(&self) -> (r: Atom)
        ensures
            r.limbs_view() == self.limbs_view(),
    {
        Atom { limbs: self.limbs.clone() }
    }
}

pub proof fn lemma_value_trailing_zero(s: Seq<u64>)
    ensures
        limbs_value(s.push(0)) == limbs_value(s),
    decreases s.len(),
{
    reveal_with_fuel(limbs_value, 2);
    if s.len() == 0 {
        assert(s.push(0).drop_first() =~= Seq::<u64>::empty());
        assert(limbs_value(s.push(0)) == 0 + limb_base() * 0);
    } else {
        assert(s.push(0)[0] == s[0]);
        lemma_value_trailing_zero(s.drop_first());
        assert(s.push(0).drop_first() =~= s.drop_first().push(0));
    }
}


/// The mathematical value of a noun: a binary tree with numbers at its
/// leaves, each number written as its normalized limbs (so that equal numbers
/// have equal leaves).
pub enum Tree {
    Atom(Seq<u64>),
    Cell(Box<Tree>, Box<Tree>),
}

/// A noun: an atom, or a cell of two nouns.
pub enum Noun {
    Atom(Atom),
    Cell(Box<Noun>, Box<Noun>),
}

/// The tree that a noun stands for.
pub open spec fn tree_of(n: Noun) -> Tree
    decreases n,
{
    match n {
        Noun::Atom(a) => Tree::Atom(a.limbs_view()),
        Noun::Cell(h, t) => Tree::Cell(Box::new(tree_of(*h)), Box::new(tree_of(*t))),
    }
}

impl View for Noun {
    type V = Tree;

    open spec fn view(&self) -> Tree {
        tree_of(*self)
    }
}

impl Noun {
    /// Every atom in the noun is normalized.
    pub open spec fn wf(&self) -> bool
        decreases self,
    {
        match self {
            Noun::Atom(a) => a.wf(),
            Noun::Cell(h, t) => h.wf() && t.wf(),
        }
    }

    pub fn atom(n: u64) -> (r: Noun)
        ensures
            r.wf(),
            r@ == Tree::Atom(u64_limbs(n)),
    {
        Noun::Atom(Atom::from_u64(n))
    }

    pub fn cell(head: Noun, tail: Noun) -> (r: Noun)
        ensures
            r == Noun::Cell(Box::new(head), Box::new(tail)),
            r@ == Tree::Cell(Box::new(head@), Box::new(tail@)),
    {
        Noun::Cell(Box::new(head), Box::new(tail))
    }

    pub fn is_cell(&self) -> (r: bool)
        ensures
            r == (self is Cell),
    {
        match self {
            Noun::Atom(_) => false,
            Noun::Cell(_, _) => true,
        }
    }

    /// A copy of the noun, equal to it in every part.
    pub fn copy(&self) -> (r: Noun)
        ensures
            r@ == self@,
            r.wf() == self.wf(),
        decreases self,
    {
        match self {
            Noun::Atom(a) => Noun::Atom(a.copy()),
            Noun::Cell(h, t) => {
                let hc = (**h).copy();
                let tc = (**t).copy();
                Noun::Cell(Box::new(hc), Box::new(tc))
            },
        }
    }

    /// Structural equality: the same tree with the same numbers at its leaves.
    pub fn equals(&self, other: &Noun) -> (r: bool)
        requires
            self.wf(),
            other.wf(),
        ensures
            r == (self@ == other@),
        decreases self,
    {
        match (self, other) {
            (Noun::Atom(a), Noun::Atom(b)) => a.equals(b),
            (Noun::Cell(h1, t1), Noun::Cell(h2, t2)) => {
                (**h1).equals(&**h2) && (**t1).equals(&**t2)
            },
            _ => false,
        }
    }
}

/// Carrying one through a run of all-ones limbs leaves zeros below the first
/// limb that can take it.
proof fn lemma_carry(s: Seq<u64>, r: Seq<u64>, i: int)
    requires
        0 <= i <= s.len(),
        i <= r.len(),
        forall|j: int| 0 <= j < i ==> s[j] == u64::MAX && r[j] == 0,
        limbs_value(r.subrange(i, r.len() as int)) == limbs_value(s.subrange(i, s.len() as int)) + 1,
    ensures
        limbs_value(r) == limbs_value(s) + 1,
    decreases i,
{
    if i == 0 {
        assert(r.subrange(0, r.len() as int) =~= r);
        assert(s.subrange(0, s.len() as int) =~= s);
    } else {
        let (s1, r1) = (s.drop_first(), r.drop_first());
        assert(s1.subrange(i - 1, s1.len() as int) =~= s.subrange(i, s.len() as int));
        assert(r1.subrange(i - 1, r1.len() as int) =~= r.subrange(i, r.len() as int));
        lemma_carry(s1, r1, i - 1);
        let (vs, vr) = (limbs_value(s1) as int, limbs_value(r1) as int);
        let b = limb_base() as int;
        assert(0 + b * vr == (b - 1) + b * vs + 1) by (nonlinear_arith)
            requires
                vr == vs + 1,
        ;
    }
}

/// The successor of an atom.
pub fn inc(atom: &Atom) -> (r: Atom)
    requires
        atom.wf(),
    ensures
        r.wf(),
        r.value() == atom.value() + 1,
{
    let src = atom.limbs();
    let n = src.len();
    let mut i: usize = 0;
    while i < n && src[i] == u64::MAX
        invariant
            i <= n == src@.len(),
            forall|j: int| 0 <= j < i ==> src@[j] == u64::MAX,
        decreases n - i,
    {
        i += 1;
    }
    let mut limbs: Vec<u64> = Vec::new();
    let mut k: usize = 0;
    while k < i
        invariant
            k <= i <= n == src@.len(),
            limbs@.len() == k,
            forall|j: int| 0 <= j < k ==> limbs@[j] == 0,
        decreases i - k,
    {
        limbs.push(0);
        k += 1;
    }
    if i == n {
        limbs.push(1);
        proof {
            reveal_with_fuel(limbs_value, 2);
            let rest = limbs@.subrange(i as int, limbs@.len() as int);
            assert(rest.drop_first() =~= Seq::<u64>::empty());
            assert(src@.subrange(i as int, n as int) =~= Seq::<u64>::empty());
        }
    } else {
        limbs.push(src[i] + 1);
        k = i + 1;
        while k < n
            invariant
                i < k <= n == src@.len(),
                limbs@.len() == k,
                forall|j: int| 0 <= j < i ==> limbs@[j] == 0,
                limbs@[i as int] == src@[i as int] + 1,
                forall|j: int| i < j < k ==> limbs@[j] == src@[j],
            decreases n - k,
        {
            limbs.push(src[k]);
            k += 1;
        }
        proof {
            let rest = limbs@.subrange(i as int, n as int);
            let srest = src@.subrange(i as int, n as int);
            assert(rest.drop_first() =~= srest.drop_first());
        }
    }
    proof {
        lemma_carry(src@, limbs@, i as int);
    }
    let r = Atom { limbs };
    r
}

} // verus!
