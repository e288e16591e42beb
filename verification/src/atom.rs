use vstd::prelude::*;

verus! {

/// One element of a parsed pattern.
#[derive(Debug, PartialEq)]
pub enum PatternAtom {
    /// A literal character.
    Char(char),
    /// `\d`: a numeric character.
    Digit,
    /// `\w`: an alphanumeric character or `_`.
    Word,
    /// `[abc]`: one of the listed characters.
    PositiveGroup(String),
    /// `[^abc]`: none of the listed characters.
    NegativeGroup(String),
    /// `.`: any character.
    Wild,
    /// Zero or more repetitions of the inner atom (`*`, and the tail of `+`).
    Star(Box<PatternAtom>),
    /// Zero or one occurrence of the inner atom (`?`).
    Question(Box<PatternAtom>),
    /// `^...`: the rest of the pattern, anchored at the start of the input.
    Start(Vec<PatternAtom>),
    /// `$` at the end of a pattern.
    End,
    /// `(a|b|...)`: the alternatives, each one a capturing group.
    Alternation(Vec<Vec<PatternAtom>>),
    /// `(...)`: a capturing group.
    BackreferenceGroup(Vec<PatternAtom>),
    /// `\n`: the text captured by group `n` (counted from 1).
    BackreferenceInt(usize),
}

/// Mathematical model of a [`PatternAtom`].
pub enum Atom {
    Char(char),
    Digit,
    Word,
    PositiveGroup(Seq<char>),
    NegativeGroup(Seq<char>),
    Wild,
    Star(Box<Atom>),
    Question(Box<Atom>),
    Start(Seq<Atom>),
    End,
    Alternation(Seq<Seq<Atom>>),
    BackreferenceGroup(Seq<Atom>),
    BackreferenceInt(nat),
}

pub open spec fn atom_view(a: PatternAtom) -> Atom
    decreases a,
{
    match a {
        PatternAtom::Char(c) => Atom::Char(c),
        PatternAtom::Digit => Atom::Digit,
        PatternAtom::Word => Atom::Word,
        PatternAtom::PositiveGroup(s) => Atom::PositiveGroup(s@),
        PatternAtom::NegativeGroup(s) => Atom::NegativeGroup(s@),
        PatternAtom::Wild => Atom::Wild,
        PatternAtom::Star(b) => Atom::Star(Box::new(atom_view(*b))),
        PatternAtom::Question(b) => Atom::Question(Box::new(atom_view(*b))),
        PatternAtom::Start(v) => Atom::Start(atoms_view(v@)),
        PatternAtom::End => Atom::End,
        PatternAtom::Alternation(vv) => Atom::Alternation(alternatives_view(vv@)),
        PatternAtom::BackreferenceGroup(v) => Atom::BackreferenceGroup(atoms_view(v@)),
        PatternAtom::BackreferenceInt(n) => Atom::BackreferenceInt(n as nat),
    }
}

pub open spec fn atoms_view(s: Seq<PatternAtom>) -> Seq<Atom>
    decreases s,
{
    if s.len() == 0 {
        Seq::empty()
    } else {
        atoms_view(s.subrange(0, s.len() - 1)).push(atom_view(s[s.len() - 1]))
    }
}

pub open spec fn alternatives_view(s: Seq<Vec<PatternAtom>>) -> Seq<Seq<Atom>>
    decreases s,
{
    if s.len() == 0 {
        Seq::empty()
    } else {
        alternatives_view(s.subrange(0, s.len() - 1)).push(atoms_view(s[s.len() - 1]@))
    }
}

impl View for PatternAtom {
    type V = Atom;

    open spec fn view(&self) -> Atom {
        atom_view(*self)
    }
}


/// Size of an atom: strictly larger than each atom or pattern nested in it.
pub open spec fn atom_size(a: Atom) -> nat
    decreases a,
{
    match a {
        Atom::Star(b) => 1 + atom_size(*b),
        Atom::Question(b) => 1 + atom_size(*b),
        Atom::Start(s) => 1 + pattern_size(s),
        Atom::BackreferenceGroup(s) => 1 + pattern_size(s),
        Atom::Alternation(ss) => 3 + alternatives_size(ss),
        _ => 1,
    }
}

/// Sum of the sizes of the atoms of a pattern.
pub open spec fn pattern_size(s: Seq<Atom>) -> nat
    decreases s,
{
    if s.len() == 0 {
        0
    } else {
        atom_size(s[0]) + pattern_size(s.subrange(1, s.len() as int))
    }
}

pub open spec fn alternatives_size(ss: Seq<Seq<Atom>>) -> nat
    decreases ss,
{
    if ss.len() == 0 {
        0
    } else {
        pattern_size(ss[0]) + alternatives_size(ss.subrange(1, ss.len() as int))
    }
}

pub proof fn lemma_pattern_size_cons(x: Atom, r: Seq<Atom>)
    ensures
        pattern_size(seq![x] + r) == atom_size(x) + pattern_size(r),
{
    let q = seq![x] + r;
    assert(q.subrange(1, q.len() as int) =~= r);
}

pub proof fn lemma_alternative_size(ss: Seq<Seq<Atom>>, k: int)
    requires
        0 <= k < ss.len(),
    ensures
        pattern_size(ss[k]) <= alternatives_size(ss),
    decreases ss.len(),
{
    if k > 0 {
        let t = ss.subrange(1, ss.len() as int);
        lemma_alternative_size(t, k - 1);
        assert(t[k - 1] == ss[k]);
    }
}

pub proof fn lemma_atoms_view(s: Seq<PatternAtom>)
    ensures
        atoms_view(s).len() == s.len(),
        forall|k: int| 0 <= k < s.len() ==> #[trigger] atoms_view(s)[k] == s[k]@,
    decreases s.len(),
{
    if s.len() > 0 {
        let t = s.subrange(0, s.len() - 1);
        lemma_atoms_view(t);
        assert forall|k: int| 0 <= k < s.len() implies #[trigger] atoms_view(s)[k] == s[k]@ by {
            if k < s.len() - 1 {
                assert(t[k] == s[k]);
            }
        }
    }
}

pub proof fn lemma_alternatives_view(s: Seq<Vec<PatternAtom>>)
    ensures
        alternatives_view(s).len() == s.len(),
        forall|k: int| 0 <= k < s.len() ==> #[trigger] alternatives_view(s)[k] == atoms_view(s[k]@),
    decreases s.len(),
{
    if s.len() > 0 {
        let t = s.subrange(0, s.len() - 1);
        lemma_alternatives_view(t);
        assert forall|k: int| 0 <= k < s.len() implies #[trigger] alternatives_view(s)[k] == atoms_view(s[k]@) by {
            if k < s.len() - 1 {
                assert(t[k] == s[k]);
            }
        }
    }
}

pub proof fn lemma_atoms_view_push(s: Seq<PatternAtom>, x: PatternAtom)
    ensures
        atoms_view(s.push(x)) == atoms_view(s).push(x@),
{
    assert(s.push(x).subrange(0, s.len() as int) =~= s);
}

pub proof fn lemma_atoms_view_drop_last(s: Seq<PatternAtom>)
    requires
        s.len() > 0,
    ensures
        atoms_view(s.subrange(0, s.len() - 1)) == atoms_view(s).subrange(0, s.len() - 1),
        atoms_view(s)[s.len() - 1] == s[s.len() - 1]@,
{
    lemma_atoms_view(s);
    lemma_atoms_view(s.subrange(0, s.len() - 1));
    assert(atoms_view(s.subrange(0, s.len() - 1)) =~= atoms_view(s).subrange(0, s.len() - 1));
}

pub proof fn lemma_alternatives_view_push(s: Seq<Vec<PatternAtom>>, x: Vec<PatternAtom>)
    ensures
        alternatives_view(s.push(x)) == alternatives_view(s).push(atoms_view(x@)),
{
    assert(s.push(x).subrange(0, s.len() as int) =~= s);
}

pub proof fn lemma_char_view(c: char)
    ensures
        PatternAtom::Char(c)@ == Atom::Char(c),
{
}

pub proof fn lemma_repeat_view(a: PatternAtom)
    ensures
        PatternAtom::Star(Box::new(a))@ == Atom::Star(Box::new(a@)),
        PatternAtom::Question(Box::new(a))@ == Atom::Question(Box::new(a@)),
{
}

pub proof fn lemma_atoms_view_subrange(s: Seq<PatternAtom>, a: int, b: int)
    requires
        0 <= a <= b <= s.len(),
    ensures
        atoms_view(s.subrange(a, b)) == atoms_view(s).subrange(a, b),
{
    lemma_atoms_view(s);
    lemma_atoms_view(s.subrange(a, b));
    assert(atoms_view(s.subrange(a, b)) =~= atoms_view(s).subrange(a, b));
}

pub proof fn lemma_atoms_view_concat(s: Seq<PatternAtom>, t: Seq<PatternAtom>)
    ensures
        atoms_view(s + t) == atoms_view(s) + atoms_view(t),
{
    lemma_atoms_view(s);
    lemma_atoms_view(t);
    lemma_atoms_view(s + t);
    assert(atoms_view(s + t) =~= atoms_view(s) + atoms_view(t));
}

/// Two sequences of atoms with the same atoms, taken by their views, have the same view.
pub proof fn lemma_atoms_view_ext(s: Seq<PatternAtom>, t: Seq<PatternAtom>)
    requires
        s.len() == t.len(),
        forall|k: int| 0 <= k < s.len() ==> #[trigger] s[k]@ == t[k]@,
    ensures
        atoms_view(s) == atoms_view(t),
{
    lemma_atoms_view(s);
    lemma_atoms_view(t);
    assert(atoms_view(s) =~= atoms_view(t));
}

pub proof fn lemma_alternatives_view_ext(s: Seq<Vec<PatternAtom>>, t: Seq<Vec<PatternAtom>>)
    requires
        s.len() == t.len(),
        forall|k: int| 0 <= k < s.len() ==> #[trigger] atoms_view(s[k]@) == atoms_view(t[k]@),
    ensures
        alternatives_view(s) == alternatives_view(t),
{
    lemma_alternatives_view(s);
    lemma_alternatives_view(t);
    assert(alternatives_view(s) =~= alternatives_view(t));
}

/// The atoms of `v`, followed by copies of the atoms of `t`.
pub fn append_copies(v: Vec<PatternAtom>, t: &[PatternAtom]) -> (r: Vec<PatternAtom>)
    ensures
        atoms_view(r@) == atoms_view(v@) + atoms_view(t@),
{
    let mut r = v;
    let mut k: usize = 0;
    while k < t.len()
        invariant
            k <= t@.len(),
            r@.len() == v@.len() + k,
            forall|q: int| 0 <= q < v@.len() ==> #[trigger] r@[q]@ == v@[q]@,
            forall|q: int| 0 <= q < k ==> #[trigger] r@[v@.len() + q]@ == t@[q]@,
        decreases t@.len() - k,
    {
        let c = copy_atom(&t[k]);
        r.push(c);
        k = k + 1;
    }
    proof {
        assert forall|q: int| 0 <= q < r@.len() implies #[trigger] r@[q]@ == (v@ + t@)[q]@ by {
            if q >= v@.len() {
                assert(r@[v@.len() + (q - v@.len())]@ == t@[q - v@.len()]@);
            }
        }
        lemma_atoms_view_ext(r@, v@ + t@);
        lemma_atoms_view_concat(v@, t@);
    }
    r
}

impl Clone for PatternAtom {
    /// A deep copy of the atom, with the same view.
    fn clone(&self) -> (r: Self)
        ensures
            r@ == self@,
    {
        copy_atom(self)
    }
}

/// A deep copy of an atom.
pub fn copy_atom(a: &PatternAtom) -> (r: PatternAtom)
    ensures
        r@ == a@,
    decreases a,
{
    match a {
        PatternAtom::Char(c) => PatternAtom::Char(*c),
        PatternAtom::Digit => PatternAtom::Digit,
        PatternAtom::Word => PatternAtom::Word,
        PatternAtom::PositiveGroup(s) => PatternAtom::PositiveGroup(s.clone()),
        PatternAtom::NegativeGroup(s) => PatternAtom::NegativeGroup(s.clone()),
        PatternAtom::Wild => PatternAtom::Wild,
        PatternAtom::Star(b) => PatternAtom::Star(Box::new(copy_atom(b))),
        PatternAtom::Question(b) => PatternAtom::Question(Box::new(copy_atom(b))),
        PatternAtom::Start(v) => PatternAtom::Start(copy_atoms(v)),
        PatternAtom::End => PatternAtom::End,
        PatternAtom::Alternation(vv) => {
            let mut out: Vec<Vec<PatternAtom>> = Vec::new();
            let mut k: usize = 0;
            while k < vv.len()
                invariant
                    k <= vv@.len(),
                    out@.len() == k,
                    forall|j: int| 0 <= j < k ==> #[trigger] atoms_view(out@[j]@) == atoms_view(vv@[j]@),
                    *a == PatternAtom::Alternation(*vv),
                decreases vv@.len() - k,
            {
                proof {
                    assert(decreases_to!(*vv => vv@));
                    assert(decreases_to!(vv@ => vv@[k as int]));
                    assert(decreases_to!(*a => (*a)->Alternation_0));
                    assert(decreases_to!(*a => vv@[k as int]));
                }
                let c = copy_atoms(&vv[k]);
                out.push(c);
                k = k + 1;
            }
            proof {
                lemma_alternatives_view_ext(out@, vv@);
            }
            PatternAtom::Alternation(out)
        },
        PatternAtom::BackreferenceGroup(v) => PatternAtom::BackreferenceGroup(copy_atoms(v)),
        PatternAtom::BackreferenceInt(n) => PatternAtom::BackreferenceInt(*n),
    }
}

/// A deep copy of a sequence of atoms.
pub fn copy_atoms(v: &Vec<PatternAtom>) -> (r: Vec<PatternAtom>)
    ensures
        r@.len() == v@.len(),
        forall|j: int| 0 <= j < v@.len() ==> #[trigger] r@[j]@ == v@[j]@,
        atoms_view(r@) == atoms_view(v@),
    decreases v,
{
    let mut out: Vec<PatternAtom> = Vec::new();
    let mut k: usize = 0;
    while k < v.len()
        invariant
            k <= v@.len(),
            out@.len() == k,
            forall|j: int| 0 <= j < k ==> #[trigger] out@[j]@ == v@[j]@,
        decreases v@.len() - k,
    {
        let c = copy_atom(&v[k]);
        out.push(c);
        k = k + 1;
    }
    proof {
        lemma_atoms_view_ext(out@, v@);
    }
    out
}

} // verus!
