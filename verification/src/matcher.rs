use vstd::prelude::*;
use crate::atom::{
    Atom, PatternAtom, pattern_size, atom_size, alternatives_size, lemma_pattern_size_cons,
    atoms_view, alternatives_view, lemma_atoms_view, lemma_atoms_view_subrange,
    lemma_alternatives_view, lemma_alternative_size, append_copies,
};
use crate::parse::{PatternError, parse, parse_chars};
use crate::text::{
    strings_view, string_from_chars, is_numeric, is_alphanumeric, is_numeric_char, is_alphanumeric_char, chars_of,
    contains_char, copy_chars, copy_char_vecs, char_vecs_view, lemma_char_vecs_view_push,
};

verus! {

/// How matching a pattern against a text ends.
pub enum Outcome {
    /// The pattern matched the first `n` characters of the text.
    Matched(nat),
    /// The pattern does not match at the start of the text.
    NoMatch,
    /// Matching reached a step that has no meaning: an atom that cannot stand
    /// where it stands, a back-reference numbered 0, a position past the end
    /// of the text, or a captured text that is not a well-formed pattern.
    Fault,
    /// Back-references were expanded, one inside another, more times than
    /// the budget allows.
    OutOfFuel,
}

/// Whether the single-character atom `a` accepts the start of `s`;
/// `None` for an atom that is not a single-character test.
pub open spec fn at_start(s: Seq<char>, a: Atom) -> Option<bool> {
    match a {
        Atom::Char(c) => Some(s.len() > 0 && s[0] == c),
        Atom::Digit => Some(s.len() > 0 && is_numeric(s[0])),
        Atom::Word => Some(s.len() > 0 && (is_alphanumeric(s[0]) || s[0] == '_')),
        Atom::PositiveGroup(g) => Some(s.len() > 0 && g.contains(s[0])),
        Atom::NegativeGroup(g) => Some(!(s.len() > 0 && g.contains(s[0]))),
        Atom::End => Some(s.len() == 0),
        Atom::Wild => Some(s.len() > 0),
        _ => None,
    }
}

/// Matching the pattern `p` against the start of the text `s`, with `g` the
/// texts captured so far and `f` the number of nested back-reference
/// expansions allowed.
pub open spec fn match_prefix(f: nat, s: Seq<char>, p: Seq<Atom>, g: Seq<Seq<char>>) -> Outcome {
    run(f, s, p, 0, g)
}

/// Matching the remaining atoms `r` of a pattern against `s`, from position
/// `i` of `s` on, with `g` the texts captured so far. The outcome counts
/// matched characters from the start of `s`.
pub open spec fn run(f: nat, s: Seq<char>, r: Seq<Atom>, i: int, g: Seq<Seq<char>>) -> Outcome
    decreases f, pattern_size(r), s.len() - i, 1int,
{
    if r.len() == 0 {
        if 0 <= i <= s.len() {
            Outcome::Matched(i as nat)
        } else {
            Outcome::Fault
        }
    } else {
        let rest = r.subrange(1, r.len() as int);
        proof {
            assert(pattern_size(r) == atom_size(r[0]) + pattern_size(rest));
        }
        if i < 0 {
            Outcome::Fault
        } else if i > s.len() {
            // Past the end of the text: only a few atoms get by without reading it.
            match r[0] {
                Atom::End => if s.len() == 0 {
                    run(f, s, rest, i, g)
                } else {
                    Outcome::NoMatch
                },
                Atom::BackreferenceInt(n) => if 1 <= n <= g.len() || n == 0 {
                    Outcome::Fault
                } else {
                    Outcome::NoMatch
                },
                Atom::Alternation(alts) => if alts.len() == 0 {
                    Outcome::NoMatch
                } else {
                    Outcome::Fault
                },
                _ => Outcome::Fault,
            }
        } else {
            match r[0] {
                Atom::Star(sub) => star(f, s, *sub, rest, i, g),
                Atom::Question(sub) => {
                    let first = if rest.len() > 0 {
                        run(f, s.subrange(i, s.len() as int), rest, 0, g)
                    } else {
                        Outcome::NoMatch
                    };
                    match first {
                        Outcome::Matched(j) => Outcome::Matched((i + j) as nat),
                        Outcome::NoMatch => if i == s.len() {
                            run(f, s, rest, i, g)
                        } else {
                            match at_start(s.subrange(i, s.len() as int), *sub) {
                                None => Outcome::Fault,
                                Some(true) => run(f, s, rest, i + 1, g),
                                Some(false) => run(f, s, rest, i, g),
                            }
                        },
                        other => other,
                    }
                },
                Atom::BackreferenceGroup(sub) => match run(f, s.subrange(i, s.len() as int), sub, 0, g) {
                    Outcome::Matched(j) => run(f, s, rest, i + j, g.push(s.subrange(i, i + j))),
                    other => other,
                },
                Atom::BackreferenceInt(n) => if n == 0 {
                    Outcome::Fault
                } else if n <= g.len() {
                    match parse(g[n - 1]) {
                        Err(_) => Outcome::Fault,
                        Ok(atoms) => if f == 0 {
                            Outcome::OutOfFuel
                        } else {
                            match run((f - 1) as nat, s.subrange(i, s.len() as int), atoms + rest, 0, g) {
                                Outcome::Matched(j) => Outcome::Matched((i + j) as nat),
                                other => other,
                            }
                        },
                    }
                } else {
                    Outcome::NoMatch
                },
                Atom::Alternation(alts) => alternatives(f, s, alts, rest, i, g),
                Atom::End => if i == s.len() {
                    run(f, s, rest, i, g)
                } else {
                    Outcome::NoMatch
                },
                other => match at_start(s.subrange(i, s.len() as int), other) {
                    None => Outcome::Fault,
                    Some(false) => Outcome::NoMatch,
                    Some(true) => run(f, s, rest, i + 1, g),
                },
            }
        }
    }
}

/// A starred atom `sub` at position `i`: first the rest of the pattern is
/// tried there, then `sub` takes one more character and the attempt repeats.
pub open spec fn star(f: nat, s: Seq<char>, sub: Atom, rest: Seq<Atom>, i: int, g: Seq<Seq<char>>) -> Outcome
    decreases f, pattern_size(rest) + atom_size(sub) + 1, s.len() - i, 0int,
{
    let first = if rest.len() > 0 && 0 <= i {
        run(f, s.subrange(i, s.len() as int), rest, 0, g)
    } else {
        Outcome::NoMatch
    };
    match first {
        Outcome::Matched(j) => Outcome::Matched((i + j) as nat),
        Outcome::NoMatch => if i >= s.len() || i < 0 {
            run(f, s, rest, i, g)
        } else {
            match at_start(s.subrange(i, s.len() as int), sub) {
                None => Outcome::Fault,
                Some(false) => run(f, s, rest, i, g),
                Some(true) => star(f, s, sub, rest, i + 1, g),
            }
        },
        other => other,
    }
}

/// An alternation at position `i`: each alternative, in order, is tried as a
/// capturing group followed by the rest of the pattern; the first that
/// matches decides.
pub open spec fn alternatives(f: nat, s: Seq<char>, alts: Seq<Seq<Atom>>, rest: Seq<Atom>, i: int, g: Seq<Seq<char>>) -> Outcome
    decreases f, 2 + pattern_size(rest) + alternatives_size(alts), s.len() - i, alts.len(),
{
    if alts.len() == 0 {
        Outcome::NoMatch
    } else {
        proof {
            lemma_pattern_size_cons(Atom::BackreferenceGroup(alts[0]), rest);
        }
        match run(f, s.subrange(i, s.len() as int), seq![Atom::BackreferenceGroup(alts[0])] + rest, 0, g) {
            Outcome::Matched(j) => Outcome::Matched((i + j) as nat),
            Outcome::NoMatch => alternatives(f, s, alts.subrange(1, alts.len() as int), rest, i, g),
            other => other,
        }
    }
}

/// Why matching could not give an answer.
#[derive(Debug, Clone, Copy, PartialEq, Eq)]
pub enum MatchFailure {
    /// The pattern cannot be parsed.
    InvalidPattern(PatternError),
    /// Matching reached a step that has no meaning (see [`Outcome::Fault`]).
    Fault,
    /// Back-references were expanded, one inside another, more times than allowed.
    OutOfBudget,
}

/// How a match attempt ended, as computed (see [`Outcome`]).
pub enum MatchOutcome {
    /// The pattern matched this many characters at the start of the text.
    Matched(usize),
    NoMatch,
    Fault,
    OutOfFuel,
}

impl View for MatchOutcome {
    type V = Outcome;

    open spec fn view(&self) -> Outcome {
        match self {
            MatchOutcome::Matched(n) => Outcome::Matched(*n as nat),
            MatchOutcome::NoMatch => Outcome::NoMatch,
            MatchOutcome::Fault => Outcome::Fault,
            MatchOutcome::OutOfFuel => Outcome::OutOfFuel,
        }
    }
}

/// The text from position `start` on.
pub open spec fn suffix(t: Seq<char>, start: int) -> Seq<char> {
    t.subrange(start, t.len() as int)
}

/// Whether atom `a` accepts the character at `pos` of `input`.
fn atom_at(input: &[char], pos: usize, a: &PatternAtom) -> (r: Option<bool>)
    requires
        pos <= input@.len(),
    ensures
        r == at_start(suffix(input@, pos as int), a@),
{
    let has = pos < input.len();
    match a {
        PatternAtom::Char(c) => Some(has && input[pos] == *c),
        PatternAtom::Digit => Some(has && is_numeric_char(input[pos])),
        PatternAtom::Word => Some(has && (is_alphanumeric_char(input[pos]) || input[pos] == '_')),
        PatternAtom::PositiveGroup(g) => {
            if has {
                let gc = chars_of(g.as_str());
                Some(contains_char(gc.as_slice(), input[pos]))
            } else {
                Some(false)
            }
        },
        PatternAtom::NegativeGroup(g) => {
            if has {
                let gc = chars_of(g.as_str());
                Some(!contains_char(gc.as_slice(), input[pos]))
            } else {
                Some(true)
            }
        },
        PatternAtom::End => Some(!has),
        PatternAtom::Wild => Some(has),
        _ => None,
    }
}

/// What one atom's step leaves: the whole outcome, or the position and
/// captured texts from which the rest of the pattern goes on.
enum Step {
    Done(MatchOutcome),
    Continue(usize),
    /// A negative group accepted the end of the text: the position is now
    /// one past the end.
    PastEnd,
}

/// `st` is a faithful step for the first atom of `r` at position `i` of `s`,
/// with `g` the texts captured before the step and `g2` those after it.
spec fn step_ok(f: nat, s: Seq<char>, r: Seq<Atom>, i: int, g: Seq<Seq<char>>, g2: Seq<Seq<char>>, st: Step) -> bool {
    match st {
        Step::Done(o) => o@ == run(f, s, r, i, g) && (o matches MatchOutcome::Matched(j) ==> j <= s.len()),
        Step::Continue(i2) => i2 <= s.len() && run(f, s, r, i, g) == run(f, s, r.subrange(1, r.len() as int), i2 as int, g2),
        Step::PastEnd => run(f, s, r, i, g) == run(f, s, r.subrange(1, r.len() as int), s.len() + 1int, g2),
    }
}

proof fn lemma_suffix_shift(t: Seq<char>, start: int, i: int)
    requires
        0 <= start <= t.len(),
        0 <= i <= t.len() - start,
    ensures
        suffix(t, start).subrange(i, suffix(t, start).len() as int) == suffix(t, start + i),
{
    assert(suffix(t, start).subrange(i, suffix(t, start).len() as int) =~= suffix(t, start + i));
}

/// Matching `pattern` against the input from `start` on, from position `i0`
/// of that suffix, with `groups` the texts captured so far.
fn run_exec(
    input: &[char],
    start: usize,
    pattern: &[PatternAtom],
    i0: usize,
    groups: Vec<Vec<char>>,
    budget: u64,
) -> (out: MatchOutcome)
    requires
        start <= input@.len(),
        i0 <= input@.len() - start,
    ensures
        out@ == run(budget as nat, suffix(input@, start as int), atoms_view(pattern@), i0 as int, char_vecs_view(groups@)),
        out matches MatchOutcome::Matched(j) ==> j <= input@.len() - start,
    decreases budget, pattern_size(atoms_view(pattern@)), 2int,
{
    let ghost s = suffix(input@, start as int);
    let ghost f = budget as nat;
    let slen = input.len() - start;
    let mut rest: &[PatternAtom] = pattern;
    let mut i: usize = i0;
    let mut past = false;
    let mut local = groups;
    let ghost target = run(f, s, atoms_view(pattern@), i0 as int, char_vecs_view(groups@));
    while rest.len() > 0
        invariant
            start <= input@.len(),
            slen == input@.len() - start,
            s == suffix(input@, start as int),
            s.len() == slen,
            f == budget as nat,
            i <= slen,
            target == run(f, s, atoms_view(rest@), if past { slen + 1 } else { i as int }, char_vecs_view(local@)),
            target == run(budget as nat, suffix(input@, start as int), atoms_view(pattern@), i0 as int, char_vecs_view(groups@)),
            pattern_size(atoms_view(rest@)) <= pattern_size(atoms_view(pattern@)),
        decreases rest@.len(),
    {
        let ghost r = atoms_view(rest@);
        let ghost g = char_vecs_view(local@);
        proof {
            lemma_atoms_view(rest@);
            lemma_atoms_view_subrange(rest@, 1, rest@.len() as int);
            assert(pattern_size(r) == atom_size(r[0]) + pattern_size(r.subrange(1, r.len() as int)));
        }
        let ghost pos: int = if past { slen + 1 } else { i as int };
        let st = if past {
            step_past_end(slen, rest, &local)
        } else {
            step_atom(input, start, rest, i, &mut local, budget)
        };
        proof {
            assert(step_ok(f, s, r, pos, g, char_vecs_view(local@), st));
        }
        match st {
            Step::Done(o) => {
                return o;
            },
            Step::Continue(i2) => {
                i = i2;
                past = false;
                let ghost old_rest = rest@;
                rest = &rest[1..rest.len()];
                proof {
                    lemma_atoms_view_subrange(old_rest, 1, old_rest.len() as int);
                    assert(atoms_view(rest@) =~= r.subrange(1, r.len() as int));
                }
            },
            Step::PastEnd => {
                past = true;
                let ghost old_rest = rest@;
                rest = &rest[1..rest.len()];
                proof {
                    lemma_atoms_view_subrange(old_rest, 1, old_rest.len() as int);
                    assert(atoms_view(rest@) =~= r.subrange(1, r.len() as int));
                }
            },
        }
    }
    if !past {
        MatchOutcome::Matched(i)
    } else {
        MatchOutcome::Fault
    }
}

/// The step of an atom at a position past the end of the text.
fn step_past_end(slen: usize, rest: &[PatternAtom], local: &Vec<Vec<char>>) -> (st: Step)
    requires
        rest@.len() > 0,
    ensures
        forall|f: nat, s: Seq<char>| s.len() == slen ==> #[trigger] step_ok(f, s, atoms_view(rest@), slen + 1int,
            char_vecs_view(local@), char_vecs_view(local@), st),
{
    proof {
        lemma_atoms_view(rest@);
        lemma_atoms_view_subrange(rest@, 1, rest@.len() as int);
    }
    match &rest[0] {
        PatternAtom::End => {
            if slen == 0 {
                Step::PastEnd
            } else {
                Step::Done(MatchOutcome::NoMatch)
            }
        },
        PatternAtom::BackreferenceInt(n) => {
            if *n == 0 || *n <= local.len() {
                Step::Done(MatchOutcome::Fault)
            } else {
                Step::Done(MatchOutcome::NoMatch)
            }
        },
        PatternAtom::Alternation(alts) => {
            proof { lemma_alternatives_view(alts@); }
            if alts.len() == 0 {
                Step::Done(MatchOutcome::NoMatch)
            } else {
                Step::Done(MatchOutcome::Fault)
            }
        },
        _ => Step::Done(MatchOutcome::Fault),
    }
}

/// The step of an atom that reads at most one character: `End` and the
/// single-character tests (and `Start`, which faults here).
fn step_single(input: &[char], start: usize, rest: &[PatternAtom], i: usize) -> (st: Step)
    requires
        start <= input@.len(),
        i <= input@.len() - start,
        rest@.len() > 0,
        !(rest@[0] is Star || rest@[0] is Question || rest@[0] is BackreferenceGroup
            || rest@[0] is BackreferenceInt || rest@[0] is Alternation),
    ensures
        forall|f: nat, g: Seq<Seq<char>>| #[trigger] step_ok(f, suffix(input@, start as int), atoms_view(rest@), i as int, g, g, st),
{
    proof {
        lemma_atoms_view(rest@);
        lemma_atoms_view_subrange(rest@, 1, rest@.len() as int);
        lemma_suffix_shift(input@, start as int, i as int);
    }
    let ghost s = suffix(input@, start as int);
    let slen = input.len() - start;
    let head = &rest[0];
    match head {
        PatternAtom::End => {
            if i == slen {
                Step::Continue(i)
            } else {
                Step::Done(MatchOutcome::NoMatch)
            }
        },
        _ => {
            let r = atom_at(input, start + i, head);
            proof {
                assert(at_start(s.subrange(i as int, s.len() as int), head@) == at_start(suffix(input@, start + i), head@));
            }
            match r {
                None => Step::Done(MatchOutcome::Fault),
                Some(false) => Step::Done(MatchOutcome::NoMatch),
                Some(true) => if i < slen {
                    Step::Continue(i + 1)
                } else {
                    Step::PastEnd
                },
            }
        },
    }
}

/// Facts shared by the steps of the atoms that match sub-patterns: the rest
/// of the pattern after the first atom, and its size.
proof fn lemma_rest_facts(rest: Seq<PatternAtom>, tail: Seq<PatternAtom>)
    requires
        rest.len() > 0,
        tail == rest.subrange(1, rest.len() as int),
    ensures
        atoms_view(tail) == atoms_view(rest).subrange(1, rest.len() as int),
        atoms_view(rest).len() == rest.len(),
        atoms_view(rest)[0] == rest[0]@,
        pattern_size(atoms_view(rest)) == atom_size(rest[0]@) + pattern_size(atoms_view(tail)),
{
    lemma_atoms_view(rest);
    lemma_atoms_view_subrange(rest, 1, rest.len() as int);
    let r = atoms_view(rest);
    assert(atoms_view(tail) =~= r.subrange(1, r.len() as int));
    assert(pattern_size(r) == atom_size(r[0]) + pattern_size(r.subrange(1, r.len() as int)));
}

proof fn lemma_group_then(f: nat, t: Seq<char>, a: Seq<Atom>, rv: Seq<Atom>, g: Seq<Seq<char>>)
    ensures
        run(f, t, seq![Atom::BackreferenceGroup(a)] + rv, 0, g) == match run(f, t, a, 0, g) {
            Outcome::Matched(j) => run(f, t, rv, j as int, g.push(t.subrange(0, j as int))),
            other => other,
        },
{
    let q = seq![Atom::BackreferenceGroup(a)] + rv;
    assert(q[0] == Atom::BackreferenceGroup(a));
    assert(q.subrange(1, q.len() as int) =~= rv);
    assert(t.subrange(0, t.len() as int) =~= t);
    assert(run(f, t.subrange(0, t.len() as int), a, 0, g) == run(f, t, a, 0, g));
    match run(f, t, a, 0, g) {
        Outcome::Matched(j) => {
            assert(run(f, t, q.subrange(1, q.len() as int), j as int, g.push(t.subrange(0, j as int)))
                == run(f, t, rv, j as int, g.push(t.subrange(0, j as int))));
        },
        _ => {},
    }
}

/// The step of a starred atom.
fn step_star(input: &[char], start: usize, rest: &[PatternAtom], i: usize, local: &Vec<Vec<char>>, budget: u64) -> (st: Step)
    requires
        start <= input@.len(),
        i <= input@.len() - start,
        rest@.len() > 0,
        rest@[0] is Star,
    ensures
        step_ok(budget as nat, suffix(input@, start as int), atoms_view(rest@), i as int,
            char_vecs_view(local@), char_vecs_view(local@), st),
    decreases budget, pattern_size(atoms_view(rest@)), 0int,
{
    let ghost s = suffix(input@, start as int);
    let ghost f = budget as nat;
    let ghost g = char_vecs_view(local@);
    let slen = input.len() - start;
    assert(input@.len() <= usize::MAX);
    let tail = &rest[1..rest.len()];
    let ghost rv = atoms_view(tail@);
    proof {
        lemma_rest_facts(rest@, tail@);
    }
    match &rest[0] {
        PatternAtom::Star(sub) => {
            let ghost target = run(f, s, atoms_view(rest@), i as int, g);
            assert(target == star(f, s, (**sub)@, rv, i as int, g));
            let mut k = i;
            loop
                invariant_except_break
                    start <= input@.len(),
                    input@.len() <= usize::MAX,
                    slen == input@.len() - start,
                    s == suffix(input@, start as int),
                    s.len() == slen,
                    f == budget as nat,
                    g == char_vecs_view(local@),
                    rv == atoms_view(tail@),
                    pattern_size(rv) < pattern_size(atoms_view(rest@)),
                    k <= slen,
                    target == star(f, s, (**sub)@, rv, k as int, g),
                    target == run(f, s, atoms_view(rest@), i as int, g),
                ensures
                    k <= slen,
                    target == run(f, s, rv, k as int, g),
                decreases slen - k,
            {
                if tail.len() > 0 {
                    let r1 = run_exec(input, start + k, tail, 0, copy_char_vecs(local), budget);
                    proof {
                        lemma_suffix_shift(input@, start as int, k as int);
                        assert(run(f, s.subrange(k as int, s.len() as int), rv, 0, g) == run(f, suffix(input@, start + k), rv, 0, g));
                    }
                    match r1 {
                        MatchOutcome::Matched(j) => {
                            return Step::Done(MatchOutcome::Matched(k + j));
                        },
                        MatchOutcome::NoMatch => {},
                        MatchOutcome::Fault => {
                            return Step::Done(MatchOutcome::Fault);
                        },
                        MatchOutcome::OutOfFuel => {
                            return Step::Done(MatchOutcome::OutOfFuel);
                        },
                    }
                }
                if k >= slen {
                    break;
                }
                let a = atom_at(input, start + k, &**sub);
                proof {
                    lemma_suffix_shift(input@, start as int, k as int);
                    assert(at_start(s.subrange(k as int, s.len() as int), (**sub)@) == at_start(suffix(input@, start + k), (**sub)@));
                }
                match a {
                    None => {
                        return Step::Done(MatchOutcome::Fault);
                    },
                    Some(false) => {
                        break;
                    },
                    Some(true) => {
                        k = k + 1;
                    },
                }
            }
            Step::Continue(k)
        },
        _ => {
            assert(false);
            Step::Done(MatchOutcome::Fault)
        },
    }
}

/// The step of an optional atom.
fn step_question(input: &[char], start: usize, rest: &[PatternAtom], i: usize, local: &Vec<Vec<char>>, budget: u64) -> (st: Step)
    requires
        start <= input@.len(),
        i <= input@.len() - start,
        rest@.len() > 0,
        rest@[0] is Question,
    ensures
        step_ok(budget as nat, suffix(input@, start as int), atoms_view(rest@), i as int,
            char_vecs_view(local@), char_vecs_view(local@), st),
    decreases budget, pattern_size(atoms_view(rest@)), 0int,
{
    let ghost s = suffix(input@, start as int);
    let ghost f = budget as nat;
    let ghost g = char_vecs_view(local@);
    let slen = input.len() - start;
    assert(input@.len() <= usize::MAX);
    let tail = &rest[1..rest.len()];
    let ghost rv = atoms_view(tail@);
    proof {
        lemma_rest_facts(rest@, tail@);
        lemma_suffix_shift(input@, start as int, i as int);
    }
    match &rest[0] {
        PatternAtom::Question(sub) => {
            if tail.len() > 0 {
                let r1 = run_exec(input, start + i, tail, 0, copy_char_vecs(local), budget);
                proof {
                    assert(run(f, s.subrange(i as int, s.len() as int), rv, 0, g) == run(f, suffix(input@, start + i), rv, 0, g));
                }
                match r1 {
                    MatchOutcome::Matched(j) => {
                        return Step::Done(MatchOutcome::Matched(i + j));
                    },
                    MatchOutcome::NoMatch => {},
                    MatchOutcome::Fault => {
                        return Step::Done(MatchOutcome::Fault);
                    },
                    MatchOutcome::OutOfFuel => {
                        return Step::Done(MatchOutcome::OutOfFuel);
                    },
                }
            }
            if i == slen {
                return Step::Continue(i);
            }
            let a = atom_at(input, start + i, &**sub);
            proof {
                assert(at_start(s.subrange(i as int, s.len() as int), (**sub)@) == at_start(suffix(input@, start + i), (**sub)@));
            }
            match a {
                None => Step::Done(MatchOutcome::Fault),
                Some(true) => Step::Continue(i + 1),
                Some(false) => Step::Continue(i),
            }
        },
        _ => {
            assert(false);
            Step::Done(MatchOutcome::Fault)
        },
    }
}

/// The step of a capturing group.
fn step_group(input: &[char], start: usize, rest: &[PatternAtom], i: usize, local: &mut Vec<Vec<char>>, budget: u64) -> (st: Step)
    requires
        start <= input@.len(),
        i <= input@.len() - start,
        rest@.len() > 0,
        rest@[0] is BackreferenceGroup,
    ensures
        step_ok(budget as nat, suffix(input@, start as int), atoms_view(rest@), i as int,
            char_vecs_view(old(local)@), char_vecs_view(final(local)@), st),
    decreases budget, pattern_size(atoms_view(rest@)), 0int,
{
    let ghost s = suffix(input@, start as int);
    let ghost f = budget as nat;
    let ghost g = char_vecs_view(local@);
    let slen = input.len() - start;
    assert(input@.len() <= usize::MAX);
    let tail = &rest[1..rest.len()];
    proof {
        lemma_rest_facts(rest@, tail@);
        lemma_suffix_shift(input@, start as int, i as int);
    }
    match &rest[0] {
        PatternAtom::BackreferenceGroup(sub) => {
            let r1 = run_exec(input, start + i, sub.as_slice(), 0, copy_char_vecs(local), budget);
            proof {
                assert(run(f, s.subrange(i as int, s.len() as int), atoms_view(sub@), 0, g)
                    == run(f, suffix(input@, start + i), atoms_view(sub@), 0, g));
            }
            match r1 {
                MatchOutcome::Matched(j) => {
                    let m = copy_chars(&input[start + i..start + i + j]);
                    proof {
                        lemma_char_vecs_view_push(local@, m);
                        assert(m@ =~= s.subrange(i as int, i + j));
                    }
                    local.push(m);
                    Step::Continue(i + j)
                },
                MatchOutcome::NoMatch => Step::Done(MatchOutcome::NoMatch),
                MatchOutcome::Fault => Step::Done(MatchOutcome::Fault),
                MatchOutcome::OutOfFuel => Step::Done(MatchOutcome::OutOfFuel),
            }
        },
        _ => {
            assert(false);
            Step::Done(MatchOutcome::Fault)
        },
    }
}

/// The step of a back-reference: the captured text, read as a pattern and
/// followed by the rest of the pattern, is matched at the current position.
fn step_backref(input: &[char], start: usize, rest: &[PatternAtom], i: usize, local: &Vec<Vec<char>>, budget: u64) -> (st: Step)
    requires
        start <= input@.len(),
        i <= input@.len() - start,
        rest@.len() > 0,
        rest@[0] is BackreferenceInt,
    ensures
        step_ok(budget as nat, suffix(input@, start as int), atoms_view(rest@), i as int,
            char_vecs_view(local@), char_vecs_view(local@), st),
    decreases budget, pattern_size(atoms_view(rest@)), 0int,
{
    let ghost s = suffix(input@, start as int);
    let ghost f = budget as nat;
    let ghost g = char_vecs_view(local@);
    let slen = input.len() - start;
    assert(input@.len() <= usize::MAX);
    let tail = &rest[1..rest.len()];
    proof {
        lemma_rest_facts(rest@, tail@);
        lemma_suffix_shift(input@, start as int, i as int);
    }
    match &rest[0] {
        PatternAtom::BackreferenceInt(n) => {
            if *n == 0 {
                return Step::Done(MatchOutcome::Fault);
            }
            if *n > local.len() {
                return Step::Done(MatchOutcome::NoMatch);
            }
            let text = &local[*n - 1];
            assert(g[*n - 1] == text@);
            match parse_chars(text.as_slice()) {
                Err(_) => Step::Done(MatchOutcome::Fault),
                Ok(atoms) => {
                    if budget == 0 {
                        return Step::Done(MatchOutcome::OutOfFuel);
                    }
                    let ghost av = atoms_view(atoms@);
                    let combined = append_copies(atoms, tail);
                    let r1 = run_exec(input, start + i, combined.as_slice(), 0, copy_char_vecs(local), budget - 1);
                    proof {
                        assert(run((f - 1) as nat, s.subrange(i as int, s.len() as int), av + atoms_view(tail@), 0, g)
                            == run((f - 1) as nat, suffix(input@, start + i), atoms_view(combined@), 0, g));
                    }
                    match r1 {
                        MatchOutcome::Matched(j) => Step::Done(MatchOutcome::Matched(i + j)),
                        MatchOutcome::NoMatch => Step::Done(MatchOutcome::NoMatch),
                        MatchOutcome::Fault => Step::Done(MatchOutcome::Fault),
                        MatchOutcome::OutOfFuel => Step::Done(MatchOutcome::OutOfFuel),
                    }
                },
            }
        },
        _ => {
            assert(false);
            Step::Done(MatchOutcome::Fault)
        },
    }
}

/// The step of an alternation.
fn step_alternation(input: &[char], start: usize, rest: &[PatternAtom], i: usize, local: &Vec<Vec<char>>, budget: u64) -> (st: Step)
    requires
        start <= input@.len(),
        i <= input@.len() - start,
        rest@.len() > 0,
        rest@[0] is Alternation,
    ensures
        step_ok(budget as nat, suffix(input@, start as int), atoms_view(rest@), i as int,
            char_vecs_view(local@), char_vecs_view(local@), st),
    decreases budget, pattern_size(atoms_view(rest@)), 0int,
{
    let ghost s = suffix(input@, start as int);
    let ghost f = budget as nat;
    let ghost g = char_vecs_view(local@);
    let slen = input.len() - start;
    assert(input@.len() <= usize::MAX);
    let tail = &rest[1..rest.len()];
    let ghost rv = atoms_view(tail@);
    proof {
        lemma_rest_facts(rest@, tail@);
        lemma_suffix_shift(input@, start as int, i as int);
    }
    match &rest[0] {
        PatternAtom::Alternation(alts) => {
            let ghost av = alternatives_view(alts@);
            let ghost target = run(f, s, atoms_view(rest@), i as int, g);
            proof {
                lemma_alternatives_view(alts@);
                assert(av.subrange(0, av.len() as int) =~= av);
            }
            let mut k: usize = 0;
            while k < alts.len()
                invariant
                    start <= input@.len(),
                    input@.len() <= usize::MAX,
                    slen == input@.len() - start,
                    s == suffix(input@, start as int),
                    s.len() == slen,
                    i <= slen,
                    f == budget as nat,
                    g == char_vecs_view(local@),
                    rv == atoms_view(tail@),
                    av == alternatives_view(alts@),
                    av.len() == alts@.len(),
                    forall|q: int| 0 <= q < alts@.len() ==> #[trigger] av[q] == atoms_view(alts@[q]@),
                    pattern_size(rv) + alternatives_size(av) + 3 == pattern_size(atoms_view(rest@)),
                    s.subrange(i as int, s.len() as int) == suffix(input@, start + i),
                    k <= alts@.len(),
                    target == alternatives(f, s, av.subrange(k as int, av.len() as int), rv, i as int, g),
                    target == run(f, s, atoms_view(rest@), i as int, g),
                decreases alts@.len() - k,
            {
                let alt = &alts[k];
                let ghost a = atoms_view(alt@);
                proof {
                    lemma_alternative_size(av, k as int);
                }
                let r1 = run_exec(input, start + i, alt.as_slice(), 0, copy_char_vecs(local), budget);
                let r2 = match r1 {
                    MatchOutcome::Matched(j) => {
                        let m = copy_chars(&input[start + i..start + i + j]);
                        let mut l2 = copy_char_vecs(local);
                        proof {
                            lemma_char_vecs_view_push(l2@, m);
                        }
                        l2.push(m);
                        run_exec(input, start + i, tail, j, l2, budget)
                    },
                    MatchOutcome::NoMatch => MatchOutcome::NoMatch,
                    MatchOutcome::Fault => MatchOutcome::Fault,
                    MatchOutcome::OutOfFuel => MatchOutcome::OutOfFuel,
                };
                let ghost t = suffix(input@, start + i);
                proof {
                    lemma_group_then(f, t, a, rv, g);
                    match r1 {
                        MatchOutcome::Matched(j) => {
                            assert(input@.subrange(start + i, start + i + j) =~= t.subrange(0, j as int));
                        },
                        _ => {},
                    }
                    let rem = av.subrange(k as int, av.len() as int);
                    assert(rem[0] == a);
                    assert(rem.subrange(1, rem.len() as int) =~= av.subrange(k + 1, av.len() as int));
                    assert(alternatives(f, s, rem.subrange(1, rem.len() as int), rv, i as int, g)
                        == alternatives(f, s, av.subrange(k + 1, av.len() as int), rv, i as int, g));
                }
                match r2 {
                    MatchOutcome::Matched(j2) => {
                        return Step::Done(MatchOutcome::Matched(i + j2));
                    },
                    MatchOutcome::NoMatch => {},
                    MatchOutcome::Fault => {
                        return Step::Done(MatchOutcome::Fault);
                    },
                    MatchOutcome::OutOfFuel => {
                        return Step::Done(MatchOutcome::OutOfFuel);
                    },
                }
                k = k + 1;
            }
            Step::Done(MatchOutcome::NoMatch)
        },
        _ => {
            assert(false);
            Step::Done(MatchOutcome::Fault)
        },
    }
}

/// The step of the first atom of `rest` at position `i` of the input suffix
/// that starts at `start`.
fn step_atom(
    input: &[char],
    start: usize,
    rest: &[PatternAtom],
    i: usize,
    local: &mut Vec<Vec<char>>,
    budget: u64,
) -> (st: Step)
    requires
        start <= input@.len(),
        i <= input@.len() - start,
        rest@.len() > 0,
    ensures
        step_ok(budget as nat, suffix(input@, start as int), atoms_view(rest@), i as int,
            char_vecs_view(old(local)@), char_vecs_view(final(local)@), st),
    decreases budget, pattern_size(atoms_view(rest@)), 1int,
{
    proof {
        lemma_atoms_view(rest@);
        lemma_atoms_view_subrange(rest@, 1, rest@.len() as int);
    }
    match &rest[0] {
        PatternAtom::Star(_) => step_star(input, start, rest, i, local, budget),
        PatternAtom::Question(_) => step_question(input, start, rest, i, local, budget),
        PatternAtom::BackreferenceGroup(_) => step_group(input, start, rest, i, local, budget),
        PatternAtom::BackreferenceInt(_) => step_backref(input, start, rest, i, local, budget),
        PatternAtom::Alternation(_) => step_alternation(input, start, rest, i, local, budget),
        _ => {
            let st = step_single(input, start, rest, i);
            proof {
                assert(step_ok(budget as nat, suffix(input@, start as int), atoms_view(rest@), i as int,
                    char_vecs_view(local@), char_vecs_view(local@), st));
            }
            st
        },
    }
}

/// The number of nested back-reference expansions that the public matching
/// functions allow: more than any run can reach before its stack runs out.
pub open spec fn max_fuel() -> nat {
    u64::MAX as nat
}

/// Whether matching `p` against the start of `s` ends in a match or in no
/// match, rather than in a fault or out of fuel.
pub open spec fn completes(s: Seq<char>, p: Seq<Atom>, g: Seq<Seq<char>>) -> bool {
    match match_prefix(max_fuel(), s, p, g) {
        Outcome::Matched(_) => true,
        Outcome::NoMatch => true,
        _ => false,
    }
}

/// The characters of each string.
pub(crate) fn texts_of(v: &[String]) -> (r: Vec<Vec<char>>)
    ensures
        char_vecs_view(r@) == strings_view(v@),
{
    let mut r: Vec<Vec<char>> = Vec::new();
    let mut k: usize = 0;
    while k < v.len()
        invariant
            k <= v@.len(),
            r@.len() == k,
            forall|q: int| 0 <= q < k ==> #[trigger] r@[q]@ == v@[q]@,
        decreases v@.len() - k,
    {
        let c = chars_of(v[k].as_str());
        r.push(c);
        k = k + 1;
    }
    assert(char_vecs_view(r@) =~= strings_view(v@));
    r
}

/// Matches the pattern against the start of `input`, with `groups` the
/// texts captured so far, allowing `budget` nested back-reference
/// expansions.
pub(crate) fn match_prefix_exec(input: &[char], start: usize, pattern: &[PatternAtom], groups: Vec<Vec<char>>, budget: u64) -> (out: MatchOutcome)
    requires
        start <= input@.len(),
    ensures
        out@ == match_prefix(budget as nat, suffix(input@, start as int), atoms_view(pattern@), char_vecs_view(groups@)),
        out matches MatchOutcome::Matched(j) ==> j <= input@.len() - start,
{
    run_exec(input, start, pattern, 0, groups, budget)
}

/// Whether a single-character atom (a literal, `\d`, `\w`, a group, `.` or
/// the end anchor) accepts the start of `input_line`.
pub fn find_pattern_atom_at_start(input_line: &str, pattern_atom: &PatternAtom) -> (r: bool)
    requires
        at_start(input_line@, pattern_atom@) is Some,
    ensures
        at_start(input_line@, pattern_atom@) == Some(r),
{
    let cs = chars_of(input_line);
    proof {
        assert(suffix(cs@, 0) =~= cs@);
        assert(at_start(suffix(cs@, 0), pattern_atom@) == at_start(input_line@, pattern_atom@));
    }
    match atom_at(cs.as_slice(), 0, pattern_atom) {
        Some(b) => b,
        None => {
            assert(false);
            false
        },
    }
}

/// Matches `pattern` against the start of `input`, with
/// `backreference_groups` the texts captured so far, allowing `budget`
/// nested back-reference expansions: the matched prefix of `input`, `None`
/// when the pattern does not match there, or why there is no answer.
pub fn try_match_string_exactly(
    input: &str,
    pattern: &[PatternAtom],
    backreference_groups: &[String],
    budget: u64,
) -> (r: Result<Option<String>, MatchFailure>)
    ensures
        match match_prefix(budget as nat, input@, atoms_view(pattern@), strings_view(backreference_groups@)) {
            Outcome::Matched(n) => n <= input@.len() && (r matches Ok(Some(m)) && m@ == input@.subrange(0, n as int)),
            Outcome::NoMatch => r == Ok::<Option<String>, MatchFailure>(None),
            Outcome::Fault => r == Err::<Option<String>, MatchFailure>(MatchFailure::Fault),
            Outcome::OutOfFuel => r == Err::<Option<String>, MatchFailure>(MatchFailure::OutOfBudget),
        },
{
    let cs = chars_of(input);
    let groups = texts_of(backreference_groups);
    let out = match_prefix_exec(cs.as_slice(), 0, pattern, groups, budget);
    proof {
        assert(suffix(cs@, 0) =~= input@);
        assert(match_prefix(budget as nat, suffix(cs@, 0), atoms_view(pattern@), strings_view(backreference_groups@))
            == match_prefix(budget as nat, input@, atoms_view(pattern@), strings_view(backreference_groups@)));
    }
    match out {
        MatchOutcome::Matched(j) => Ok(Some(string_from_chars(&cs[0..j]))),
        MatchOutcome::NoMatch => Ok(None),
        MatchOutcome::Fault => Err(MatchFailure::Fault),
        MatchOutcome::OutOfFuel => Err(MatchFailure::OutOfBudget),
    }
}

/// Matches `pattern` against the start of `input`, with
/// `backreference_groups` the texts captured so far; returns the matched
/// prefix of `input`.
pub fn match_string_exactly(input: &str, pattern: &[PatternAtom], backreference_groups: &[String]) -> (r: Option<String>)
    requires
        completes(input@, atoms_view(pattern@), strings_view(backreference_groups@)),
    ensures
        match r {
            Some(m) => match_prefix(max_fuel(), input@, atoms_view(pattern@), strings_view(backreference_groups@))
                == Outcome::Matched(m@.len()) && m@ == input@.subrange(0, m@.len() as int),
            None => match_prefix(max_fuel(), input@, atoms_view(pattern@), strings_view(backreference_groups@))
                == Outcome::NoMatch,
        },
{
    match try_match_string_exactly(input, pattern, backreference_groups, u64::MAX) {
        Ok(m) => m,
        Err(_) => {
            assert(false);
            None
        },
    }
}

} // verus!
