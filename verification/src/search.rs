use vstd::prelude::*;
use crate::atom::{Atom, PatternAtom, atoms_view, lemma_atoms_view};
use crate::parse::{parse, parse_chars};
use crate::matcher::{MatchFailure, MatchOutcome, Outcome, match_prefix, match_prefix_exec, max_fuel, suffix};
use crate::text::{chars_of, char_vecs_view};

verus! {

/// What a match attempt at one position tells a search.
pub open spec fn attempt_failure(o: Outcome) -> MatchFailure {
    match o {
        Outcome::OutOfFuel => MatchFailure::OutOfBudget,
        _ => MatchFailure::Fault,
    }
}

/// Searching for a match of the atoms `pv` that starts at position `pos` of
/// `s` or later, trying the positions in order.
pub open spec fn search_from(f: nat, s: Seq<char>, pv: Seq<Atom>, pos: int) -> Result<bool, MatchFailure>
    decreases s.len() - pos,
{
    if pos < 0 || pos >= s.len() {
        Ok(false)
    } else {
        match match_prefix(f, s.subrange(pos, s.len() as int), pv, Seq::empty()) {
            Outcome::Matched(_) => Ok(true),
            Outcome::NoMatch => if pv.len() > 0 && pv[0] is Start {
                Ok(false)
            } else {
                search_from(f, s, pv, pos + 1)
            },
            o => Err(attempt_failure(o)),
        }
    }
}

/// Whether `pattern` matches somewhere in `s`. A pattern that is a single
/// `^` anchor is matched at the start of `s` only; any other pattern is
/// tried at each position of `s` in turn.
pub open spec fn pattern_search(f: nat, s: Seq<char>, pattern: Seq<char>) -> Result<bool, MatchFailure> {
    match parse(pattern) {
        Err(e) => Err(MatchFailure::InvalidPattern(e)),
        Ok(pv) => if pv.len() == 1 && pv[0] is Start {
            match match_prefix(f, s, pv[0]->Start_0, Seq::empty()) {
                Outcome::Matched(_) => Ok(true),
                Outcome::NoMatch => Ok(false),
                o => Err(attempt_failure(o)),
            }
        } else {
            search_from(f, s, pv, 0)
        },
    }
}

/// Whether `pattern` matches somewhere in `input_line`, allowing `budget`
/// nested back-reference expansions; or why there is no answer.
pub fn try_match_pattern(input_line: &str, pattern: &str, budget: u64) -> (r: Result<bool, MatchFailure>)
    ensures
        r == pattern_search(budget as nat, input_line@, pattern@),
{
    let ghost f = budget as nat;
    let ghost s = input_line@;
    let cs = chars_of(input_line);
    let pcs = chars_of(pattern);
    let parsed = parse_chars(pcs.as_slice());
    let pv = match parsed {
        Err(e) => {
            return Err(MatchFailure::InvalidPattern(e));
        },
        Ok(pv) => pv,
    };
    proof {
        lemma_atoms_view(pv@);
    }
    let anchored_alone = pv.len() == 1 && match &pv[0] {
        PatternAtom::Start(_) => true,
        _ => false,
    };
    let ghost no_groups: Seq<Seq<char>> = Seq::empty();
    if anchored_alone {
        match &pv[0] {
            PatternAtom::Start(sub) => {
                let empty: Vec<Vec<char>> = Vec::new();
                proof {
                    assert(suffix(cs@, 0) =~= s);
                    assert(char_vecs_view(empty@) =~= no_groups);
                }
                let out = match_prefix_exec(cs.as_slice(), 0, sub.as_slice(), empty, budget);
                proof {
                    assert(match_prefix(f, suffix(cs@, 0), atoms_view(sub@), char_vecs_view(empty@))
                        == match_prefix(f, s, atoms_view(sub@), no_groups));
                }
                match out {
                    MatchOutcome::Matched(_) => Ok(true),
                    MatchOutcome::NoMatch => Ok(false),
                    MatchOutcome::Fault => Err(MatchFailure::Fault),
                    MatchOutcome::OutOfFuel => Err(MatchFailure::OutOfBudget),
                }
            },
            _ => {
                assert(false);
                Ok(false)
            },
        }
    } else {
        let ghost av = atoms_view(pv@);
        let starts_anchored = pv.len() > 0 && match &pv[0] {
            PatternAtom::Start(_) => true,
            _ => false,
        };
        assert(starts_anchored == (av.len() > 0 && av[0] is Start));
        assert(pattern_search(f, s, pattern@) == search_from(f, s, av, 0));
        let n = cs.len();
        let mut pos: usize = 0;
        while pos < n
            invariant
                n == cs@.len(),
                cs@ == s,
                s == input_line@,
                f == budget as nat,
                av == atoms_view(pv@),
                starts_anchored == (av.len() > 0 && av[0] is Start),
                pos <= n,
                search_from(f, s, av, 0) == search_from(f, s, av, pos as int),
                pattern_search(f, s, pattern@) == search_from(f, s, av, 0),
                no_groups == Seq::<Seq<char>>::empty(),
            decreases n - pos,
        {
            let empty: Vec<Vec<char>> = Vec::new();
            proof {
                assert(char_vecs_view(empty@) =~= Seq::<Seq<char>>::empty());
                assert(suffix(cs@, pos as int) == s.subrange(pos as int, s.len() as int));
            }
            let out = match_prefix_exec(cs.as_slice(), pos, pv.as_slice(), empty, budget);
            proof {
                assert(match_prefix(f, suffix(cs@, pos as int), av, char_vecs_view(empty@))
                    == match_prefix(f, s.subrange(pos as int, s.len() as int), av, Seq::<Seq<char>>::empty()));
            }
            match out {
                MatchOutcome::Matched(_) => {
                    return Ok(true);
                },
                MatchOutcome::NoMatch => {
                    if starts_anchored {
                        return Ok(false);
                    }
                },
                MatchOutcome::Fault => {
                    return Err(MatchFailure::Fault);
                },
                MatchOutcome::OutOfFuel => {
                    return Err(MatchFailure::OutOfBudget);
                },
            }
            pos = pos + 1;
        }
        Ok(false)
    }
}

/// Whether `pattern` matches somewhere in `input_line`.
pub fn match_pattern(input_line: &str, pattern: &str) -> (r: bool)
    requires
        pattern_search(max_fuel(), input_line@, pattern@) is Ok,
    ensures
        pattern_search(max_fuel(), input_line@, pattern@) == Ok::<bool, MatchFailure>(r),
{
    match try_match_pattern(input_line, pattern, u64::MAX) {
        Ok(b) => b,
        Err(_) => {
            assert(false);
            false
        },
    }
}

} // verus!
