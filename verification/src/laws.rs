use vstd::prelude::*;
use crate::atom::Atom;
use crate::parse::{PatternError, parse, parse_from, parse_pieces, split_bars, lemma_split_bars, find_char, digit_run, digits_value, is_ascii_digit};
use crate::matcher::{Outcome, at_start, match_prefix, run, star, alternatives};
use crate::atom::{pattern_size, atom_size, alternatives_size, lemma_pattern_size_cons};
use crate::matcher::MatchFailure;
use crate::search::{attempt_failure, pattern_search, search_from};
use crate::text::{unicode_numeric, unicode_alphanumeric};
use crate::text::{
    byte_len, byte_offset, char_at_byte, nth_char, lemma_byte_offset_ascii, lemma_char_at_byte,
    lemma_byte_offset_grows, lemma_char_at_byte_some,
};

verus! {

/// A one-byte character that stands for itself wherever it is in a
/// pattern, but for `$` as the last character.
pub open spec fn is_plain(c: char) -> bool {
    &&& (c as u32) < 0x80
    &&& c != '\\' && c != '[' && c != '(' && c != '^' && c != '+' && c != '*' && c != '?' && c != '.'
}

/// A pattern made only of characters that stand for themselves.
pub open spec fn is_literal(p: Seq<char>) -> bool {
    &&& forall|k: int| 0 <= k < p.len() ==> #[trigger] is_plain(p[k])
    &&& (p.len() > 0 ==> p[p.len() - 1] != '$')
}

/// One literal atom for each character of `p`.
pub open spec fn char_atoms(p: Seq<char>) -> Seq<Atom>
    decreases p.len(),
{
    if p.len() == 0 {
        Seq::empty()
    } else {
        char_atoms(p.subrange(0, p.len() - 1)).push(Atom::Char(p[p.len() - 1]))
    }
}

/// The character at `k`, as a value of type `char`.
proof fn typed_char(p: Seq<char>, k: int) -> (c: char)
    requires
        0 <= k < p.len(),
    ensures
        c == p[k],
{
    p[k]
}

proof fn lemma_char_atoms(p: Seq<char>)
    ensures
        char_atoms(p).len() == p.len(),
        forall|k: int| 0 <= k < p.len() ==> #[trigger] char_atoms(p)[k] == Atom::Char(p[k]),
    decreases p.len(),
{
    if p.len() > 0 {
        let t = p.subrange(0, p.len() - 1);
        let last = typed_char(p, p.len() - 1);
        lemma_char_atoms(t);
        assert forall|k: int| 0 <= k < p.len() implies #[trigger] char_atoms(p)[k] == Atom::Char(p[k]) by {
            let c = typed_char(p, k);
            if k < p.len() - 1 {
                assert(t[k] == p[k]);
            }
        }
    }
}

proof fn lemma_char_atoms_subrange(p: Seq<char>, a: int, b: int)
    requires
        0 <= a <= b <= p.len(),
    ensures
        char_atoms(p).subrange(a, b) == char_atoms(p.subrange(a, b)),
{
    lemma_char_atoms(p);
    lemma_char_atoms(p.subrange(a, b));
    assert(char_atoms(p).subrange(a, b) =~= char_atoms(p.subrange(a, b)));
}

proof fn lemma_char_atoms_cons(p: Seq<char>)
    requires
        p.len() > 0,
    ensures
        char_atoms(p) == seq![Atom::Char(p[0])] + char_atoms(p.subrange(1, p.len() as int)),
{
    let c = typed_char(p, 0);
    lemma_char_atoms(p);
    lemma_char_atoms(p.subrange(1, p.len() as int));
    assert(char_atoms(p) =~= seq![Atom::Char(c)] + char_atoms(p.subrange(1, p.len() as int)));
}

/// Whether the text `p` occurs in `s` at position `pos`.
pub open spec fn occurs_at(s: Seq<char>, p: Seq<char>, pos: int) -> bool {
    0 <= pos && pos + p.len() <= s.len() && s.subrange(pos, pos + p.len()) == p
}

/// Whether the atoms `pv` match the start of the suffix of `s` at `pos`.
pub open spec fn matches_at(f: nat, s: Seq<char>, pv: Seq<Atom>, pos: int) -> bool {
    match_prefix(f, s.subrange(pos, s.len() as int), pv, Seq::empty()) is Matched
}

proof fn lemma_parse_plain_run(p: Seq<char>, q: Seq<char>, i: int, acc: Seq<Atom>)
    requires
        0 <= i <= p.len() <= q.len(),
        p == q.subrange(0, p.len() as int),
        forall|k: int| 0 <= k < p.len() ==> #[trigger] is_plain(p[k]),
        forall|k: int| 0 <= k < q.len() ==> (#[trigger] q[k] as u32) < 0x80,
        p.len() > 0 && p.len() == q.len() ==> p[p.len() - 1] != '$',
    ensures
        parse_from(q, i, acc) == parse_from(q, p.len() as int, acc + char_atoms(p.subrange(i, p.len() as int))),
    decreases p.len() - i,
{
    lemma_byte_offset_ascii(q, q.len() as int);
    let rest = char_atoms(p.subrange(i, p.len() as int));
    if i == p.len() {
        assert(acc + rest =~= acc);
    } else {
        let c = typed_char(q, i);
        assert(c == p[i]);
        assert(is_plain(p[i]));
        crate::parse::lemma_parse_literal(q, i, acc, c);
        lemma_parse_plain_run(p, q, i + 1, acc.push(Atom::Char(c)));
        let pi = p.subrange(i, p.len() as int);
        lemma_char_atoms_cons(pi);
        assert(pi.subrange(1, pi.len() as int) =~= p.subrange(i + 1, p.len() as int));
        assert(acc.push(Atom::Char(c)) + char_atoms(p.subrange(i + 1, p.len() as int)) =~= acc + rest);
    }
}

/// A literal followed by one more one-byte character is a text of one-byte
/// characters, one byte per character.
proof fn lemma_plain_push(p: Seq<char>, c: char)
    requires
        forall|k: int| 0 <= k < p.len() ==> #[trigger] is_plain(p[k]),
        (c as u32) < 0x80,
    ensures
        forall|k: int| 0 <= k < p.push(c).len() ==> (#[trigger] p.push(c)[k] as u32) < 0x80,
        forall|k: int| 0 <= k < p.len() ==> (#[trigger] p[k] as u32) < 0x80,
        byte_len(p.push(c)) == p.len() + 1,
        byte_len(p) == p.len(),
{
    let q = p.push(c);
    assert forall|k: int| 0 <= k < q.len() implies (#[trigger] q[k] as u32) < 0x80 by {
        if k < p.len() {
            assert(q[k] == p[k]);
            assert(is_plain(p[k]));
        }
    }
    assert forall|k: int| 0 <= k < p.len() implies (#[trigger] p[k] as u32) < 0x80 by {
        assert(is_plain(p[k]));
    }
    lemma_byte_offset_ascii(q, q.len() as int);
    lemma_byte_offset_ascii(p, p.len() as int);
}

/// A pattern of characters that stand for themselves is parsed into one
/// literal atom per character.
pub proof fn law_literal_pattern_parse(p: Seq<char>)
    requires
        is_literal(p),
    ensures
        parse(p) == Ok::<Seq<Atom>, PatternError>(char_atoms(p)),
{
    assert(p == p.subrange(0, p.len() as int));
    lemma_plain_push(p, 'a');
    lemma_parse_plain_run(p, p, 0, Seq::empty());
    assert(Seq::<Atom>::empty() + char_atoms(p.subrange(0, p.len() as int)) =~= char_atoms(p));
    crate::parse::lemma_parse_from_end(p, p.len() as int, char_atoms(p));
}

/// `+` after a literal repeats its last character one or more times: the
/// character stays and a starred copy of it follows. `*` and `?` replace the
/// last character by its starred or optional form.
pub proof fn law_repetition_parse(p: Seq<char>)
    requires
        p.len() > 0,
        forall|k: int| 0 <= k < p.len() ==> #[trigger] is_plain(p[k]),
    ensures
        parse(p.push('+')) == Ok::<Seq<Atom>, PatternError>(
            char_atoms(p).push(Atom::Star(Box::new(Atom::Char(p[p.len() - 1])))),
        ),
        parse(p.push('*')) == Ok::<Seq<Atom>, PatternError>(
            char_atoms(p.subrange(0, p.len() - 1)).push(Atom::Star(Box::new(Atom::Char(p[p.len() - 1])))),
        ),
        parse(p.push('?')) == Ok::<Seq<Atom>, PatternError>(
            char_atoms(p.subrange(0, p.len() - 1)).push(Atom::Question(Box::new(Atom::Char(p[p.len() - 1])))),
        ),
{
    let n = p.len() as int;
    let lit = char_atoms(p);
    let lc = typed_char(p, n - 1);
    let last = Atom::Char(lc);
    assert(p.subrange(0, n) =~= p);
    assert(Seq::<Atom>::empty() + char_atoms(p.subrange(0, n)) =~= lit);
    lemma_char_atoms_subrange(p, 0, n - 1);
    lemma_char_atoms(p);
    assert(lit[n - 1] == last);
    let qp = p.push('+');
    lemma_plain_push(p, '+');
    assert(p == qp.subrange(0, n));
    lemma_parse_plain_run(p, qp, 0, Seq::empty());
    assert(parse_from(qp, n, lit) == parse_from(qp, n + 1, lit.push(Atom::Star(Box::new(last)))));
    crate::parse::lemma_parse_from_end(qp, n + 1, lit.push(Atom::Star(Box::new(last))));
    let qs = p.push('*');
    lemma_plain_push(p, '*');
    assert(p == qs.subrange(0, n));
    lemma_parse_plain_run(p, qs, 0, Seq::empty());
    crate::parse::lemma_parse_repeat(qs, n, lit, '*');
    crate::parse::lemma_parse_from_end(qs, n + 1, lit.subrange(0, n - 1).push(Atom::Star(Box::new(last))));
    let qq = p.push('?');
    lemma_plain_push(p, '?');
    assert(p == qq.subrange(0, n));
    lemma_parse_plain_run(p, qq, 0, Seq::empty());
    crate::parse::lemma_parse_repeat(qq, n, lit, '?');
    crate::parse::lemma_parse_from_end(qq, n + 1, lit.subrange(0, n - 1).push(Atom::Question(Box::new(last))));
}

/// A pattern made of literal atoms matches the start of a text exactly when
/// the text begins with those characters, and then it matches just them.
pub proof fn law_literal_match(f: nat, s: Seq<char>, q: Seq<char>, g: Seq<Seq<char>>)
    ensures
        match_prefix(f, s, char_atoms(q), g) == if occurs_at(s, q, 0) {
            Outcome::Matched(q.len())
        } else {
            Outcome::NoMatch
        },
{
    let e = Seq::<Atom>::empty();
    lemma_literal_then(f, s, q, e, 0, g);
    assert(char_atoms(q) + e =~= char_atoms(q));
    assert(run(f, s, char_atoms(q) + e, 0, g) == run(f, s, char_atoms(q), 0, g));
}

proof fn lemma_search_from(f: nat, s: Seq<char>, pv: Seq<Atom>, pos: int)
    requires
        0 <= pos <= s.len(),
        !(pv.len() > 0 && pv[0] is Start),
        search_from(f, s, pv, pos) is Ok,
    ensures
        search_from(f, s, pv, pos) == Ok::<bool, MatchFailure>(
            exists|q: int| pos <= q < s.len() && #[trigger] matches_at(f, s, pv, q),
        ),
    decreases s.len() - pos,
{
    if pos < s.len() {
        if !matches_at(f, s, pv, pos) {
            lemma_search_from(f, s, pv, pos + 1);
            if exists|q: int| pos <= q < s.len() && #[trigger] matches_at(f, s, pv, q) {
                let q = choose|q: int| pos <= q < s.len() && #[trigger] matches_at(f, s, pv, q);
                assert(pos + 1 <= q);
            }
        }
    }
}

/// A pattern that does not begin with `^` matches a text when, and only
/// when, it matches the start of the text at some position; when no attempt
/// faults, the search gives that answer.
pub proof fn law_unanchored_search(f: nat, s: Seq<char>, pattern: Seq<char>)
    requires
        parse(pattern) is Ok,
        !(parse(pattern)->Ok_0.len() > 0 && parse(pattern)->Ok_0[0] is Start),
        pattern_search(f, s, pattern) is Ok,
    ensures
        pattern_search(f, s, pattern) == Ok::<bool, MatchFailure>(
            exists|q: int| 0 <= q < s.len() && #[trigger] matches_at(f, s, parse(pattern)->Ok_0, q),
        ),
{
    lemma_search_from(f, s, parse(pattern)->Ok_0, 0);
}

/// A pattern of characters that stand for themselves matches a text exactly
/// when it occurs in the text.
pub proof fn law_literal_search(f: nat, s: Seq<char>, p: Seq<char>)
    requires
        is_literal(p),
        p.len() > 0,
    ensures
        pattern_search(f, s, p) == Ok::<bool, MatchFailure>(exists|q: int| 0 <= q < s.len() && #[trigger] occurs_at(s, p, q)),
{
    law_literal_pattern_parse(p);
    let pv = char_atoms(p);
    assert(is_plain(p[0]));
    let c0 = typed_char(p, 0);
    lemma_char_atoms(p);
    assert(pv[0] == Atom::Char(c0));
    assert forall|q: int| 0 <= q < s.len() implies !(#[trigger] match_prefix(f, s.subrange(q, s.len() as int), pv, Seq::empty()) is Fault)
        && !(match_prefix(f, s.subrange(q, s.len() as int), pv, Seq::empty()) is OutOfFuel) by {
        law_literal_match(f, s.subrange(q, s.len() as int), p, Seq::empty());
    }
    assert forall|q: int| 0 <= q < s.len() implies #[trigger] matches_at(f, s, pv, q) == occurs_at(s, p, q) by {
        let t = s.subrange(q, s.len() as int);
        law_literal_match(f, t, p, Seq::empty());
        if occurs_at(t, p, 0) {
            assert(s.subrange(q, q + p.len()) =~= t.subrange(0, p.len() as int));
        }
        if occurs_at(s, p, q) {
            assert(s.subrange(q, q + p.len()) =~= t.subrange(0, p.len() as int));
        }
    }
    lemma_search_total(f, s, pv, 0);
    lemma_search_from(f, s, pv, 0);
    if exists|q: int| 0 <= q < s.len() && #[trigger] occurs_at(s, p, q) {
        let q = choose|q: int| 0 <= q < s.len() && #[trigger] occurs_at(s, p, q);
        assert(matches_at(f, s, pv, q));
    }
    if exists|q: int| 0 <= q < s.len() && #[trigger] matches_at(f, s, pv, q) {
        let q = choose|q: int| 0 <= q < s.len() && #[trigger] matches_at(f, s, pv, q);
        assert(occurs_at(s, p, q));
    }
}

proof fn lemma_search_total(f: nat, s: Seq<char>, pv: Seq<Atom>, pos: int)
    requires
        0 <= pos <= s.len(),
        forall|q: int| 0 <= q < s.len() ==> !(#[trigger] match_prefix(f, s.subrange(q, s.len() as int), pv, Seq::empty()) is Fault)
            && !(match_prefix(f, s.subrange(q, s.len() as int), pv, Seq::empty()) is OutOfFuel),
    ensures
        search_from(f, s, pv, pos) is Ok,
    decreases s.len() - pos,
{
    if pos < s.len() {
        lemma_search_total(f, s, pv, pos + 1);
        assert(!(match_prefix(f, s.subrange(pos, s.len() as int), pv, Seq::empty()) is Fault));
    }
}

/// A `^` in front of a pattern anchors it: the pattern is parsed as before,
/// inside a `Start` atom, and it is matched at the start of the text only;
/// where the pattern cannot be parsed, neither can the anchored one.
pub proof fn law_anchored_search(f: nat, s: Seq<char>, p: Seq<char>)
    ensures
        parse(seq!['^'] + p) == match parse(p) {
            Ok(a) => Ok(seq![Atom::Start(a)]),
            Err(e) => Err(e),
        },
        parse(p) is Ok ==> pattern_search(f, s, seq!['^'] + p) == match match_prefix(f, s, parse(p)->Ok_0, Seq::empty()) {
            Outcome::Matched(_) => Ok(true),
            Outcome::NoMatch => Ok(false),
            o => Err::<bool, MatchFailure>(attempt_failure(o)),
        },
        parse(p) matches Err(e) ==> pattern_search(f, s, seq!['^'] + p) == Err::<bool, MatchFailure>(
            MatchFailure::InvalidPattern(e),
        ),
{
    let q = seq!['^'] + p;
    assert(q[0] == '^');
    assert(byte_offset(q, 0) == 0);
    assert(('^' as u32) < 0x80);
    assert(byte_offset(q, 1) == 1);
    lemma_char_at_byte(q, 1);
    crate::text::lemma_byte_offset_grows(q, 1, q.len() as int);
    assert(q.subrange(1, q.len() as int) =~= p);
    assert(parse(q.subrange(1, q.len() as int)) == parse(p));
    match parse(p) {
        Ok(a) => {
            assert(Seq::<Atom>::empty().push(Atom::Start(a)) =~= seq![Atom::Start(a)]);
        },
        Err(e) => {},
    }
}

/// The empty text contains no match of a pattern that does not begin with `^`,
/// not even of the empty pattern.
pub proof fn law_empty_text(f: nat, pattern: Seq<char>)
    requires
        parse(pattern) is Ok,
        !(parse(pattern)->Ok_0.len() > 0 && parse(pattern)->Ok_0[0] is Start),
    ensures
        pattern_search(f, Seq::empty(), pattern) == Ok::<bool, MatchFailure>(false),
{
}

/// A negated group accepts the start of a text exactly when the same group,
/// not negated, does not: at the end of the text too.
pub proof fn law_negated_group(s: Seq<char>, g: Seq<char>)
    ensures
        at_start(s, Atom::NegativeGroup(g)) == Some(!(at_start(s, Atom::PositiveGroup(g))->Some_0)),
{
}

proof fn lemma_run_fuel(f1: nat, f2: nat, s: Seq<char>, r: Seq<Atom>, i: int, g: Seq<Seq<char>>)
    requires
        f1 <= f2,
        !(run(f1, s, r, i, g) is OutOfFuel),
    ensures
        run(f2, s, r, i, g) == run(f1, s, r, i, g),
    decreases f1, pattern_size(r), s.len() - i, 1int,
{
    if r.len() > 0 {
        let rest = r.subrange(1, r.len() as int);
        assert(pattern_size(r) == atom_size(r[0]) + pattern_size(rest));
        if 0 <= i && i > s.len() {
            match r[0] {
                Atom::End => {
                    if s.len() == 0 {
                        lemma_run_fuel(f1, f2, s, rest, i, g);
                    }
                },
                _ => {},
            }
        } else if 0 <= i {
            let t = s.subrange(i, s.len() as int);
            match r[0] {
                Atom::Star(sub) => {
                    lemma_star_fuel(f1, f2, s, *sub, rest, i, g);
                },
                Atom::Question(sub) => {
                    if rest.len() > 0 && !(run(f1, t, rest, 0, g) is OutOfFuel) {
                        lemma_run_fuel(f1, f2, t, rest, 0, g);
                    }
                    if (rest.len() == 0 || run(f1, t, rest, 0, g) is NoMatch) {
                        if i == s.len() {
                            lemma_run_fuel(f1, f2, s, rest, i, g);
                        } else {
                            match at_start(t, *sub) {
                                Some(true) => {
                                    lemma_run_fuel(f1, f2, s, rest, i + 1, g);
                                },
                                Some(false) => {
                                    lemma_run_fuel(f1, f2, s, rest, i, g);
                                },
                                None => {},
                            }
                        }
                    }
                },
                Atom::BackreferenceGroup(sub) => {
                    if !(run(f1, t, sub, 0, g) is OutOfFuel) {
                        lemma_run_fuel(f1, f2, t, sub, 0, g);
                        match run(f1, t, sub, 0, g) {
                            Outcome::Matched(j) => {
                                lemma_run_fuel(f1, f2, s, rest, i + j, g.push(s.subrange(i, i + j)));
                            },
                            _ => {},
                        }
                    }
                },
                Atom::BackreferenceInt(n) => {
                    if n >= 1 && n <= g.len() {
                        match parse(g[n - 1]) {
                            Ok(atoms) => {
                                if f1 > 0 {
                                    lemma_run_fuel((f1 - 1) as nat, (f2 - 1) as nat, t, atoms + rest, 0, g);
                                }
                            },
                            Err(_) => {},
                        }
                    }
                },
                Atom::Alternation(alts) => {
                    lemma_alternatives_fuel(f1, f2, s, alts, rest, i, g);
                },
                Atom::End => {
                    if i == s.len() {
                        lemma_run_fuel(f1, f2, s, rest, i, g);
                    }
                },
                other => {
                    match at_start(t, other) {
                        Some(true) => {
                            lemma_run_fuel(f1, f2, s, rest, i + 1, g);
                        },
                        _ => {},
                    }
                },
            }
        }
    }
}

proof fn lemma_star_fuel(f1: nat, f2: nat, s: Seq<char>, sub: Atom, rest: Seq<Atom>, i: int, g: Seq<Seq<char>>)
    requires
        f1 <= f2,
        !(star(f1, s, sub, rest, i, g) is OutOfFuel),
    ensures
        star(f2, s, sub, rest, i, g) == star(f1, s, sub, rest, i, g),
    decreases f1, pattern_size(rest) + atom_size(sub) + 1, s.len() - i, 0int,
{
    let t = s.subrange(i, s.len() as int);
    let tried = rest.len() > 0 && 0 <= i;
    if tried && !(run(f1, t, rest, 0, g) is OutOfFuel) {
        lemma_run_fuel(f1, f2, t, rest, 0, g);
    }
    if !tried || run(f1, t, rest, 0, g) is NoMatch {
        if i >= s.len() || i < 0 {
            lemma_run_fuel(f1, f2, s, rest, i, g);
        } else {
            match at_start(t, sub) {
                Some(false) => {
                    lemma_run_fuel(f1, f2, s, rest, i, g);
                },
                Some(true) => {
                    lemma_star_fuel(f1, f2, s, sub, rest, i + 1, g);
                },
                None => {},
            }
        }
    }
}

proof fn lemma_alternatives_fuel(
    f1: nat,
    f2: nat,
    s: Seq<char>,
    alts: Seq<Seq<Atom>>,
    rest: Seq<Atom>,
    i: int,
    g: Seq<Seq<char>>,
)
    requires
        f1 <= f2,
        !(alternatives(f1, s, alts, rest, i, g) is OutOfFuel),
    ensures
        alternatives(f2, s, alts, rest, i, g) == alternatives(f1, s, alts, rest, i, g),
    decreases f1, 2 + pattern_size(rest) + alternatives_size(alts), s.len() - i, alts.len(),
{
    if alts.len() > 0 {
        let t = s.subrange(i, s.len() as int);
        let q = seq![Atom::BackreferenceGroup(alts[0])] + rest;
        lemma_pattern_size_cons(Atom::BackreferenceGroup(alts[0]), rest);
        if !(run(f1, t, q, 0, g) is OutOfFuel) {
            lemma_run_fuel(f1, f2, t, q, 0, g);
        }
        if run(f1, t, q, 0, g) is NoMatch {
            lemma_alternatives_fuel(f1, f2, s, alts.subrange(1, alts.len() as int), rest, i, g);
        }
    }
}

/// A larger budget never changes an outcome that a smaller budget reaches:
/// the budget only bounds how deeply back-references may be expanded one
/// inside another.
pub proof fn law_budget_monotone(f1: nat, f2: nat, s: Seq<char>, p: Seq<Atom>, g: Seq<Seq<char>>)
    requires
        f1 <= f2,
        !(match_prefix(f1, s, p, g) is OutOfFuel),
    ensures
        match_prefix(f2, s, p, g) == match_prefix(f1, s, p, g),
{
    lemma_run_fuel(f1, f2, s, p, 0, g);
}

proof fn lemma_search_fuel(f1: nat, f2: nat, s: Seq<char>, pv: Seq<Atom>, pos: int)
    requires
        f1 <= f2,
        search_from(f1, s, pv, pos) != Err::<bool, MatchFailure>(MatchFailure::OutOfBudget),
    ensures
        search_from(f2, s, pv, pos) == search_from(f1, s, pv, pos),
    decreases s.len() - pos,
{
    if 0 <= pos < s.len() {
        let t = s.subrange(pos, s.len() as int);
        if !(match_prefix(f1, t, pv, Seq::empty()) is OutOfFuel) {
            law_budget_monotone(f1, f2, t, pv, Seq::empty());
        }
        if match_prefix(f1, t, pv, Seq::empty()) is NoMatch {
            lemma_search_fuel(f1, f2, s, pv, pos + 1);
        }
    }
}

/// A larger budget never changes the answer of a search that a smaller
/// budget reaches.
pub proof fn law_search_budget_monotone(f1: nat, f2: nat, s: Seq<char>, pattern: Seq<char>)
    requires
        f1 <= f2,
        pattern_search(f1, s, pattern) != Err::<bool, MatchFailure>(MatchFailure::OutOfBudget),
    ensures
        pattern_search(f2, s, pattern) == pattern_search(f1, s, pattern),
{
    match parse(pattern) {
        Ok(pv) => {
            if pv.len() == 1 && pv[0] is Start {
                let sub = pv[0]->Start_0;
                if !(match_prefix(f1, s, sub, Seq::empty()) is OutOfFuel) {
                    law_budget_monotone(f1, f2, s, sub, Seq::empty());
                }
            } else {
                lemma_search_fuel(f1, f2, s, pv, 0);
            }
        },
        Err(_) => {},
    }
}

proof fn lemma_run_bound(f: nat, s: Seq<char>, r: Seq<Atom>, i: int, g: Seq<Seq<char>>)
    requires
        0 <= i,
    ensures
        run(f, s, r, i, g) matches Outcome::Matched(j) ==> i <= j <= s.len(),
    decreases f, pattern_size(r), s.len() - i, 1int,
{
    if r.len() > 0 {
        let rest = r.subrange(1, r.len() as int);
        assert(pattern_size(r) == atom_size(r[0]) + pattern_size(rest));
        if i > s.len() {
            match r[0] {
                Atom::End => {
                    if s.len() == 0 {
                        lemma_run_bound(f, s, rest, i, g);
                    }
                },
                _ => {},
            }
        } else {
            let t = s.subrange(i, s.len() as int);
            match r[0] {
                Atom::Star(sub) => {
                    lemma_star_bound(f, s, *sub, rest, i, g);
                },
                Atom::Question(sub) => {
                    if rest.len() > 0 {
                        lemma_run_bound(f, t, rest, 0, g);
                    }
                    if i < s.len() {
                        lemma_run_bound(f, s, rest, i + 1, g);
                    }
                    lemma_run_bound(f, s, rest, i, g);
                },
                Atom::BackreferenceGroup(sub) => {
                    lemma_run_bound(f, t, sub, 0, g);
                    match run(f, t, sub, 0, g) {
                        Outcome::Matched(j) => {
                            lemma_run_bound(f, s, rest, i + j, g.push(s.subrange(i, i + j)));
                        },
                        _ => {},
                    }
                },
                Atom::BackreferenceInt(n) => {
                    if n >= 1 && n <= g.len() {
                        match parse(g[n - 1]) {
                            Ok(atoms) => {
                                if f > 0 {
                                    lemma_run_bound((f - 1) as nat, t, atoms + rest, 0, g);
                                }
                            },
                            Err(_) => {},
                        }
                    }
                },
                Atom::Alternation(alts) => {
                    lemma_alternatives_bound(f, s, alts, rest, i, g);
                },
                Atom::End => {
                    lemma_run_bound(f, s, rest, i, g);
                },
                other => {
                    lemma_run_bound(f, s, rest, i + 1, g);
                },
            }
        }
    }
}

proof fn lemma_star_bound(f: nat, s: Seq<char>, sub: Atom, rest: Seq<Atom>, i: int, g: Seq<Seq<char>>)
    requires
        0 <= i <= s.len(),
    ensures
        star(f, s, sub, rest, i, g) matches Outcome::Matched(j) ==> i <= j <= s.len(),
    decreases f, pattern_size(rest) + atom_size(sub) + 1, s.len() - i, 0int,
{
    let t = s.subrange(i, s.len() as int);
    if rest.len() > 0 {
        lemma_run_bound(f, t, rest, 0, g);
    }
    lemma_run_bound(f, s, rest, i, g);
    if i < s.len() {
        lemma_star_bound(f, s, sub, rest, i + 1, g);
    }
}

proof fn lemma_alternatives_bound(
    f: nat,
    s: Seq<char>,
    alts: Seq<Seq<Atom>>,
    rest: Seq<Atom>,
    i: int,
    g: Seq<Seq<char>>,
)
    requires
        0 <= i <= s.len(),
    ensures
        alternatives(f, s, alts, rest, i, g) matches Outcome::Matched(j) ==> i <= j <= s.len(),
    decreases f, 2 + pattern_size(rest) + alternatives_size(alts), s.len() - i, alts.len(),
{
    if alts.len() > 0 {
        let t = s.subrange(i, s.len() as int);
        let q = seq![Atom::BackreferenceGroup(alts[0])] + rest;
        lemma_pattern_size_cons(Atom::BackreferenceGroup(alts[0]), rest);
        lemma_run_bound(f, t, q, 0, g);
        lemma_alternatives_bound(f, s, alts.subrange(1, alts.len() as int), rest, i, g);
    }
}

/// A match covers a prefix of the text: it never reaches past the end.
pub proof fn law_match_within_text(f: nat, s: Seq<char>, p: Seq<Atom>, g: Seq<Seq<char>>)
    ensures
        match_prefix(f, s, p, g) matches Outcome::Matched(j) ==> j <= s.len(),
{
    lemma_run_bound(f, s, p, 0, g);
}

/// How many characters at the start of `s` the single-character atom `a`
/// accepts one after another.
pub open spec fn accepted_run(s: Seq<char>, a: Atom) -> nat
    decreases s.len(),
{
    if s.len() > 0 && at_start(s, a) == Some(true) {
        1 + accepted_run(s.subrange(1, s.len() as int), a)
    } else {
        0
    }
}

/// A single-character test: an atom that `at_start` decides on any text.
pub open spec fn is_single_char_test(a: Atom) -> bool {
    a is Char || a is Digit || a is Word || a is PositiveGroup || a is NegativeGroup || a is Wild || a is End
}

proof fn lemma_trailing_star(f: nat, s: Seq<char>, a: Atom, i: int, g: Seq<Seq<char>>)
    requires
        is_single_char_test(a),
        0 <= i <= s.len(),
    ensures
        star(f, s, a, Seq::empty(), i, g) == Outcome::Matched((i + accepted_run(s.subrange(i, s.len() as int), a)) as nat),
    decreases s.len() - i,
{
    let t = s.subrange(i, s.len() as int);
    let e = Seq::<Atom>::empty();
    assert(run(f, s, e, i, g) == Outcome::Matched(i as nat));
    if i == s.len() {
        assert(accepted_run(t, a) == 0);
        assert(star(f, s, a, e, i, g) == run(f, s, e, i, g));
    }
    if i < s.len() {
        assert(at_start(t, a) is Some);
        assert(t.subrange(1, t.len() as int) =~= s.subrange(i + 1, s.len() as int));
        assert(accepted_run(t.subrange(1, t.len() as int), a) == accepted_run(s.subrange(i + 1, s.len() as int), a));
        if at_start(t, a) == Some(true) {
            lemma_trailing_star(f, s, a, i + 1, g);
        }
    }
}

/// A starred single-character test at the end of a pattern is greedy: it
/// takes every character it accepts, one after another.
pub proof fn law_trailing_star_is_greedy(f: nat, s: Seq<char>, a: Atom, g: Seq<Seq<char>>)
    requires
        is_single_char_test(a),
    ensures
        match_prefix(f, s, seq![Atom::Star(Box::new(a))], g) == Outcome::Matched(accepted_run(s, a)),
{
    let r = seq![Atom::Star(Box::new(a))];
    assert(r.subrange(1, r.len() as int) =~= Seq::<Atom>::empty());
    lemma_trailing_star(f, s, a, 0, g);
    assert(s.subrange(0, s.len() as int) =~= s);
}

/// An optional single-character test at the end of a pattern takes the
/// first character when it accepts it, and nothing otherwise.
pub proof fn law_trailing_question(f: nat, s: Seq<char>, a: Atom, g: Seq<Seq<char>>)
    requires
        is_single_char_test(a),
    ensures
        match_prefix(f, s, seq![Atom::Question(Box::new(a))], g) == Outcome::Matched(
            if s.len() > 0 && at_start(s, a) == Some(true) { 1nat } else { 0nat },
        ),
{
    let r = seq![Atom::Question(Box::new(a))];
    let e = Seq::<Atom>::empty();
    assert(r.subrange(1, r.len() as int) =~= e);
    assert(s.subrange(0, s.len() as int) =~= s);
    assert(at_start(s.subrange(0, s.len() as int), a) == at_start(s, a));
    assert(run(f, s, r.subrange(1, r.len() as int), 0, g) == run(f, s, e, 0, g));
    assert(run(f, s, r.subrange(1, r.len() as int), 1, g) == run(f, s, e, 1, g));
}

/// A back-reference to a captured text made of characters that stand for
/// themselves matches that same text again, and nothing else.
pub proof fn law_backreference_repeats_literal(f: nat, s: Seq<char>, n: nat, g: Seq<Seq<char>>)
    requires
        f > 0,
        1 <= n <= g.len(),
        is_literal(g[n - 1]),
    ensures
        match_prefix(f, s, seq![Atom::BackreferenceInt(n)], g) == if occurs_at(s, g[n - 1], 0) {
            Outcome::Matched(g[n - 1].len())
        } else {
            Outcome::NoMatch
        },
{
    let t = g[n - 1];
    let r = seq![Atom::BackreferenceInt(n)];
    law_literal_pattern_parse(t);
    assert(r.subrange(1, r.len() as int) =~= Seq::<Atom>::empty());
    assert(char_atoms(t) + Seq::<Atom>::empty() =~= char_atoms(t));
    assert(s.subrange(0, s.len() as int) =~= s);
    law_literal_match((f - 1) as nat, s, t, g);
    assert(run((f - 1) as nat, s.subrange(0, s.len() as int), char_atoms(t) + r.subrange(1, r.len() as int), 0, g)
        == match_prefix((f - 1) as nat, s, char_atoms(t), g));
}

proof fn lemma_literal_then(f: nat, s: Seq<char>, q: Seq<char>, rest: Seq<Atom>, i: int, g: Seq<Seq<char>>)
    requires
        0 <= i <= s.len(),
    ensures
        run(f, s, char_atoms(q) + rest, i, g) == if occurs_at(s, q, i) {
            run(f, s, rest, i + q.len(), g)
        } else {
            Outcome::NoMatch
        },
    decreases q.len(),
{
    let r = char_atoms(q) + rest;
    if q.len() == 0 {
        assert(s.subrange(i, i) =~= q);
        assert(r =~= rest);
    } else {
        let tail = q.subrange(1, q.len() as int);
        let c0 = typed_char(q, 0);
        lemma_char_atoms_cons(q);
        assert(r.subrange(1, r.len() as int) =~= char_atoms(tail) + rest);
        assert(r[0] == Atom::Char(c0));
        if i < s.len() && s[i] == q[0] {
            lemma_literal_then(f, s, tail, rest, i + 1, g);
            assert(run(f, s, r, i, g) == run(f, s, char_atoms(tail) + rest, i + 1, g));
            if occurs_at(s, q, i) {
                assert(s.subrange(i + 1, i + 1 + tail.len()) =~= s.subrange(i, i + q.len()).subrange(1, q.len() as int));
            } else if occurs_at(s, tail, i + 1) {
                assert forall|k: int| 0 <= k < q.len() implies #[trigger] s.subrange(i, i + q.len())[k] == q[k] by {
                    if k > 0 {
                        assert(s.subrange(i + 1, i + 1 + tail.len())[k - 1] == tail[k - 1]);
                    }
                }
                assert(s.subrange(i, i + q.len()) =~= q);
            }
        } else {
            if occurs_at(s, q, i) {
                assert(s.subrange(i, i + q.len())[0] == q[0]);
            }
        }
    }
}

/// A `$` after a pattern of characters that stand for themselves anchors it
/// at the end: the pattern is parsed into the literal atoms and `End`, and
/// it matches a text exactly when the text ends with it.
pub proof fn law_end_anchored_literal(f: nat, s: Seq<char>, p: Seq<char>)
    requires
        p.len() > 0,
        forall|k: int| 0 <= k < p.len() ==> #[trigger] is_plain(p[k]),
    ensures
        parse(p.push('$')) == Ok::<Seq<Atom>, PatternError>(char_atoms(p).push(Atom::End)),
        pattern_search(f, s, p.push('$')) == Ok::<bool, MatchFailure>(
            s.len() >= p.len() && s.subrange(s.len() - p.len(), s.len() as int) == p,
        ),
{
    let n = p.len() as int;
    let q = p.push('$');
    lemma_plain_push(p, '$');
    assert(p == q.subrange(0, n));
    lemma_parse_plain_run(p, q, 0, Seq::empty());
    assert(p.subrange(0, n) =~= p);
    assert(Seq::<Atom>::empty() + char_atoms(p.subrange(0, n)) =~= char_atoms(p));
    assert(parse_from(q, n, char_atoms(p)) == parse_from(q, n + 1, char_atoms(p).push(Atom::End)));
    crate::parse::lemma_parse_from_end(q, n + 1, char_atoms(p).push(Atom::End));
    let pv = char_atoms(p).push(Atom::End);
    let e = seq![Atom::End];
    assert(pv =~= char_atoms(p) + e);
    lemma_char_atoms(p);
    let c0 = typed_char(p, 0);
    assert(pv[0] == Atom::Char(c0));
    let want = s.len() >= p.len() && s.subrange(s.len() - p.len(), s.len() as int) == p;
    assert forall|pos: int| 0 <= pos < s.len() implies #[trigger] match_prefix(f, s.subrange(pos, s.len() as int), pv, Seq::empty())
        == (if pos + p.len() == s.len() && occurs_at(s, p, pos) { Outcome::Matched(p.len()) } else { Outcome::NoMatch }) by {
        let t = s.subrange(pos, s.len() as int);
        let g = Seq::<Seq<char>>::empty();
        lemma_literal_then(f, t, p, e, 0, g);
        assert(run(f, t, pv, 0, g) == run(f, t, char_atoms(p) + e, 0, g));
        if occurs_at(t, p, 0) {
            assert(e.subrange(1, e.len() as int) =~= Seq::<Atom>::empty());
            assert(run(f, t, e.subrange(1, e.len() as int), p.len() as int, g) == run(f, t, Seq::<Atom>::empty(), p.len() as int, g));
            assert(t.subrange(0, p.len() as int) =~= s.subrange(pos, pos + p.len()));
        } else {
            if occurs_at(s, p, pos) {
                assert(t.subrange(0, p.len() as int) =~= s.subrange(pos, pos + p.len()));
            }
        }
    }
    assert forall|pos: int| 0 <= pos < s.len() implies !(#[trigger] match_prefix(f, s.subrange(pos, s.len() as int), pv, Seq::empty()) is Fault)
        && !(match_prefix(f, s.subrange(pos, s.len() as int), pv, Seq::empty()) is OutOfFuel) by {
        assert(match_prefix(f, s.subrange(pos, s.len() as int), pv, Seq::empty())
            == (if pos + p.len() == s.len() && occurs_at(s, p, pos) { Outcome::Matched(p.len()) } else { Outcome::NoMatch }));
    }
    lemma_search_total(f, s, pv, 0);
    lemma_search_from(f, s, pv, 0);
    if want {
        let pos = s.len() - p.len();
        assert(occurs_at(s, p, pos));
        assert(match_prefix(f, s.subrange(pos, s.len() as int), pv, Seq::empty()) == Outcome::Matched(p.len()));
        assert(matches_at(f, s, pv, pos));
    }
    if exists|pos: int| 0 <= pos < s.len() && #[trigger] matches_at(f, s, pv, pos) {
        let pos = choose|pos: int| 0 <= pos < s.len() && #[trigger] matches_at(f, s, pv, pos);
        assert(match_prefix(f, s.subrange(pos, s.len() as int), pv, Seq::empty())
            == (if pos + p.len() == s.len() && occurs_at(s, p, pos) { Outcome::Matched(p.len()) } else { Outcome::NoMatch }));
        assert(pos + p.len() == s.len() && occurs_at(s, p, pos));
    }
}

/// A text of one-byte characters.
pub open spec fn is_ascii_text(p: Seq<char>) -> bool {
    forall|k: int| 0 <= k < p.len() ==> (#[trigger] p[k] as u32) < 0x80
}

/// In a text of one-byte characters every position up to its length is a
/// byte position where that character starts.
proof fn lemma_ascii_positions(p: Seq<char>)
    requires
        is_ascii_text(p),
    ensures
        byte_len(p) == p.len(),
        forall|b: int| 0 <= b <= p.len() ==> #[trigger] char_at_byte(p, b) == Some(b),
{
    lemma_byte_offset_ascii(p, p.len() as int);
    assert forall|b: int| 0 <= b <= p.len() implies #[trigger] char_at_byte(p, b) == Some(b) by {
        lemma_byte_offset_ascii(p, b);
        lemma_char_at_byte(p, b);
    }
}

proof fn lemma_ascii_subrange(p: Seq<char>, a: int, b: int)
    requires
        is_ascii_text(p),
        0 <= a <= b <= p.len(),
    ensures
        is_ascii_text(p.subrange(a, b)),
{
    assert forall|k: int| 0 <= k < b - a implies (#[trigger] p.subrange(a, b)[k] as u32) < 0x80 by {
        assert(p.subrange(a, b)[k] == p[a + k]);
    }
}

proof fn lemma_split_bars_ascii(s: Seq<char>)
    requires
        is_ascii_text(s),
    ensures
        forall|k: int| 0 <= k < split_bars(s).len() ==> is_ascii_text(#[trigger] split_bars(s)[k]),
    decreases s.len(),
{
    if s.len() > 0 {
        let t = s.subrange(0, s.len() - 1);
        lemma_ascii_subrange(s, 0, s.len() - 1);
        lemma_split_bars_ascii(t);
        lemma_split_bars(t);
        let r = split_bars(t);
        let c = s[s.len() - 1];
        assert((c as u32) < 0x80);
        if c != '|' {
            let last = r[r.len() - 1];
            assert(is_ascii_text(last));
            assert forall|m: int| 0 <= m < last.push(c).len() implies (#[trigger] last.push(c)[m] as u32) < 0x80 by {
                if m < last.len() {
                    assert(last.push(c)[m] == last[m]);
                }
            }
            assert forall|k: int| 0 <= k < split_bars(s).len() implies is_ascii_text(#[trigger] split_bars(s)[k]) by {
                if k < r.len() - 1 {
                    assert(split_bars(s)[k] == r[k]);
                } else {
                    assert(split_bars(s)[k] == last.push(c));
                }
            }
        } else {
            assert forall|k: int| 0 <= k < split_bars(s).len() implies is_ascii_text(#[trigger] split_bars(s)[k]) by {
                if k < r.len() {
                    assert(split_bars(s)[k] == r[k]);
                } else {
                    assert(split_bars(s)[k] =~= Seq::<char>::empty());
                }
            }
        }
    }
}

proof fn lemma_aligned_from(p: Seq<char>, i: int, acc: Seq<Atom>)
    requires
        is_ascii_text(p),
        0 <= i,
    ensures
        parse_from(p, i, acc) != Err::<Seq<Atom>, PatternError>(PatternError::Misaligned),
    decreases p.len(), 0int, p.len() - i,
{
    lemma_ascii_positions(p);
    if i < p.len() {
        let c = typed_char(p, i);
        assert(nth_char(p, i) == Some(c));
        if c == '\\' {
            if i + 1 < p.len() {
                let d = p[i + 1];
                assert(nth_char(p, i + 1) == Some(d));
                if d == 'd' {
                    lemma_aligned_from(p, i + 2, acc.push(Atom::Digit));
                } else if d == 'w' {
                    lemma_aligned_from(p, i + 2, acc.push(Atom::Word));
                } else if d == '\\' {
                    lemma_aligned_from(p, i + 2, acc.push(Atom::Char('\\')));
                } else if is_ascii_digit(d) {
                    assert(char_at_byte(p, i + 1) == Some(i + 1));
                    let run = digit_run(p, i + 1);
                    assert(run >= 1);
                    crate::parse::lemma_digit_run(p, i + 1);
                    let v = digits_value(p.subrange(i + 1, i + 1 + run));
                    lemma_aligned_from(p, i + 1 + run, acc.push(Atom::BackreferenceInt(v)));
                }
            }
        } else if c == '[' {
            assert(char_at_byte(p, i + 1) == Some(i + 1));
            crate::parse::lemma_find_char(p, i + 1, ']');
            match find_char(p, i + 1, ']') {
                Some(j) => {
                    lemma_byte_offset_ascii(p, j);
                    if p[i + 1] == '^' {
                        assert(nth_char(p, i + 1) == Some('^'));
                        assert(j >= i + 2);
                        assert(char_at_byte(p, i + 2) == Some(i + 2));
                        lemma_aligned_from(p, j + 1, acc.push(Atom::NegativeGroup(p.subrange(i + 2, j))));
                    } else {
                        lemma_aligned_from(p, j + 1, acc.push(Atom::PositiveGroup(p.subrange(i + 1, j))));
                    }
                },
                None => {},
            }
        } else if c == '(' {
            assert(char_at_byte(p, i + 1) == Some(i + 1));
            crate::parse::lemma_find_char(p, i + 1, ')');
            match find_char(p, i + 1, ')') {
                Some(j) => {
                    lemma_byte_offset_ascii(p, j);
                    let inner = p.subrange(i + 1, j);
                    lemma_ascii_subrange(p, i + 1, j);
                    lemma_split_bars_ascii(inner);
                    lemma_split_bars(inner);
                    let pieces = split_bars(inner);
                    if pieces.len() == 1 {
                        lemma_aligned(pieces[0]);
                        match parse(pieces[0]) {
                            Ok(sub) => {
                                lemma_aligned_from(p, j + 1, acc.push(Atom::BackreferenceGroup(sub)));
                            },
                            Err(e) => {},
                        }
                    } else {
                        lemma_aligned_pieces(inner, 0);
                        match parse_pieces(inner, 0) {
                            Ok(alts) => {
                                lemma_aligned_from(p, j + 1, acc.push(Atom::Alternation(alts)));
                            },
                            Err(e) => {},
                        }
                    }
                },
                None => {},
            }
        } else if c == '^' {
            assert(char_at_byte(p, 1) == Some(1int));
            lemma_ascii_subrange(p, 1, p.len() as int);
            lemma_aligned(p.subrange(1, p.len() as int));
        } else if i == p.len() - 1 && c == '$' {
            lemma_aligned_from(p, i + 1, acc.push(Atom::End));
        } else if c == '+' {
            if acc.len() > 0 {
                lemma_aligned_from(p, i + 1, acc.push(Atom::Star(Box::new(acc[acc.len() - 1]))));
            }
        } else if c == '*' {
            if acc.len() > 0 {
                lemma_aligned_from(p, i + 1, acc.subrange(0, acc.len() - 1).push(Atom::Star(Box::new(acc[acc.len() - 1]))));
            }
        } else if c == '?' {
            if acc.len() > 0 {
                lemma_aligned_from(p, i + 1, acc.subrange(0, acc.len() - 1).push(Atom::Question(Box::new(acc[acc.len() - 1]))));
            }
        } else if c == '.' {
            lemma_aligned_from(p, i + 1, acc.push(Atom::Wild));
        } else {
            lemma_aligned_from(p, i + 1, acc.push(Atom::Char(c)));
        }
    }
}

proof fn lemma_aligned(p: Seq<char>)
    requires
        is_ascii_text(p),
    ensures
        parse(p) != Err::<Seq<Atom>, PatternError>(PatternError::Misaligned),
    decreases p.len(), 1int, 0int,
{
    lemma_aligned_from(p, 0, Seq::empty());
}

proof fn lemma_aligned_pieces(inner: Seq<char>, k: int)
    requires
        is_ascii_text(inner),
        0 <= k,
    ensures
        parse_pieces(inner, k) != Err::<Seq<Seq<Atom>>, PatternError>(PatternError::Misaligned),
    decreases inner.len() + 1, 0int, split_bars(inner).len() - k,
{
    lemma_split_bars(inner);
    lemma_split_bars_ascii(inner);
    let pieces = split_bars(inner);
    if k < pieces.len() {
        lemma_aligned(pieces[k]);
        lemma_aligned_pieces(inner, k + 1);
    }
}

/// A pattern of one-byte characters is never refused as misaligned: in it,
/// byte positions and character positions agree.
pub proof fn law_ascii_pattern_aligned(p: Seq<char>)
    requires
        is_ascii_text(p),
    ensures
        parse(p) != Err::<Seq<Atom>, PatternError>(PatternError::Misaligned),
{
    lemma_aligned(p);
}

/// The atoms read so far do not begin with `Start`, and none has been read
/// unless the walk has left position 0.
spec fn no_leading_start(p: Seq<char>, i: int, acc: Seq<Atom>) -> bool {
    &&& acc.len() == 0 ==> i == 0 && (p.len() == 0 || p[0] != '^')
    &&& acc.len() > 0 ==> !(acc[0] is Start)
}

proof fn lemma_no_leading_start_from(p: Seq<char>, i: int, acc: Seq<Atom>)
    requires
        0 <= i,
        no_leading_start(p, i, acc),
    ensures
        parse_from(p, i, acc) matches Ok(r) ==> !(r.len() > 0 && r[0] is Start),
    decreases byte_len(p) - i,
{
    if i < byte_len(p) {
        lemma_byte_offset_grows(p, 0, p.len() as int);
        let c = nth_char(p, i);
        if c == Some('\\') {
            let d = nth_char(p, i + 1);
            if d == Some('d') {
                lemma_no_leading_start_from(p, i + 2, acc.push(Atom::Digit));
            } else if d == Some('w') {
                lemma_no_leading_start_from(p, i + 2, acc.push(Atom::Word));
            } else if d == Some('\\') {
                lemma_no_leading_start_from(p, i + 2, acc.push(Atom::Char('\\')));
            } else if d matches Some(dc) && is_ascii_digit(dc) {
                match char_at_byte(p, i + 1) {
                    Some(k) => {
                        let run = digit_run(p, k);
                        lemma_char_at_byte_some(p, i + 1);
                        crate::parse::lemma_digit_run(p, k);
                        lemma_byte_offset_grows(p, k, k + run);
                        lemma_byte_offset_grows(p, k + run, p.len() as int);
                        let v = digits_value(p.subrange(k, k + run));
                        lemma_no_leading_start_from(p, i + 1 + run, acc.push(Atom::BackreferenceInt(v)));
                    },
                    None => {},
                }
            }
        } else if c == Some('[') || c == Some('(') {
            let close = if c == Some('[') { ']' } else { ')' };
            match char_at_byte(p, i + 1) {
                Some(k) => {
                    lemma_char_at_byte_some(p, i + 1);
                    crate::parse::lemma_find_char(p, k, close);
                    match find_char(p, k, close) {
                        Some(j) => {
                            lemma_byte_offset_grows(p, k, j);
                            lemma_byte_offset_grows(p, j, j + 1);
                            lemma_byte_offset_grows(p, j + 1, p.len() as int);
                            let next = byte_offset(p, j) + 1int;
                            if c == Some('[') {
                                match char_at_byte(p, i + 2) {
                                    Some(k2) => {
                                        lemma_no_leading_start_from(p, next, acc.push(Atom::NegativeGroup(p.subrange(k2, j))));
                                    },
                                    None => {},
                                }
                                lemma_no_leading_start_from(p, next, acc.push(Atom::PositiveGroup(p.subrange(k, j))));
                            } else {
                                let inner = p.subrange(k, j);
                                let pieces = split_bars(inner);
                                lemma_split_bars(inner);
                                match parse(pieces[0]) {
                                    Ok(sub) => {
                                        lemma_no_leading_start_from(p, next, acc.push(Atom::BackreferenceGroup(sub)));
                                    },
                                    Err(_) => {},
                                }
                                match parse_pieces(inner, 0) {
                                    Ok(alts) => {
                                        lemma_no_leading_start_from(p, next, acc.push(Atom::Alternation(alts)));
                                    },
                                    Err(_) => {},
                                }
                            }
                        },
                        None => {},
                    }
                },
                None => {},
            }
        } else if c == Some('^') {
        } else if i == byte_len(p) - 1 && c == Some('$') {
            lemma_no_leading_start_from(p, i + 1, acc.push(Atom::End));
        } else if c == Some('+') {
            if acc.len() > 0 {
                lemma_no_leading_start_from(p, i + 1, acc.push(Atom::Star(Box::new(acc[acc.len() - 1]))));
            }
        } else if c == Some('*') {
            if acc.len() > 0 {
                lemma_no_leading_start_from(p, i + 1, acc.subrange(0, acc.len() - 1).push(Atom::Star(Box::new(acc[acc.len() - 1]))));
            }
        } else if c == Some('?') {
            if acc.len() > 0 {
                lemma_no_leading_start_from(p, i + 1, acc.subrange(0, acc.len() - 1).push(Atom::Question(Box::new(acc[acc.len() - 1]))));
            }
        } else if c == Some('.') {
            lemma_no_leading_start_from(p, i + 1, acc.push(Atom::Wild));
        } else if 0 <= i < p.len() {
            let ch = typed_char(p, i);
            lemma_no_leading_start_from(p, i + 1, acc.push(Atom::Char(ch)));
        }
    }
}

/// A pattern whose first character is not `^` is not parsed into atoms that
/// begin with a `Start` anchor.
pub proof fn law_no_caret_no_start(p: Seq<char>)
    requires
        p.len() == 0 || p[0] != '^',
    ensures
        parse(p) matches Ok(pv) ==> !(pv.len() > 0 && pv[0] is Start),
{
    lemma_no_leading_start_from(p, 0, Seq::empty());
}

/// A pattern whose first character is not `^` matches a text when, and only
/// when, `^` followed by the pattern matches the text from some position on;
/// when no attempt faults, the search gives that answer.
pub proof fn law_search_is_anchored_search_somewhere(f: nat, s: Seq<char>, p: Seq<char>)
    requires
        p.len() == 0 || p[0] != '^',
        pattern_search(f, s, p) is Ok,
    ensures
        pattern_search(f, s, p) == Ok::<bool, MatchFailure>(
            exists|q: int| 0 <= q < s.len()
                && #[trigger] pattern_search(f, s.subrange(q, s.len() as int), seq!['^'] + p) == Ok::<bool, MatchFailure>(true),
        ),
{
    law_no_caret_no_start(p);
    let pv = parse(p)->Ok_0;
    law_unanchored_search(f, s, p);
    assert forall|q: int| 0 <= q < s.len() implies
        (#[trigger] pattern_search(f, s.subrange(q, s.len() as int), seq!['^'] + p) == Ok::<bool, MatchFailure>(true))
            == matches_at(f, s, pv, q) by {
        law_anchored_search(f, s.subrange(q, s.len() as int), p);
    }
    if exists|q: int| 0 <= q < s.len() && #[trigger] matches_at(f, s, pv, q) {
        let q = choose|q: int| 0 <= q < s.len() && #[trigger] matches_at(f, s, pv, q);
        assert(pattern_search(f, s.subrange(q, s.len() as int), seq!['^'] + p) == Ok::<bool, MatchFailure>(true));
    }
    if exists|q: int| 0 <= q < s.len()
        && #[trigger] pattern_search(f, s.subrange(q, s.len() as int), seq!['^'] + p) == Ok::<bool, MatchFailure>(true) {
        let q = choose|q: int| 0 <= q < s.len()
            && #[trigger] pattern_search(f, s.subrange(q, s.len() as int), seq!['^'] + p) == Ok::<bool, MatchFailure>(true);
        assert(matches_at(f, s, pv, q));
    }
}

/// The last of the atoms `r` is the end anchor.
pub open spec fn ends_with_end(r: Seq<Atom>) -> bool {
    r.len() > 0 && r[r.len() - 1] is End
}

proof fn lemma_rest_ends_with_end(r: Seq<Atom>)
    requires
        ends_with_end(r),
        !(r[0] is End) || r.len() > 1,
    ensures
        ends_with_end(r.subrange(1, r.len() as int)),
{
    let rest = r.subrange(1, r.len() as int);
    assert(rest[rest.len() - 1] == r[r.len() - 1]);
}

proof fn lemma_run_whole(f: nat, s: Seq<char>, r: Seq<Atom>, i: int, g: Seq<Seq<char>>)
    requires
        0 <= i,
        ends_with_end(r),
    ensures
        run(f, s, r, i, g) matches Outcome::Matched(j) ==> j == s.len(),
    decreases f, pattern_size(r), s.len() - i, 1int,
{
    let rest = r.subrange(1, r.len() as int);
    assert(pattern_size(r) == atom_size(r[0]) + pattern_size(rest));
    if !(r[0] is End) || r.len() > 1 {
        lemma_rest_ends_with_end(r);
    }
    if i > s.len() {
        match r[0] {
            Atom::End => {
                if s.len() == 0 && rest.len() > 0 {
                    lemma_run_whole(f, s, rest, i, g);
                }
            },
            _ => {},
        }
    } else {
        let t = s.subrange(i, s.len() as int);
        match r[0] {
            Atom::Star(sub) => {
                lemma_star_whole(f, s, *sub, rest, i, g);
            },
            Atom::Question(sub) => {
                lemma_run_whole(f, t, rest, 0, g);
                lemma_run_whole(f, s, rest, i + 1, g);
                lemma_run_whole(f, s, rest, i, g);
            },
            Atom::BackreferenceGroup(sub) => {
                match run(f, t, sub, 0, g) {
                    Outcome::Matched(j) => {
                        lemma_run_bound(f, t, sub, 0, g);
                        lemma_run_whole(f, s, rest, i + j, g.push(s.subrange(i, i + j)));
                    },
                    _ => {},
                }
            },
            Atom::BackreferenceInt(n) => {
                if n >= 1 && n <= g.len() {
                    match parse(g[n - 1]) {
                        Ok(atoms) => {
                            if f > 0 {
                                let q = atoms + rest;
                                assert(q[q.len() - 1] == rest[rest.len() - 1]);
                                lemma_run_whole((f - 1) as nat, t, q, 0, g);
                            }
                        },
                        Err(_) => {},
                    }
                }
            },
            Atom::Alternation(alts) => {
                lemma_alternatives_whole(f, s, alts, rest, i, g);
            },
            Atom::End => {
                if rest.len() > 0 {
                    lemma_run_whole(f, s, rest, i, g);
                }
            },
            other => {
                lemma_run_whole(f, s, rest, i + 1, g);
            },
        }
    }
}

proof fn lemma_star_whole(f: nat, s: Seq<char>, sub: Atom, rest: Seq<Atom>, i: int, g: Seq<Seq<char>>)
    requires
        0 <= i <= s.len(),
        ends_with_end(rest),
    ensures
        star(f, s, sub, rest, i, g) matches Outcome::Matched(j) ==> j == s.len(),
    decreases f, pattern_size(rest) + atom_size(sub) + 1, s.len() - i, 0int,
{
    let t = s.subrange(i, s.len() as int);
    lemma_run_whole(f, t, rest, 0, g);
    lemma_run_whole(f, s, rest, i, g);
    if i < s.len() {
        lemma_star_whole(f, s, sub, rest, i + 1, g);
    }
}

proof fn lemma_alternatives_whole(
    f: nat,
    s: Seq<char>,
    alts: Seq<Seq<Atom>>,
    rest: Seq<Atom>,
    i: int,
    g: Seq<Seq<char>>,
)
    requires
        0 <= i <= s.len(),
        ends_with_end(rest),
    ensures
        alternatives(f, s, alts, rest, i, g) matches Outcome::Matched(j) ==> j == s.len(),
    decreases f, 2 + pattern_size(rest) + alternatives_size(alts), s.len() - i, alts.len(),
{
    if alts.len() > 0 {
        let t = s.subrange(i, s.len() as int);
        let q = seq![Atom::BackreferenceGroup(alts[0])] + rest;
        assert(q[q.len() - 1] == rest[rest.len() - 1]);
        lemma_pattern_size_cons(Atom::BackreferenceGroup(alts[0]), rest);
        lemma_run_whole(f, t, q, 0, g);
        lemma_alternatives_whole(f, s, alts.subrange(1, alts.len() as int), rest, i, g);
    }
}

/// A pattern whose last atom is the end anchor matches only the whole text.
pub proof fn law_end_anchor_matches_whole_text(f: nat, s: Seq<char>, p: Seq<Atom>, g: Seq<Seq<char>>)
    requires
        ends_with_end(p),
    ensures
        match_prefix(f, s, p, g) matches Outcome::Matched(j) ==> j == s.len(),
{
    lemma_run_whole(f, s, p, 0, g);
}

/// The pattern ends in `$`.
pub open spec fn ends_in_dollar(p: Seq<char>) -> bool {
    p.len() > 0 && p[p.len() - 1] == '$'
}

proof fn lemma_end_last_needs_dollar(p: Seq<char>, i: int, acc: Seq<Atom>)
    requires
        0 <= i,
        ends_with_end(acc) ==> ends_in_dollar(p),
    ensures
        parse_from(p, i, acc) matches Ok(r) ==> (ends_with_end(r) ==> ends_in_dollar(p)),
    decreases byte_len(p) - i,
{
    if i < byte_len(p) {
        lemma_byte_offset_grows(p, 0, p.len() as int);
        let c = nth_char(p, i);
        if c == Some('\\') {
            let d = nth_char(p, i + 1);
            if d == Some('d') {
                lemma_end_last_needs_dollar(p, i + 2, acc.push(Atom::Digit));
            } else if d == Some('w') {
                lemma_end_last_needs_dollar(p, i + 2, acc.push(Atom::Word));
            } else if d == Some('\\') {
                lemma_end_last_needs_dollar(p, i + 2, acc.push(Atom::Char('\\')));
            } else if d matches Some(dc) && is_ascii_digit(dc) {
                match char_at_byte(p, i + 1) {
                    Some(k) => {
                        let run = digit_run(p, k);
                        lemma_char_at_byte_some(p, i + 1);
                        crate::parse::lemma_digit_run(p, k);
                        lemma_byte_offset_grows(p, k, k + run);
                        lemma_byte_offset_grows(p, k + run, p.len() as int);
                        let v = digits_value(p.subrange(k, k + run));
                        lemma_end_last_needs_dollar(p, i + 1 + run, acc.push(Atom::BackreferenceInt(v)));
                    },
                    None => {},
                }
            }
        } else if c == Some('[') || c == Some('(') {
            let close = if c == Some('[') { ']' } else { ')' };
            match char_at_byte(p, i + 1) {
                Some(k) => {
                    lemma_char_at_byte_some(p, i + 1);
                    crate::parse::lemma_find_char(p, k, close);
                    match find_char(p, k, close) {
                        Some(j) => {
                            lemma_byte_offset_grows(p, k, j);
                            lemma_byte_offset_grows(p, j, j + 1);
                            lemma_byte_offset_grows(p, j + 1, p.len() as int);
                            let next = byte_offset(p, j) + 1int;
                            if c == Some('[') {
                                match char_at_byte(p, i + 2) {
                                    Some(k2) => {
                                        lemma_end_last_needs_dollar(p, next, acc.push(Atom::NegativeGroup(p.subrange(k2, j))));
                                    },
                                    None => {},
                                }
                                lemma_end_last_needs_dollar(p, next, acc.push(Atom::PositiveGroup(p.subrange(k, j))));
                            } else {
                                let inner = p.subrange(k, j);
                                let pieces = split_bars(inner);
                                lemma_split_bars(inner);
                                match parse(pieces[0]) {
                                    Ok(sub) => {
                                        lemma_end_last_needs_dollar(p, next, acc.push(Atom::BackreferenceGroup(sub)));
                                    },
                                    Err(_) => {},
                                }
                                match parse_pieces(inner, 0) {
                                    Ok(alts) => {
                                        lemma_end_last_needs_dollar(p, next, acc.push(Atom::Alternation(alts)));
                                    },
                                    Err(_) => {},
                                }
                            }
                        },
                        None => {},
                    }
                },
                None => {},
            }
        } else if c == Some('^') {
        } else if i == byte_len(p) - 1 && c == Some('$') {
            lemma_end_last_needs_dollar(p, i + 1, acc.push(Atom::End));
        } else if c == Some('+') {
            if acc.len() > 0 {
                lemma_end_last_needs_dollar(p, i + 1, acc.push(Atom::Star(Box::new(acc[acc.len() - 1]))));
            }
        } else if c == Some('*') {
            if acc.len() > 0 {
                lemma_end_last_needs_dollar(p, i + 1, acc.subrange(0, acc.len() - 1).push(Atom::Star(Box::new(acc[acc.len() - 1]))));
            }
        } else if c == Some('?') {
            if acc.len() > 0 {
                lemma_end_last_needs_dollar(p, i + 1, acc.subrange(0, acc.len() - 1).push(Atom::Question(Box::new(acc[acc.len() - 1]))));
            }
        } else if c == Some('.') {
            lemma_end_last_needs_dollar(p, i + 1, acc.push(Atom::Wild));
        } else if 0 <= i < p.len() {
            let ch = typed_char(p, i);
            lemma_end_last_needs_dollar(p, i + 1, acc.push(Atom::Char(ch)));
        }
    }
}

proof fn lemma_dollar_gives_end_last(p: Seq<char>, i: int, acc: Seq<Atom>)
    requires
        is_ascii_text(p),
        !p.contains('^'),
        ends_in_dollar(p),
        0 <= i <= p.len() - 1,
    ensures
        parse_from(p, i, acc) matches Ok(r) ==> ends_with_end(r),
    decreases p.len() - i,
{
    lemma_ascii_positions(p);
    let n = p.len() as int;
    let c = typed_char(p, i);
    assert(nth_char(p, i) == Some(c));
    if i == n - 1 {
        assert(c == '$');
        crate::parse::lemma_parse_from_end(p, n, acc.push(Atom::End));
    } else if c == '\\' {
        let d = typed_char(p, i + 1);
        assert(nth_char(p, i + 1) == Some(d));
        if d == 'd' {
            lemma_dollar_gives_end_last(p, i + 2, acc.push(Atom::Digit));
        } else if d == 'w' {
            lemma_dollar_gives_end_last(p, i + 2, acc.push(Atom::Word));
        } else if d == '\\' {
            lemma_dollar_gives_end_last(p, i + 2, acc.push(Atom::Char('\\')));
        } else if is_ascii_digit(d) {
            assert(char_at_byte(p, i + 1) == Some(i + 1));
            let run = digit_run(p, i + 1);
            crate::parse::lemma_digit_run(p, i + 1);
            assert(i + 1 + run <= n - 1) by {
                if i + 1 + run > n - 1 {
                    assert(is_ascii_digit(p[n - 1]));
                }
            }
            let v = digits_value(p.subrange(i + 1, i + 1 + run));
            lemma_dollar_gives_end_last(p, i + 1 + run, acc.push(Atom::BackreferenceInt(v)));
        }
    } else if c == '[' || c == '(' {
        let close = if c == '[' { ']' } else { ')' };
        assert(char_at_byte(p, i + 1) == Some(i + 1));
        crate::parse::lemma_find_char(p, i + 1, close);
        match find_char(p, i + 1, close) {
            Some(j) => {
                lemma_byte_offset_ascii(p, j);
                assert(j != n - 1);
                if c == '[' {
                    if j >= i + 2 {
                        assert(char_at_byte(p, i + 2) == Some(i + 2));
                        lemma_dollar_gives_end_last(p, j + 1, acc.push(Atom::NegativeGroup(p.subrange(i + 2, j))));
                    }
                    lemma_dollar_gives_end_last(p, j + 1, acc.push(Atom::PositiveGroup(p.subrange(i + 1, j))));
                } else {
                    let inner = p.subrange(i + 1, j);
                    let pieces = split_bars(inner);
                    lemma_split_bars(inner);
                    match parse(pieces[0]) {
                        Ok(sub) => {
                            lemma_dollar_gives_end_last(p, j + 1, acc.push(Atom::BackreferenceGroup(sub)));
                        },
                        Err(_) => {},
                    }
                    match parse_pieces(inner, 0) {
                        Ok(alts) => {
                            lemma_dollar_gives_end_last(p, j + 1, acc.push(Atom::Alternation(alts)));
                        },
                        Err(_) => {},
                    }
                }
            },
            None => {},
        }
    } else if c == '^' {
        assert(p.contains('^'));
    } else if c == '+' {
        if acc.len() > 0 {
            lemma_dollar_gives_end_last(p, i + 1, acc.push(Atom::Star(Box::new(acc[acc.len() - 1]))));
        }
    } else if c == '*' {
        if acc.len() > 0 {
            lemma_dollar_gives_end_last(p, i + 1, acc.subrange(0, acc.len() - 1).push(Atom::Star(Box::new(acc[acc.len() - 1]))));
        }
    } else if c == '?' {
        if acc.len() > 0 {
            lemma_dollar_gives_end_last(p, i + 1, acc.subrange(0, acc.len() - 1).push(Atom::Question(Box::new(acc[acc.len() - 1]))));
        }
    } else if c == '.' {
        lemma_dollar_gives_end_last(p, i + 1, acc.push(Atom::Wild));
    } else {
        lemma_dollar_gives_end_last(p, i + 1, acc.push(Atom::Char(c)));
    }
}

/// The last parsed atom is the end anchor only when the pattern ends in
/// `$`; and a pattern of one-byte characters without `^` that ends in `$`
/// is parsed with the end anchor last.
pub proof fn law_end_anchor_from_dollar(p: Seq<char>)
    requires
        parse(p) is Ok,
    ensures
        ends_with_end(parse(p)->Ok_0) ==> ends_in_dollar(p),
        is_ascii_text(p) && !p.contains('^') && ends_in_dollar(p) ==> ends_with_end(parse(p)->Ok_0),
{
    lemma_end_last_needs_dollar(p, 0, Seq::empty());
    if is_ascii_text(p) && !p.contains('^') && ends_in_dollar(p) {
        lemma_dollar_gives_end_last(p, 0, Seq::empty());
    }
}

/// What each single-character test accepts at the start of a text: a
/// literal its own character, a group the characters listed in it, `.` any
/// character; `\d` of ASCII characters exactly the digits and `\w` exactly
/// the letters, digits and `_`; beyond ASCII they go by std's
/// `char::is_numeric` and `char::is_alphanumeric`. At the end of the text only a negated group
/// and the end anchor accept.
pub proof fn law_single_char_tests(s: Seq<char>, c: char, g: Seq<char>)
    ensures
        s.len() > 0 ==> at_start(s, Atom::Char(c)) == Some(s[0] == c),
        s.len() > 0 ==> at_start(s, Atom::PositiveGroup(g)) == Some(g.contains(s[0])),
        s.len() > 0 ==> at_start(s, Atom::NegativeGroup(g)) == Some(!g.contains(s[0])),
        s.len() > 0 ==> at_start(s, Atom::Wild) == Some(true),
        s.len() > 0 ==> at_start(s, Atom::End) == Some(false),
        s.len() > 0 && (s[0] as u32) < 0x80 ==> at_start(s, Atom::Digit) == Some('0' <= s[0] && s[0] <= '9'),
        s.len() > 0 && (s[0] as u32) < 0x80 ==> at_start(s, Atom::Word) == Some(
            ('a' <= s[0] && s[0] <= 'z') || ('A' <= s[0] && s[0] <= 'Z') || ('0' <= s[0] && s[0] <= '9')
                || s[0] == '_',
        ),
        s.len() > 0 && (s[0] as u32) >= 0x80 ==> at_start(s, Atom::Digit) == Some(unicode_numeric(s[0])),
        s.len() > 0 && (s[0] as u32) >= 0x80 ==> at_start(s, Atom::Word) == Some(unicode_alphanumeric(s[0])),
        s.len() == 0 ==> at_start(s, Atom::Char(c)) == Some(false) && at_start(s, Atom::Digit) == Some(false)
            && at_start(s, Atom::Word) == Some(false) && at_start(s, Atom::PositiveGroup(g)) == Some(false)
            && at_start(s, Atom::Wild) == Some(false) && at_start(s, Atom::NegativeGroup(g)) == Some(true)
            && at_start(s, Atom::End) == Some(true),
{
}

/// A single-character test that reads a character: neither the end anchor
/// nor a negated group, which also accept the end of the text.
pub open spec fn is_char_reading_test(a: Atom) -> bool {
    a is Char || a is Digit || a is Word || a is PositiveGroup || a is Wild
}

/// The single-character tests `r` all accept, in turn, the characters of
/// `s` from position `i` on.
pub open spec fn tests_accept(s: Seq<char>, r: Seq<Atom>, i: int) -> bool {
    &&& i + r.len() <= s.len()
    &&& forall|k: int| 0 <= k < r.len() ==> #[trigger] at_start(s.subrange(i + k, s.len() as int), r[k]) == Some(true)
}

proof fn lemma_tests_from(f: nat, s: Seq<char>, r: Seq<Atom>, i: int, g: Seq<Seq<char>>)
    requires
        0 <= i <= s.len(),
        forall|k: int| 0 <= k < r.len() ==> is_char_reading_test(#[trigger] r[k]),
    ensures
        run(f, s, r, i, g) == if tests_accept(s, r, i) {
            Outcome::Matched((i + r.len()) as nat)
        } else {
            Outcome::NoMatch
        },
    decreases r.len(),
{
    if r.len() > 0 {
        let rest = r.subrange(1, r.len() as int);
        let t = s.subrange(i, s.len() as int);
        assert(is_char_reading_test(r[0]));
        assert forall|k: int| 0 <= k < rest.len() implies is_char_reading_test(#[trigger] rest[k]) by {
            assert(rest[k] == r[k + 1]);
            assert(is_char_reading_test(r[k + 1]));
        }
        if at_start(t, r[0]) == Some(true) {
            assert(i < s.len());
            lemma_tests_from(f, s, rest, i + 1, g);
            if tests_accept(s, rest, i + 1) {
                assert forall|k: int| 0 <= k < r.len() implies #[trigger] at_start(s.subrange(i + k, s.len() as int), r[k]) == Some(true) by {
                    if k > 0 {
                        assert(rest[k - 1] == r[k]);
                        assert(at_start(s.subrange(i + 1 + (k - 1), s.len() as int), rest[k - 1]) == Some(true));
                    }
                }
            }
            if tests_accept(s, r, i) {
                assert forall|k: int| 0 <= k < rest.len() implies #[trigger] at_start(s.subrange(i + 1 + k, s.len() as int), rest[k]) == Some(true) by {
                    assert(rest[k] == r[k + 1]);
                    assert(at_start(s.subrange(i + (k + 1), s.len() as int), r[k + 1]) == Some(true));
                }
            }
        } else {
            assert(at_start(t, r[0]) is Some);
            if tests_accept(s, r, i) {
                assert(at_start(s.subrange(i + 0, s.len() as int), r[0]) == Some(true));
                assert(s.subrange(i + 0, s.len() as int) == t);
            }
        }
    } else {
        assert(tests_accept(s, r, i));
    }
}

/// Single-character tests that read a character match the start of a text
/// exactly when each accepts its character in turn, and then they match one
/// character each.
pub proof fn law_single_char_tests_match(f: nat, s: Seq<char>, r: Seq<Atom>, g: Seq<Seq<char>>)
    requires
        forall|k: int| 0 <= k < r.len() ==> is_char_reading_test(#[trigger] r[k]),
    ensures
        match_prefix(f, s, r, g) == if r.len() <= s.len() && forall|k: int|
            0 <= k < r.len() ==> #[trigger] at_start(s.subrange(k, s.len() as int), r[k]) == Some(true) {
            Outcome::Matched(r.len())
        } else {
            Outcome::NoMatch
        },
{
    lemma_tests_from(f, s, r, 0, g);
    if tests_accept(s, r, 0) {
        assert forall|k: int| 0 <= k < r.len() implies #[trigger] at_start(s.subrange(k, s.len() as int), r[k]) == Some(true) by {
            assert(at_start(s.subrange(0 + k, s.len() as int), r[k]) == Some(true));
        }
    }
    if r.len() <= s.len() && forall|k: int| 0 <= k < r.len() ==> #[trigger] at_start(s.subrange(k, s.len() as int), r[k]) == Some(true) {
        assert forall|k: int| 0 <= k < r.len() implies #[trigger] at_start(s.subrange(0 + k, s.len() as int), r[k]) == Some(true) by {
            assert(at_start(s.subrange(k, s.len() as int), r[k]) == Some(true));
        }
    }
}

/// A pattern of a literal, `.` and a literal matches every text whose first
/// and third characters are those literals, whatever stands between them.
pub proof fn law_wild_between_literals(f: nat, s: Seq<char>, c1: char, c2: char, g: Seq<Seq<char>>)
    requires
        s.len() >= 3,
        s[0] == c1,
        s[2] == c2,
    ensures
        match_prefix(f, s, seq![Atom::Char(c1), Atom::Wild, Atom::Char(c2)], g) == Outcome::Matched(3),
{
    let r = seq![Atom::Char(c1), Atom::Wild, Atom::Char(c2)];
    assert forall|k: int| 0 <= k < r.len() implies is_char_reading_test(#[trigger] r[k]) by {}
    law_single_char_tests_match(f, s, r, g);
    assert forall|k: int| 0 <= k < r.len() implies #[trigger] at_start(s.subrange(k, s.len() as int), r[k]) == Some(true) by {
        assert(s.subrange(k, s.len() as int)[0] == s[k]);
    }
}

proof fn lemma_alternatives_first(f: nat, s: Seq<char>, alts: Seq<Seq<Atom>>, rest: Seq<Atom>, g: Seq<Seq<char>>, k: int)
    requires
        0 <= k <= alts.len(),
        forall|j: int| 0 <= j < k ==> #[trigger] match_prefix(f, s, seq![Atom::BackreferenceGroup(alts[j])] + rest, g)
            == Outcome::NoMatch,
    ensures
        k == alts.len() ==> alternatives(f, s, alts, rest, 0, g) == Outcome::NoMatch,
        k < alts.len() && !(match_prefix(f, s, seq![Atom::BackreferenceGroup(alts[k])] + rest, g) is NoMatch)
            ==> alternatives(f, s, alts, rest, 0, g) == match_prefix(f, s, seq![Atom::BackreferenceGroup(alts[k])] + rest, g),
    decreases alts.len(),
{
    assert(s.subrange(0, s.len() as int) =~= s);
    if alts.len() > 0 {
        let q = seq![Atom::BackreferenceGroup(alts[0])] + rest;
        assert(run(f, s.subrange(0, s.len() as int), q, 0, g) == match_prefix(f, s, q, g));
        if k > 0 {
            let tail = alts.subrange(1, alts.len() as int);
            assert(match_prefix(f, s, q, g) == Outcome::NoMatch);
            assert forall|j: int| 0 <= j < k - 1 implies #[trigger] match_prefix(f, s, seq![Atom::BackreferenceGroup(tail[j])] + rest, g)
                == Outcome::NoMatch by {
                assert(tail[j] == alts[j + 1]);
                assert(match_prefix(f, s, seq![Atom::BackreferenceGroup(alts[j + 1])] + rest, g) == Outcome::NoMatch);
            }
            lemma_alternatives_first(f, s, tail, rest, g, k - 1);
            if k < alts.len() {
                assert(tail[k - 1] == alts[k]);
            }
        } else {
            match match_prefix(f, s, q, g) {
                Outcome::Matched(j) => {
                    lemma_run_bound(f, s, q, 0, g);
                },
                _ => {},
            }
        }
    }
}

/// An alternation tries its alternatives in order, each as a capturing
/// group followed by the rest of the pattern: the first that does not
/// fail to match decides the outcome, and when every one fails to match,
/// so does the alternation.
pub proof fn law_alternation_first_match(f: nat, s: Seq<char>, alts: Seq<Seq<Atom>>, rest: Seq<Atom>, g: Seq<Seq<char>>, k: int)
    requires
        0 <= k <= alts.len(),
        forall|j: int| 0 <= j < k ==> #[trigger] match_prefix(f, s, seq![Atom::BackreferenceGroup(alts[j])] + rest, g)
            == Outcome::NoMatch,
    ensures
        k == alts.len() ==> match_prefix(f, s, seq![Atom::Alternation(alts)] + rest, g) == Outcome::NoMatch,
        k < alts.len() && !(match_prefix(f, s, seq![Atom::BackreferenceGroup(alts[k])] + rest, g) is NoMatch)
            ==> match_prefix(f, s, seq![Atom::Alternation(alts)] + rest, g)
                == match_prefix(f, s, seq![Atom::BackreferenceGroup(alts[k])] + rest, g),
{
    let r = seq![Atom::Alternation(alts)] + rest;
    assert(r[0] == Atom::Alternation(alts));
    assert(r.subrange(1, r.len() as int) =~= rest);
    lemma_alternatives_first(f, s, alts, rest, g, k);
}

/// A capturing group on its own matches what its atoms match.
pub proof fn law_group_alone(f: nat, s: Seq<char>, a: Seq<Atom>, g: Seq<Seq<char>>)
    ensures
        match_prefix(f, s, seq![Atom::BackreferenceGroup(a)], g) == match_prefix(f, s, a, g),
{
    let r = seq![Atom::BackreferenceGroup(a)];
    assert(r.subrange(1, r.len() as int) =~= Seq::<Atom>::empty());
    assert(s.subrange(0, s.len() as int) =~= s);
    assert(run(f, s.subrange(0, s.len() as int), a, 0, g) == match_prefix(f, s, a, g));
    lemma_run_bound(f, s, a, 0, g);
    match match_prefix(f, s, a, g) {
        Outcome::Matched(j) => {
            let g2 = g.push(s.subrange(0, j as int));
            assert(run(f, s, Seq::<Atom>::empty(), j as int, g2) == Outcome::Matched(j));
            assert(run(f, s, r, 0, g) == run(f, s, r.subrange(1, r.len() as int), j as int, g2));
        },
        _ => {},
    }
}

/// An alternation that ends the pattern matches as its first alternative
/// that does not fail to match, with that alternative's length; when every
/// alternative fails to match, so does the alternation.
pub proof fn law_alternation_alone(f: nat, s: Seq<char>, alts: Seq<Seq<Atom>>, g: Seq<Seq<char>>, k: int)
    requires
        0 <= k <= alts.len(),
        forall|j: int| 0 <= j < k ==> #[trigger] match_prefix(f, s, alts[j], g) == Outcome::NoMatch,
    ensures
        k == alts.len() ==> match_prefix(f, s, seq![Atom::Alternation(alts)], g) == Outcome::NoMatch,
        k < alts.len() && !(match_prefix(f, s, alts[k], g) is NoMatch)
            ==> match_prefix(f, s, seq![Atom::Alternation(alts)], g) == match_prefix(f, s, alts[k], g),
{
    let e = Seq::<Atom>::empty();
    assert(seq![Atom::Alternation(alts)] + e =~= seq![Atom::Alternation(alts)]);
    assert forall|j: int| 0 <= j < k implies #[trigger] match_prefix(f, s, seq![Atom::BackreferenceGroup(alts[j])] + e, g)
        == Outcome::NoMatch by {
        assert(seq![Atom::BackreferenceGroup(alts[j])] + e =~= seq![Atom::BackreferenceGroup(alts[j])]);
        law_group_alone(f, s, alts[j], g);
    }
    if k < alts.len() {
        assert(seq![Atom::BackreferenceGroup(alts[k])] + e =~= seq![Atom::BackreferenceGroup(alts[k])]);
        law_group_alone(f, s, alts[k], g);
    }
    law_alternation_first_match(f, s, alts, e, g, k);
}

/// The pieces joined again, with a `|` between each two.
pub open spec fn join_bars(pieces: Seq<Seq<char>>) -> Seq<char>
    decreases pieces.len(),
{
    if pieces.len() <= 1 {
        if pieces.len() == 1 { pieces[0] } else { Seq::empty() }
    } else {
        join_bars(pieces.drop_last()) + seq!['|'] + pieces.last()
    }
}

proof fn lemma_join_bars_extend(r: Seq<Seq<char>>, c: char)
    requires
        r.len() > 0,
    ensures
        join_bars(r.update(r.len() - 1, r[r.len() - 1].push(c))) == join_bars(r).push(c),
{
    let u = r.update(r.len() - 1, r[r.len() - 1].push(c));
    if r.len() > 1 {
        assert(u.drop_last() =~= r.drop_last());
        assert(join_bars(u) =~= join_bars(r).push(c));
    } else {
        assert(join_bars(u) =~= join_bars(r).push(c));
    }
}

/// The text of a group is cut at every `|` and nowhere else: no piece holds
/// a `|`, and joining the pieces with `|` gives the text back.
pub proof fn law_split_bars(t: Seq<char>)
    ensures
        join_bars(split_bars(t)) == t,
        forall|k: int| 0 <= k < split_bars(t).len() ==> !(#[trigger] split_bars(t)[k]).contains('|'),
    decreases t.len(),
{
    if t.len() == 0 {
        assert(join_bars(split_bars(t)) =~= t);
        assert forall|k: int| 0 <= k < split_bars(t).len() implies !(#[trigger] split_bars(t)[k]).contains('|') by {
            assert(split_bars(t)[k] =~= Seq::<char>::empty());
        }
    } else {
        let u = t.subrange(0, t.len() - 1);
        let c = t[t.len() - 1];
        law_split_bars(u);
        lemma_split_bars(u);
        let r = split_bars(u);
        if c == '|' {
            let q = r.push(Seq::empty());
            assert(q.drop_last() =~= r);
            assert(join_bars(q) =~= t);
            assert forall|k: int| 0 <= k < q.len() implies !(#[trigger] q[k]).contains('|') by {
                if k < r.len() {
                    assert(q[k] == r[k]);
                } else {
                    assert(q[k] =~= Seq::<char>::empty());
                }
            }
        } else {
            let q = r.update(r.len() - 1, r[r.len() - 1].push(c));
            lemma_join_bars_extend(r, c);
            assert(u.push(c) =~= t);
            assert forall|k: int| 0 <= k < q.len() implies !(#[trigger] q[k]).contains('|') by {
                if k < r.len() - 1 {
                    assert(q[k] == r[k]);
                } else {
                    let last = r[r.len() - 1];
                    assert(!last.contains('|'));
                    if q[k].contains('|') {
                        let m = choose|m: int| 0 <= m < q[k].len() && q[k][m] == '|';
                        assert(q[k] == last.push(c));
                        if m < last.len() {
                            assert(last[m] == '|');
                        }
                    }
                }
            }
        }
    }
}

proof fn lemma_parse_pieces_from(inner: Seq<char>, k: int)
    requires
        0 <= k <= split_bars(inner).len(),
    ensures
        parse_pieces(inner, k) is Ok <==> forall|m: int| k <= m < split_bars(inner).len() ==> #[trigger] parse(split_bars(inner)[m]) is Ok,
        parse_pieces(inner, k) matches Ok(alts) ==> alts.len() == split_bars(inner).len() - k
            && forall|m: int| 0 <= m < alts.len() ==> Ok::<Seq<Atom>, PatternError>(#[trigger] alts[m]) == parse(split_bars(inner)[k + m]),
    decreases split_bars(inner).len() - k,
{
    let pieces = split_bars(inner);
    if k < pieces.len() {
        lemma_parse_pieces_from(inner, k + 1);
        match parse(pieces[k]) {
            Ok(a) => {
                match parse_pieces(inner, k + 1) {
                    Ok(rest) => {
                        let alts = seq![a] + rest;
                        assert forall|m: int| 0 <= m < alts.len() implies Ok::<Seq<Atom>, PatternError>(#[trigger] alts[m]) == parse(pieces[k + m]) by {
                            if m > 0 {
                                assert(alts[m] == rest[m - 1]);
                                assert(Ok::<Seq<Atom>, PatternError>(rest[m - 1]) == parse(pieces[k + 1 + (m - 1)]));
                            }
                        }
                        assert forall|m: int| k <= m < pieces.len() implies #[trigger] parse(pieces[m]) is Ok by {
                            if m > k {
                                assert(parse(pieces[m]) is Ok);
                            }
                        }
                    },
                    Err(_) => {},
                }
            },
            Err(_) => {},
        }
    }
}

/// The alternatives of a group are its `|`-separated pieces, each parsed:
/// as many as there are pieces, in order; parsing fails where a piece fails.
pub proof fn law_parse_pieces(inner: Seq<char>)
    ensures
        parse_pieces(inner, 0) is Ok <==> forall|m: int| 0 <= m < split_bars(inner).len() ==> #[trigger] parse(split_bars(inner)[m]) is Ok,
        parse_pieces(inner, 0) matches Ok(alts) ==> alts.len() == split_bars(inner).len()
            && forall|m: int| 0 <= m < alts.len() ==> Ok::<Seq<Atom>, PatternError>(#[trigger] alts[m]) == parse(split_bars(inner)[m]),
{
    lemma_parse_pieces_from(inner, 0);
    match parse_pieces(inner, 0) {
        Ok(alts) => {
            assert forall|m: int| 0 <= m < alts.len() implies Ok::<Seq<Atom>, PatternError>(#[trigger] alts[m]) == parse(split_bars(inner)[m]) by {
                assert(Ok::<Seq<Atom>, PatternError>(alts[m]) == parse(split_bars(inner)[0 + m]));
            }
        },
        Err(_) => {},
    }
}

/// A pattern that is one parenthesised group is parsed into one atom: a
/// capturing group of the parsed text when it holds no `|`, else an
/// alternation of its `|`-separated pieces, each parsed.
pub proof fn law_group_parse(inner: Seq<char>)
    requires
        !inner.contains(')'),
    ensures
        parse(seq!['('] + inner + seq![')']) == if split_bars(inner).len() == 1 {
            match parse(inner) {
                Ok(sub) => Ok(seq![Atom::BackreferenceGroup(sub)]),
                Err(e) => Err(e),
            }
        } else {
            match parse_pieces(inner, 0) {
                Ok(alts) => Ok(seq![Atom::Alternation(alts)]),
                Err(e) => Err::<Seq<Atom>, PatternError>(e),
            }
        },
{
    let q = seq!['('] + inner + seq![')'];
    let n = q.len() as int;
    assert(q[0] == '(');
    assert(byte_offset(q, 0) == 0);
    assert(('(' as u32) < 0x80);
    assert(byte_offset(q, 1) == 1);
    lemma_char_at_byte(q, 1);
    lemma_byte_offset_grows(q, 0, n);
    assert(nth_char(q, 0) == Some('('));
    // The closing bracket is the last character.
    assert forall|m: int| 1 <= m < n - 1 implies q[m] != ')' by {
        assert(q[m] == inner[m - 1]);
        if q[m] == ')' {
            assert(inner.contains(')'));
        }
    }
    lemma_find_char_last(q, 1, ')');
    assert(q.subrange(1, n - 1) =~= inner);
    assert(q[n - 1] == ')');
    assert(byte_offset(q, n) == byte_offset(q, n - 1) + 1);
    law_split_bars(inner);
    lemma_split_bars(inner);
    if split_bars(inner).len() == 1 {
        assert(join_bars(split_bars(inner)) == split_bars(inner)[0]);
        match parse(inner) {
            Ok(sub) => {
                crate::parse::lemma_parse_from_end(q, byte_len(q) as int, Seq::<Atom>::empty().push(Atom::BackreferenceGroup(sub)));
                assert(Seq::<Atom>::empty().push(Atom::BackreferenceGroup(sub)) =~= seq![Atom::BackreferenceGroup(sub)]);
            },
            Err(_) => {},
        }
    } else {
        match parse_pieces(inner, 0) {
            Ok(alts) => {
                crate::parse::lemma_parse_from_end(q, byte_len(q) as int, Seq::<Atom>::empty().push(Atom::Alternation(alts)));
                assert(Seq::<Atom>::empty().push(Atom::Alternation(alts)) =~= seq![Atom::Alternation(alts)]);
            },
            Err(_) => {},
        }
    }
}

proof fn lemma_find_char_last(q: Seq<char>, from: int, c: char)
    requires
        0 <= from <= q.len() - 1,
        q[q.len() - 1] == c,
        forall|m: int| from <= m < q.len() - 1 ==> q[m] != c,
    ensures
        find_char(q, from, c) == Some(q.len() - 1),
    decreases q.len() - from,
{
    if from < q.len() - 1 {
        lemma_find_char_last(q, from + 1, c);
    }
}

proof fn lemma_escape_tail(p: Seq<char>, x: char)
    requires
        forall|k: int| 0 <= k < p.len() ==> #[trigger] is_plain(p[k]),
        x == 'd' || x == 'w' || x == '\\',
    ensures
        parse(p + seq!['\\', x]) == Ok::<Seq<Atom>, PatternError>(char_atoms(p).push(
            if x == 'd' { Atom::Digit } else if x == 'w' { Atom::Word } else { Atom::Char('\\') },
        )),
{
    let n = p.len() as int;
    let q = p + seq!['\\', x];
    lemma_class_tail(p, seq!['\\', x]);
    assert(nth_char(q, n) == Some('\\'));
    assert(nth_char(q, n + 1) == Some(x));
    crate::parse::lemma_parse_from_end(q, n + 2, char_atoms(p).push(
        if x == 'd' { Atom::Digit } else if x == 'w' { Atom::Word } else { Atom::Char('\\') },
    ));
}

proof fn lemma_dot_tail(p: Seq<char>)
    requires
        forall|k: int| 0 <= k < p.len() ==> #[trigger] is_plain(p[k]),
    ensures
        parse(p + seq!['.']) == Ok::<Seq<Atom>, PatternError>(char_atoms(p).push(Atom::Wild)),
{
    let n = p.len() as int;
    let q = p + seq!['.'];
    lemma_class_tail(p, seq!['.']);
    assert(nth_char(q, n) == Some('.'));
    crate::parse::lemma_parse_from_end(q, n + 1, char_atoms(p).push(Atom::Wild));
}

proof fn lemma_bracket_tail(p: Seq<char>, g: Seq<char>)
    requires
        forall|k: int| 0 <= k < p.len() ==> #[trigger] is_plain(p[k]),
        is_ascii_text(g),
        !g.contains(']'),
    ensures
        parse(p + seq!['['] + g + seq![']']) == Ok::<Seq<Atom>, PatternError>(char_atoms(p).push(
            if g.len() > 0 && g[0] == '^' {
                Atom::NegativeGroup(g.subrange(1, g.len() as int))
            } else {
                Atom::PositiveGroup(g)
            },
        )),
{
    let n = p.len() as int;
    let q = p + seq!['['] + g + seq![']'];
    let t = seq!['['] + g + seq![']'];
    assert(q =~= p + t);
    assert forall|k: int| 0 <= k < t.len() implies (#[trigger] t[k] as u32) < 0x80 by {
        if 1 <= k < t.len() - 1 {
            assert(t[k] == g[k - 1]);
        }
    }
    lemma_class_tail(p, t);
    let qn = q.len() as int;
    lemma_ascii_positions(q);
    assert(nth_char(q, n) == Some('['));
    assert(char_at_byte(q, n + 1) == Some(n + 1));
    assert forall|m: int| n + 1 <= m < qn - 1 implies q[m] != ']' by {
        assert(q[m] == g[m - n - 1]);
        if q[m] == ']' {
            assert(g.contains(']'));
        }
    }
    lemma_find_char_last(q, n + 1, ']');
    lemma_byte_offset_ascii(q, qn - 1);
    let a = if g.len() > 0 && g[0] == '^' {
        Atom::NegativeGroup(g.subrange(1, g.len() as int))
    } else {
        Atom::PositiveGroup(g)
    };
    crate::parse::lemma_parse_from_end(q, qn, char_atoms(p).push(a));
    if g.len() > 0 && g[0] == '^' {
        assert(nth_char(q, n + 1) == Some('^'));
        assert(char_at_byte(q, n + 2) == Some(n + 2));
        assert(q.subrange(n + 2, qn - 1) =~= g.subrange(1, g.len() as int));
    } else {
        if g.len() == 0 {
            assert(q[n + 1] == ']');
        } else {
            assert(q[n + 1] == g[0]);
        }
        assert(nth_char(q, n + 1) != Some('^'));
        assert(q.subrange(n + 1, qn - 1) =~= g);
    }
}

/// After characters that stand for themselves, `\d`, `\w` and `\\` are
/// read as a digit test, a word test and a literal backslash, `.` as the
/// wildcard, and a bracketed group as a group of its characters, negated
/// when they begin with `^`.
pub proof fn law_class_parse(p: Seq<char>, g: Seq<char>)
    requires
        forall|k: int| 0 <= k < p.len() ==> #[trigger] is_plain(p[k]),
        is_ascii_text(g),
        !g.contains(']'),
    ensures
        parse(p + seq!['\\', 'd']) == Ok::<Seq<Atom>, PatternError>(char_atoms(p).push(Atom::Digit)),
        parse(p + seq!['\\', 'w']) == Ok::<Seq<Atom>, PatternError>(char_atoms(p).push(Atom::Word)),
        parse(p + seq!['\\', '\\']) == Ok::<Seq<Atom>, PatternError>(char_atoms(p).push(Atom::Char('\\'))),
        parse(p + seq!['.']) == Ok::<Seq<Atom>, PatternError>(char_atoms(p).push(Atom::Wild)),
        parse(p + seq!['['] + g + seq![']']) == Ok::<Seq<Atom>, PatternError>(char_atoms(p).push(
            if g.len() > 0 && g[0] == '^' {
                Atom::NegativeGroup(g.subrange(1, g.len() as int))
            } else {
                Atom::PositiveGroup(g)
            },
        )),
{
    lemma_escape_tail(p, 'd');
    lemma_escape_tail(p, 'w');
    lemma_escape_tail(p, '\\');
    lemma_dot_tail(p);
    lemma_bracket_tail(p, g);
}

/// The characters that stand for themselves in front of a tail of one-byte
/// characters are read as literals before the tail is read.
proof fn lemma_class_tail(p: Seq<char>, t: Seq<char>)
    requires
        forall|k: int| 0 <= k < p.len() ==> #[trigger] is_plain(p[k]),
        t.len() > 0,
        forall|k: int| 0 <= k < t.len() ==> (#[trigger] t[k] as u32) < 0x80,
    ensures
        is_ascii_text(p + t),
        byte_len(p + t) == p.len() + t.len(),
        parse(p + t) == parse_from(p + t, p.len() as int, char_atoms(p)),
{
    let q = p + t;
    let n = p.len() as int;
    assert forall|k: int| 0 <= k < q.len() implies (#[trigger] q[k] as u32) < 0x80 by {
        if k < n {
            assert(q[k] == p[k]);
            assert(is_plain(p[k]));
        } else {
            assert(q[k] == t[k - n]);
        }
    }
    lemma_byte_offset_ascii(q, q.len() as int);
    assert(p == q.subrange(0, n));
    lemma_parse_plain_run(p, q, 0, Seq::empty());
    assert(p.subrange(0, n) =~= p);
    assert(Seq::<Atom>::empty() + char_atoms(p.subrange(0, n)) =~= char_atoms(p));
}

} // verus!
