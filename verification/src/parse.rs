use vstd::prelude::*;
use crate::atom::{
    Atom, PatternAtom, atoms_view, alternatives_view, copy_atom, lemma_atoms_view_push,
    lemma_atoms_view_drop_last, lemma_alternatives_view_push, lemma_char_view, lemma_repeat_view,
};
use crate::text::{
    string_from_chars, chars_of, char_vecs_view, byte_len, byte_offset, char_at_byte, nth_char,
    lemma_byte_offset_grows, lemma_char_at_byte_some, byte_offsets_of, byte_offsets, char_index_at,
};

verus! {

/// Why a pattern cannot be parsed.
#[derive(Debug, Clone, Copy, PartialEq, Eq)]
pub enum PatternError {
    /// A `\` followed by nothing, or by a character other than `d`, `w`, `\` or a digit.
    UnknownEscape,
    /// A back-reference number that does not fit in a `usize`.
    BackreferenceTooLarge,
    /// A `[` with no `]` after it.
    UnclosedBracket,
    /// A `(` with no `)` after it.
    UnclosedParen,
    /// A `*` or `?` with no atom before it.
    NothingToRepeat,
    /// A `+` with no atom before it.
    PlusWithoutAtom,
    /// A byte position that the parser reads or cuts the pattern at is not
    /// where a character starts, or lies past the last character (see
    /// `parse_from`); this needs a character of more than one byte.
    Misaligned,
}

/// An ASCII decimal digit.
pub open spec fn is_ascii_digit(c: char) -> bool {
    '0' <= c && c <= '9'
}

/// Number of consecutive ASCII digits in `p` from position `j` on.
pub open spec fn digit_run(p: Seq<char>, j: int) -> nat
    decreases p.len() - j,
{
    if 0 <= j < p.len() && is_ascii_digit(p[j]) {
        1 + digit_run(p, j + 1)
    } else {
        0
    }
}

pub proof fn lemma_digit_run(p: Seq<char>, j: int)
    requires
        0 <= j <= p.len(),
    ensures
        j + digit_run(p, j) <= p.len(),
        forall|m: int| j <= m < j + digit_run(p, j) ==> #[trigger] is_ascii_digit(p[m]),
        j + digit_run(p, j) < p.len() ==> !is_ascii_digit(p[j + digit_run(p, j)]),
    decreases p.len() - j,
{
    if j < p.len() && is_ascii_digit(p[j]) {
        lemma_digit_run(p, j + 1);
    }
}

/// The number written in decimal by the digits `d`.
pub open spec fn digits_value(d: Seq<char>) -> nat
    decreases d.len(),
{
    if d.len() == 0 {
        0
    } else {
        digits_value(d.subrange(0, d.len() - 1)) * 10 + ((d[d.len() - 1] as int) - ('0' as int)) as nat
    }
}

/// The first position at or after `from` where `p` holds `c`.
pub open spec fn find_char(p: Seq<char>, from: int, c: char) -> Option<int>
    decreases p.len() - from,
{
    if from < 0 || from >= p.len() {
        None
    } else if p[from] == c {
        Some(from)
    } else {
        find_char(p, from + 1, c)
    }
}

/// `s` cut at each `|`: the pieces, in order, without the bars.
pub open spec fn split_bars(s: Seq<char>) -> Seq<Seq<char>>
    decreases s.len(),
{
    if s.len() == 0 {
        seq![Seq::empty()]
    } else {
        let r = split_bars(s.subrange(0, s.len() - 1));
        let c = s[s.len() - 1];
        if c == '|' {
            r.push(Seq::empty())
        } else {
            r.update(r.len() - 1, r[r.len() - 1].push(c))
        }
    }
}

pub proof fn lemma_split_bars(s: Seq<char>)
    ensures
        split_bars(s).len() >= 1,
        forall|k: int| 0 <= k < split_bars(s).len() ==> #[trigger] split_bars(s)[k].len() <= s.len(),
    decreases s.len(),
{
    if s.len() > 0 {
        lemma_split_bars(s.subrange(0, s.len() - 1));
    }
}

pub proof fn lemma_find_char(p: Seq<char>, from: int, c: char)
    ensures
        find_char(p, from, c) matches Some(j) ==> from <= j < p.len() && p[j] == c,
    decreases p.len() - from,
{
    if 0 <= from < p.len() && p[from] != c {
        lemma_find_char(p, from + 1, c);
    }
}

/// The atoms of pattern `p`, or why it cannot be parsed.
pub open spec fn parse(p: Seq<char>) -> Result<Seq<Atom>, PatternError>
    decreases p.len(), 1int, 0int,
{
    parse_from(p, 0, Seq::empty())
}

/// Parsing `p` from byte position `i` on, with `acc` the atoms read so far.
///
/// The parser walks the pattern by byte position `i`, but reads "the
/// character at `i`" as the character with index `i` (`nth_char`), and cuts
/// the pattern at byte positions. The two agree while every character before
/// `i` takes one byte; where they do not, and a read or a cut fails, the
/// pattern is refused as `Misaligned`.
pub open spec fn parse_from(p: Seq<char>, i: int, acc: Seq<Atom>) -> Result<Seq<Atom>, PatternError>
    decreases p.len(), 0int, byte_len(p) - i,
{
    if i < 0 || i >= byte_len(p) {
        Ok(acc)
    } else {
        proof {
            lemma_byte_offset_grows(p, 0, p.len() as int);
        }
        let c = nth_char(p, i);
        if c == Some('\\') {
            let d = nth_char(p, i + 1);
            if d == Some('d') {
                parse_from(p, i + 2, acc.push(Atom::Digit))
            } else if d == Some('w') {
                parse_from(p, i + 2, acc.push(Atom::Word))
            } else if d == Some('\\') {
                parse_from(p, i + 2, acc.push(Atom::Char('\\')))
            } else if d matches Some(dc) && is_ascii_digit(dc) {
                match char_at_byte(p, i + 1) {
                    None => Err(PatternError::Misaligned),
                    Some(k) => {
                        let run = digit_run(p, k);
                        proof {
                            lemma_char_at_byte_some(p, i + 1);
                            lemma_digit_run(p, k);
                            lemma_byte_offset_grows(p, k, k + run);
                            lemma_byte_offset_grows(p, k + run, p.len() as int);
                        }
                        let v = digits_value(p.subrange(k, k + run));
                        if run == 0 {
                            Err(PatternError::Misaligned)
                        } else if v > usize::MAX {
                            Err(PatternError::BackreferenceTooLarge)
                        } else if k + run < p.len() {
                            parse_from(p, i + 1 + run, acc.push(Atom::BackreferenceInt(v)))
                        } else {
                            Ok(acc.push(Atom::BackreferenceInt(v)))
                        }
                    },
                }
            } else {
                Err(PatternError::UnknownEscape)
            }
        } else if c == Some('[') {
            match char_at_byte(p, i + 1) {
                None => Err(PatternError::Misaligned),
                Some(k) => match find_char(p, k, ']') {
                    None => Err(PatternError::UnclosedBracket),
                    Some(j) => {
                        proof {
                            lemma_char_at_byte_some(p, i + 1);
                            lemma_find_char(p, k, ']');
                            lemma_byte_offset_grows(p, k, j);
                            lemma_byte_offset_grows(p, j, j + 1);
                            lemma_byte_offset_grows(p, j + 1, p.len() as int);
                        }
                        let next = byte_offset(p, j) + 1int;
                        if nth_char(p, i + 1) == Some('^') {
                            if byte_offset(p, j) < i + 2 {
                                Err(PatternError::Misaligned)
                            } else {
                                match char_at_byte(p, i + 2) {
                                    None => Err(PatternError::Misaligned),
                                    Some(k2) => parse_from(
                                        p,
                                        next,
                                        acc.push(Atom::NegativeGroup(p.subrange(k2, j))),
                                    ),
                                }
                            }
                        } else {
                            parse_from(p, next, acc.push(Atom::PositiveGroup(p.subrange(k, j))))
                        }
                    },
                },
            }
        } else if c == Some('(') {
            match char_at_byte(p, i + 1) {
                None => Err(PatternError::Misaligned),
                Some(k) => match find_char(p, k, ')') {
                    None => Err(PatternError::UnclosedParen),
                    Some(j) => {
                        proof {
                            lemma_char_at_byte_some(p, i + 1);
                            lemma_find_char(p, k, ')');
                            lemma_byte_offset_grows(p, 0, k);
                            lemma_byte_offset_grows(p, k, j);
                            lemma_byte_offset_grows(p, j, j + 1);
                            lemma_byte_offset_grows(p, j + 1, p.len() as int);
                        }
                        let next = byte_offset(p, j) + 1int;
                        let inner = p.subrange(k, j);
                        let pieces = split_bars(inner);
                        proof {
                            lemma_split_bars(inner);
                        }
                        if pieces.len() == 1 {
                            match parse(pieces[0]) {
                                Err(e) => Err(e),
                                Ok(sub) => parse_from(p, next, acc.push(Atom::BackreferenceGroup(sub))),
                            }
                        } else {
                            match parse_pieces(inner, 0) {
                                Err(e) => Err(e),
                                Ok(alts) => parse_from(p, next, acc.push(Atom::Alternation(alts))),
                            }
                        }
                    },
                },
            }
        } else if c == Some('^') {
            match char_at_byte(p, 1) {
                None => Err(PatternError::Misaligned),
                Some(k) => {
                    proof {
                        lemma_char_at_byte_some(p, 1);
                    }
                    match parse(p.subrange(k, p.len() as int)) {
                        Err(e) => Err(e),
                        Ok(sub) => Ok(acc.push(Atom::Start(sub))),
                    }
                },
            }
        } else if i == byte_len(p) - 1 && c == Some('$') {
            parse_from(p, i + 1, acc.push(Atom::End))
        } else if c == Some('+') {
            if acc.len() == 0 {
                Err(PatternError::PlusWithoutAtom)
            } else {
                parse_from(p, i + 1, acc.push(Atom::Star(Box::new(acc[acc.len() - 1]))))
            }
        } else if c == Some('*') {
            if acc.len() == 0 {
                Err(PatternError::NothingToRepeat)
            } else {
                parse_from(
                    p,
                    i + 1,
                    acc.subrange(0, acc.len() - 1).push(Atom::Star(Box::new(acc[acc.len() - 1]))),
                )
            }
        } else if c == Some('?') {
            if acc.len() == 0 {
                Err(PatternError::NothingToRepeat)
            } else {
                parse_from(
                    p,
                    i + 1,
                    acc.subrange(0, acc.len() - 1).push(Atom::Question(Box::new(acc[acc.len() - 1]))),
                )
            }
        } else if c == Some('.') {
            parse_from(p, i + 1, acc.push(Atom::Wild))
        } else {
            match c {
                None => Err(PatternError::Misaligned),
                Some(ch) => parse_from(p, i + 1, acc.push(Atom::Char(ch))),
            }
        }
    }
}

/// Parsing the `|`-separated pieces of `inner` from the `k`-th on.
pub open spec fn parse_pieces(inner: Seq<char>, k: int) -> Result<Seq<Seq<Atom>>, PatternError>
    decreases inner.len() + 1, 0int, split_bars(inner).len() - k,
{
    let pieces = split_bars(inner);
    if k < 0 || k >= pieces.len() {
        Ok(Seq::empty())
    } else {
        proof {
            lemma_split_bars(inner);
        }
        match parse(pieces[k]) {
            Err(e) => Err(e),
            Ok(a) => match parse_pieces(inner, k + 1) {
                Err(e) => Err(e),
                Ok(rest) => Ok(seq![a] + rest),
            },
        }
    }
}

pub proof fn lemma_digits_value_prefix(d: Seq<char>, a: int, b: int)
    requires
        0 <= a <= b <= d.len(),
        forall|m: int| 0 <= m < d.len() ==> #[trigger] is_ascii_digit(d[m]),
    ensures
        digits_value(d.subrange(0, a)) <= digits_value(d.subrange(0, b)),
    decreases b - a,
{
    if a < b {
        lemma_digits_value_prefix(d, a, b - 1);
        let t = d.subrange(0, b);
        assert(t.subrange(0, t.len() - 1) =~= d.subrange(0, b - 1));
        assert(is_ascii_digit(d[b - 1]));
    }
}

/// What a parse result stands for.
pub open spec fn parse_view(r: Result<Vec<PatternAtom>, PatternError>) -> Result<Seq<Atom>, PatternError> {
    match r {
        Ok(v) => Ok(atoms_view(v@)),
        Err(e) => Err(e),
    }
}

/// The first position at or after `from` where `p` holds `c`.
fn find_char_at(p: &[char], from: usize, c: char) -> (r: Option<usize>)
    requires
        from <= p@.len(),
    ensures
        r matches Some(j) ==> find_char(p@, from as int, c) == Some(j as int),
        r is None ==> find_char(p@, from as int, c) is None,
{
    let mut j = from;
    while j < p.len()
        invariant
            from <= j <= p@.len(),
            find_char(p@, from as int, c) == find_char(p@, j as int, c),
        decreases p@.len() - j,
    {
        if p[j] == c {
            return Some(j);
        }
        j = j + 1;
    }
    None
}

/// `s` cut at each `|`.
fn split_bars_at(s: &[char]) -> (r: Vec<Vec<char>>)
    ensures
        char_vecs_view(r@) == split_bars(s@),
{
    let mut done: Vec<Vec<char>> = Vec::new();
    let mut cur: Vec<char> = Vec::new();
    let mut j: usize = 0;
    while j < s.len()
        invariant
            j <= s@.len(),
            split_bars(s@.subrange(0, j as int)) == char_vecs_view(done@).push(cur@),
        decreases s@.len() - j,
    {
        let c = s[j];
        let ghost before = s@.subrange(0, j as int);
        assert(s@.subrange(0, j + 1).subrange(0, j as int) =~= before);
        if c == '|' {
            done.push(cur);
            cur = Vec::new();
            assert(char_vecs_view(done@) =~= split_bars(before));
        } else {
            cur.push(c);
            assert(char_vecs_view(done@).push(cur@) =~= split_bars(before).update(
                split_bars(before).len() - 1,
                split_bars(before)[split_bars(before).len() - 1].push(c),
            ));
        }
        j = j + 1;
    }
    assert(s@.subrange(0, s@.len() as int) =~= s@);
    done.push(cur);
    assert(char_vecs_view(done@) =~= split_bars(s@));
    done
}

/// The length of the run of ASCII digits at `j`, and the number it writes
/// when that fits in a `usize`.
fn read_number(p: &[char], j: usize) -> (r: (usize, Option<usize>))
    requires
        j <= p@.len(),
    ensures
        r.0 == digit_run(p@, j as int),
        r.1 matches Some(v) ==> v == digits_value(p@.subrange(j as int, j + r.0)),
        r.1 is None ==> digits_value(p@.subrange(j as int, j + r.0)) > usize::MAX,
{
    let mut m = j;
    while m < p.len() && '0' <= p[m] && p[m] <= '9'
        invariant
            j <= m <= p@.len(),
            digit_run(p@, j as int) == (m - j) + digit_run(p@, m as int),
        decreases p@.len() - m,
    {
        m = m + 1;
    }
    proof {
        lemma_digit_run(p@, j as int);
    }
    let k = m - j;
    let ghost d = p@.subrange(j as int, m as int);
    let mut val: usize = 0;
    let mut t: usize = 0;
    while t < k
        invariant
            k == m - j,
            j + k <= p@.len(),
            k == digit_run(p@, j as int),
            d == p@.subrange(j as int, m as int),
            forall|q: int| j <= q < j + k ==> #[trigger] is_ascii_digit(p@[q]),
            t <= k,
            val == digits_value(d.subrange(0, t as int)),
        decreases k - t,
    {
        let c = p[j + t];
        assert(is_ascii_digit(p@[j + t]));
        let digit = ((c as u32) - ('0' as u32)) as usize;
        let ghost dt = d.subrange(0, t + 1);
        assert(dt.subrange(0, dt.len() - 1) =~= d.subrange(0, t as int));
        assert(dt[dt.len() - 1] == c);
        match val.checked_mul(10) {
            None => {
                proof {
                    assert forall|q: int| 0 <= q < d.len() implies #[trigger] is_ascii_digit(d[q]) by {
                        assert(d[q] == p@[j + q]);
                    }
                    lemma_digits_value_prefix(d, t + 1, d.len() as int);
                    assert(d.subrange(0, d.len() as int) =~= d);
                }
                return (k, None);
            },
            Some(v10) => match v10.checked_add(digit) {
                None => {
                    proof {
                        assert forall|q: int| 0 <= q < d.len() implies #[trigger] is_ascii_digit(d[q]) by {
                            assert(d[q] == p@[j + q]);
                        }
                        lemma_digits_value_prefix(d, t + 1, d.len() as int);
                        assert(d.subrange(0, d.len() as int) =~= d);
                    }
                    return (k, None);
                },
                Some(v) => {
                    val = v;
                },
            },
        }
        t = t + 1;
    }
    assert(d.subrange(0, k as int) =~= d);
    (k, Some(val))
}

pub(crate) proof fn lemma_parse_from_end(p: Seq<char>, i: int, acc: Seq<Atom>)
    requires
        i >= byte_len(p),
    ensures
        parse_from(p, i, acc) == Ok::<Seq<Atom>, PatternError>(acc),
{
}

/// A character that is no operator at position `i` is read as itself.
pub(crate) proof fn lemma_parse_literal(p: Seq<char>, i: int, acc: Seq<Atom>, c: char)
    requires
        0 <= i < p.len(),
        p[i] == c,
        c != '.' && c != '?' && c != '*' && c != '+' && c != '^' && c != '(' && c != '['
            && c != '\\',
        !(i == byte_len(p) - 1 && c == '$'),
    ensures
        parse_from(p, i, acc) == parse_from(p, i + 1, acc.push(Atom::Char(c))),
{
    lemma_byte_offset_grows(p, 0, p.len() as int);
    assert(nth_char(p, i) == Some(c));
}

proof fn lemma_parse_literal_step(p: Seq<char>, i: int, s: Seq<PatternAtom>, c: char)
    requires
        0 <= i < p.len(),
        p[i] == c,
        c != '.' && c != '?' && c != '*' && c != '+' && c != '^' && c != '(' && c != '['
            && c != '\\',
        !(i == byte_len(p) - 1 && c == '$'),
    ensures
        parse_from(p, i, atoms_view(s)) == parse_from(p, i + 1, atoms_view(s.push(PatternAtom::Char(c)))),
{
    lemma_parse_literal(p, i, atoms_view(s), c);
    lemma_atoms_view_push(s, PatternAtom::Char(c));
    lemma_char_view(c);
}

proof fn lemma_parse_repeat_step(p: Seq<char>, i: int, s: Seq<PatternAtom>, c: char, a: PatternAtom)
    requires
        0 <= i < p.len(),
        p[i] == c,
        c == '*' || c == '?',
        s.len() > 0,
        a == (if c == '*' {
            PatternAtom::Star(Box::new(s[s.len() - 1]))
        } else {
            PatternAtom::Question(Box::new(s[s.len() - 1]))
        }),
    ensures
        parse_from(p, i, atoms_view(s)) == parse_from(p, i + 1, atoms_view(s.subrange(0, s.len() - 1).push(a))),
{
    let x = atoms_view(s);
    let last = s[s.len() - 1];
    lemma_atoms_view_drop_last(s);
    lemma_parse_repeat(p, i, x, c);
    lemma_repeat_view(last);
    lemma_atoms_view_push(s.subrange(0, s.len() - 1), a);
    let n = x.len();
    let y = atoms_view(s.subrange(0, s.len() - 1).push(a));
    assert(x.subrange(0, n - 1) == atoms_view(s.subrange(0, s.len() - 1)));
    if c == '*' {
        let z = x.subrange(0, n - 1).push(Atom::Star(Box::new(x[n - 1])));
        assert(y =~= z);
        assert(parse_from(p, i + 1, y) == parse_from(p, i + 1, z));
    } else {
        let z = x.subrange(0, n - 1).push(Atom::Question(Box::new(x[n - 1])));
        assert(y =~= z);
        assert(parse_from(p, i + 1, y) == parse_from(p, i + 1, z));
    }
}

/// A `*` or `?` at position `i` repeats the atom read last.
pub(crate) proof fn lemma_parse_repeat(p: Seq<char>, i: int, acc: Seq<Atom>, c: char)
    requires
        0 <= i < p.len(),
        p[i] == c,
        c == '*' || c == '?',
        acc.len() > 0,
    ensures
        c == '*' ==> parse_from(p, i, acc) == parse_from(
            p,
            i + 1,
            acc.subrange(0, acc.len() - 1).push(Atom::Star(Box::new(acc[acc.len() - 1]))),
        ),
        c == '?' ==> parse_from(p, i, acc) == parse_from(
            p,
            i + 1,
            acc.subrange(0, acc.len() - 1).push(Atom::Question(Box::new(acc[acc.len() - 1]))),
        ),
{
    lemma_byte_offset_grows(p, 0, p.len() as int);
    assert(nth_char(p, i) == Some(c));
}

/// The step of a parse that reads what stands at byte position `i`: the new
/// position, with the atoms read so far in `acc`, or why parsing fails.
spec fn parse_step_ok(p: Seq<char>, i: int, before: Seq<Atom>, after: Seq<Atom>, r: Result<u128, PatternError>) -> bool {
    match r {
        Ok(j) => i < j <= byte_len(p) && parse_from(p, i, before) == parse_from(p, j as int, after),
        Err(e) => parse_from(p, i, before) == Err::<Seq<Atom>, PatternError>(e),
    }
}

/// The character with index `i` of `p`, if there is one.
fn nth(p: &[char], i: u128) -> (r: Option<char>)
    ensures
        r == nth_char(p@, i as int),
{
    if i < p.len() as u128 {
        Some(p[i as usize])
    } else {
        None
    }
}

/// Reads the escape at byte position `i`, where `\` is read.
fn parse_escape(p: &[char], offs: &Vec<u128>, i: u128, acc: &mut Vec<PatternAtom>) -> (r: Result<u128, PatternError>)
    requires
        byte_offsets_of(offs@, p@),
        i < byte_len(p@),
        nth_char(p@, i as int) == Some('\\'),
    ensures
        parse_step_ok(p@, i as int, atoms_view(old(acc)@), atoms_view(final(acc)@), r),
{
    let n = p.len();
    let total = offs[n];
    proof {
        lemma_byte_offset_grows(p@, 0, n as int);
    }
    let d = match nth(p, i + 1) {
        None => {
            return Err(PatternError::UnknownEscape);
        },
        Some(d) => d,
    };
    let a;
    let next;
    if d == 'd' {
        a = PatternAtom::Digit;
        next = i + 2;
    } else if d == 'w' {
        a = PatternAtom::Word;
        next = i + 2;
    } else if d == '\\' {
        a = PatternAtom::Char('\\');
        next = i + 2;
        proof { lemma_char_view('\\'); }
    } else if '0' <= d && d <= '9' {
        let k = match char_index_at(offs, i + 1, Ghost(p@)) {
            None => {
                return Err(PatternError::Misaligned);
            },
            Some(k) => k,
        };
        proof {
            lemma_char_at_byte_some(p@, i + 1);
        }
        let (run, value) = read_number(p, k);
        proof {
            lemma_digit_run(p@, k as int);
            lemma_byte_offset_grows(p@, k as int, k + run);
            lemma_byte_offset_grows(p@, k + run, n as int);
        }
        if run == 0 {
            return Err(PatternError::Misaligned);
        }
        match value {
            None => {
                return Err(PatternError::BackreferenceTooLarge);
            },
            Some(v) => {
                a = PatternAtom::BackreferenceInt(v);
                if k + run < n {
                    next = i + 1 + run as u128;
                } else {
                    next = total;
                    proof {
                        lemma_atoms_view_push(acc@, a);
                        lemma_parse_from_end(p@, total as int, atoms_view(acc@.push(a)));
                    }
                }
            },
        }
    } else {
        return Err(PatternError::UnknownEscape);
    }
    proof { lemma_atoms_view_push(acc@, a); }
    acc.push(a);
    Ok(next)
}

/// Reads the bracket group at byte position `i`, where `[` is read.
fn parse_bracket(p: &[char], offs: &Vec<u128>, i: u128, acc: &mut Vec<PatternAtom>) -> (r: Result<u128, PatternError>)
    requires
        byte_offsets_of(offs@, p@),
        i < byte_len(p@),
        nth_char(p@, i as int) == Some('['),
    ensures
        parse_step_ok(p@, i as int, atoms_view(old(acc)@), atoms_view(final(acc)@), r),
{
    let n = p.len();
    proof {
        lemma_byte_offset_grows(p@, 0, n as int);
    }
    let k = match char_index_at(offs, i + 1, Ghost(p@)) {
        None => {
            return Err(PatternError::Misaligned);
        },
        Some(k) => k,
    };
    proof {
        lemma_char_at_byte_some(p@, i + 1);
    }
    match find_char_at(p, k, ']') {
        None => Err(PatternError::UnclosedBracket),
        Some(j) => {
            proof {
                lemma_find_char(p@, k as int, ']');
                lemma_byte_offset_grows(p@, k as int, j as int);
                lemma_byte_offset_grows(p@, j as int, j + 1);
                lemma_byte_offset_grows(p@, j + 1, n as int);
            }
            let next = offs[j] + 1;
            let a;
            if nth(p, i + 1) == Some('^') {
                if offs[j] < i + 2 {
                    return Err(PatternError::Misaligned);
                }
                let k2 = match char_index_at(offs, i + 2, Ghost(p@)) {
                    None => {
                        return Err(PatternError::Misaligned);
                    },
                    Some(k2) => k2,
                };
                proof {
                    lemma_char_at_byte_some(p@, i + 2);
                    if k2 > j {
                        lemma_byte_offset_grows(p@, j as int, k2 as int);
                    }
                }
                a = PatternAtom::NegativeGroup(string_from_chars(&p[k2..j]));
            } else {
                a = PatternAtom::PositiveGroup(string_from_chars(&p[k..j]));
            }
            proof { lemma_atoms_view_push(acc@, a); }
            acc.push(a);
            Ok(next)
        },
    }
}

/// Reads the parenthesised group at byte position `i`, where `(` is read.
fn parse_paren(p: &[char], offs: &Vec<u128>, i: u128, acc: &mut Vec<PatternAtom>) -> (r: Result<u128, PatternError>)
    requires
        byte_offsets_of(offs@, p@),
        i < byte_len(p@),
        nth_char(p@, i as int) == Some('('),
    ensures
        parse_step_ok(p@, i as int, atoms_view(old(acc)@), atoms_view(final(acc)@), r),
    decreases p@.len(), 0int,
{
    let n = p.len();
    proof {
        lemma_byte_offset_grows(p@, 0, n as int);
    }
    let k = match char_index_at(offs, i + 1, Ghost(p@)) {
        None => {
            return Err(PatternError::Misaligned);
        },
        Some(k) => k,
    };
    proof {
        lemma_char_at_byte_some(p@, i + 1);
        lemma_byte_offset_grows(p@, 0, k as int);
    }
    match find_char_at(p, k, ')') {
        None => Err(PatternError::UnclosedParen),
        Some(j) => {
            proof {
                lemma_find_char(p@, k as int, ')');
                lemma_byte_offset_grows(p@, k as int, j as int);
                lemma_byte_offset_grows(p@, j as int, j + 1);
                lemma_byte_offset_grows(p@, j + 1, n as int);
            }
            let next = offs[j] + 1;
            let inner = &p[k..j];
            let pieces = split_bars_at(inner);
            proof {
                lemma_split_bars(inner@);
                assert(forall|q: int| 0 <= q < pieces@.len() ==> char_vecs_view(pieces@)[q] == #[trigger] pieces@[q]@);
            }
            let a;
            if pieces.len() == 1 {
                match parse_chars(pieces[0].as_slice()) {
                    Err(e) => {
                        return Err(e);
                    },
                    Ok(sub) => {
                        a = PatternAtom::BackreferenceGroup(sub);
                    },
                }
            } else {
                match parse_alternatives(inner, &pieces) {
                    Err(e) => {
                        return Err(e);
                    },
                    Ok(alts) => {
                        a = PatternAtom::Alternation(alts);
                    },
                }
            }
            proof { lemma_atoms_view_push(acc@, a); }
            acc.push(a);
            Ok(next)
        },
    }
}

/// Parses each of the `|`-separated pieces of `inner`.
fn parse_alternatives(inner: &[char], pieces: &Vec<Vec<char>>) -> (r: Result<Vec<Vec<PatternAtom>>, PatternError>)
    requires
        char_vecs_view(pieces@) == split_bars(inner@),
    ensures
        match r {
            Ok(alts) => parse_pieces(inner@, 0) == Ok::<Seq<Seq<Atom>>, PatternError>(alternatives_view(alts@)),
            Err(e) => parse_pieces(inner@, 0) == Err::<Seq<Seq<Atom>>, PatternError>(e),
        },
    decreases inner@.len() + 1, 0int,
{
    proof {
        lemma_split_bars(inner@);
    }
    let mut alts: Vec<Vec<PatternAtom>> = Vec::new();
    let mut k: usize = 0;
    proof {
        match parse_pieces(inner@, 0) {
            Ok(all) => {
                assert(alternatives_view(alts@) + all =~= all);
            },
            Err(e) => {},
        }
    }
    while k < pieces.len()
        invariant
            k <= pieces@.len(),
            char_vecs_view(pieces@) == split_bars(inner@),
            forall|q: int| 0 <= q < pieces@.len() ==> #[trigger] char_vecs_view(pieces@)[q].len() <= inner@.len(),
            parse_pieces(inner@, 0) == match parse_pieces(inner@, k as int) {
                Err(e) => Err(e),
                Ok(rest) => Ok(alternatives_view(alts@) + rest),
            },
        decreases pieces@.len() - k,
    {
        assert(char_vecs_view(pieces@)[k as int] == pieces@[k as int]@);
        match parse_chars(pieces[k].as_slice()) {
            Err(e) => {
                return Err(e);
            },
            Ok(sub) => {
                proof {
                    lemma_alternatives_view_push(alts@, sub);
                    match parse_pieces(inner@, k + 1) {
                        Err(e) => {},
                        Ok(rest) => {
                            assert(alternatives_view(alts@) + (seq![atoms_view(sub@)] + rest)
                                =~= alternatives_view(alts@).push(atoms_view(sub@)) + rest);
                        },
                    }
                }
                alts.push(sub);
            },
        }
        k = k + 1;
    }
    assert(alternatives_view(alts@) + Seq::<Seq<Atom>>::empty() =~= alternatives_view(alts@));
    Ok(alts)
}

/// Reads what stands at byte position `i` when it is not `\`, `[`, `(` or
/// `^`: `c` is the character read there, if any.
fn parse_plain(p: &[char], offs: &Vec<u128>, i: u128, c: Option<char>, acc: &mut Vec<PatternAtom>) -> (r: Result<u128, PatternError>)
    requires
        byte_offsets_of(offs@, p@),
        i < byte_len(p@),
        c == nth_char(p@, i as int),
        c != Some('\\') && c != Some('[') && c != Some('(') && c != Some('^'),
    ensures
        parse_step_ok(p@, i as int, atoms_view(old(acc)@), atoms_view(final(acc)@), r),
{
    let n = p.len();
    let total = offs[n];
    proof {
        lemma_byte_offset_grows(p@, 0, n as int);
    }
    let ch = match c {
        None => {
            return Err(PatternError::Misaligned);
        },
        Some(ch) => ch,
    };
    if i == total - 1 && ch == '$' {
        proof { lemma_atoms_view_push(acc@, PatternAtom::End); }
        acc.push(PatternAtom::End);
    } else if ch == '+' {
        if acc.len() == 0 {
            return Err(PatternError::PlusWithoutAtom);
        }
        let last = copy_atom(&acc[acc.len() - 1]);
        proof {
            lemma_atoms_view_drop_last(acc@);
            lemma_repeat_view(last);
        }
        let a = PatternAtom::Star(Box::new(last));
        proof { lemma_atoms_view_push(acc@, a); }
        acc.push(a);
    } else if ch == '*' || ch == '?' {
        let ghost before = acc@;
        match acc.pop() {
            None => {
                return Err(PatternError::NothingToRepeat);
            },
            Some(last) => {
                let a = if ch == '*' {
                    PatternAtom::Star(Box::new(last))
                } else {
                    PatternAtom::Question(Box::new(last))
                };
                proof {
                    lemma_parse_repeat_step(p@, i as int, before, ch, a);
                }
                acc.push(a);
            },
        }
    } else if ch == '.' {
        proof { lemma_atoms_view_push(acc@, PatternAtom::Wild); }
        acc.push(PatternAtom::Wild);
    } else {
        proof {
            lemma_parse_literal_step(p@, i as int, acc@, ch);
        }
        acc.push(PatternAtom::Char(ch));
    }
    Ok(i + 1)
}

/// Parses the characters of a pattern.
pub(crate) fn parse_chars(p: &[char]) -> (r: Result<Vec<PatternAtom>, PatternError>)
    ensures
        parse_view(r) == parse(p@),
    decreases p@.len(), 1int,
{
    let n = p.len();
    let offs = byte_offsets(p);
    let total = offs[n];
    proof {
        lemma_byte_offset_grows(p@, 0, n as int);
    }
    let mut acc: Vec<PatternAtom> = Vec::new();
    let mut i: u128 = 0;
    assert(atoms_view(acc@) =~= Seq::<Atom>::empty());
    while i < total
        invariant
            n == p@.len(),
            byte_offsets_of(offs@, p@),
            total == byte_len(p@),
            i <= total,
            parse(p@) == parse_from(p@, i as int, atoms_view(acc@)),
        decreases total - i,
    {
        let c = nth(p, i);
        let step;
        if c == Some('\\') {
            step = parse_escape(p, &offs, i, &mut acc);
        } else if c == Some('[') {
            step = parse_bracket(p, &offs, i, &mut acc);
        } else if c == Some('(') {
            step = parse_paren(p, &offs, i, &mut acc);
        } else if c == Some('^') {
            let k = match char_index_at(&offs, 1, Ghost(p@)) {
                None => {
                    return Err(PatternError::Misaligned);
                },
                Some(k) => k,
            };
            proof {
                lemma_char_at_byte_some(p@, 1);
            }
            match parse_chars(&p[k..n]) {
                Err(e) => {
                    return Err(e);
                },
                Ok(sub) => {
                    let a = PatternAtom::Start(sub);
                    proof { lemma_atoms_view_push(acc@, a); }
                    acc.push(a);
                    return Ok(acc);
                },
            }
        } else {
            step = parse_plain(p, &offs, i, c, &mut acc);
        }
        match step {
            Err(e) => {
                return Err(e);
            },
            Ok(next) => {
                i = next;
            },
        }
    }
    proof { lemma_parse_from_end(p@, i as int, atoms_view(acc@)); }
    Ok(acc)
}

/// Parses a pattern into its atoms, or says why it cannot be parsed.
///
/// The pattern is read from left to right: `\d`, `\w`, `\\` and `\n`
/// (a back-reference number) are escapes; `[...]` and `[^...]` are character
/// groups; `(...)` is a capturing group, and an alternation when it holds a
/// `|`; a `^` anchors the rest of the pattern; a `$` at the very end is the
/// end anchor; `+`, `*` and `?` repeat the atom before them; `.` is any
/// character; every other character stands for itself. Positions are
/// counted in bytes but characters are looked up by index (see
/// `parse_from`), so a pattern with a multi-byte character outside brackets
/// is mostly refused as `Misaligned`.
pub fn parse_pattern(pattern: &str) -> (r: Result<Vec<PatternAtom>, PatternError>)
    ensures
        parse_view(r) == parse(pattern@),
{
    let cs = chars_of(pattern);
    parse_chars(cs.as_slice())
}

/// Parses a well-formed pattern into its atoms.
pub fn split_pattern(pattern: &str) -> (r: Vec<PatternAtom>)
    requires
        parse(pattern@) is Ok,
    ensures
        parse(pattern@) == Ok::<Seq<Atom>, PatternError>(atoms_view(r@)),
{
    match parse_pattern(pattern) {
        Ok(v) => v,
        Err(_) => {
            assert(false);
            Vec::new()
        },
    }
}

} // verus!
