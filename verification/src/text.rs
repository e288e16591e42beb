use vstd::prelude::*;

verus! {

/// The characters of a string slice, in order.
pub(crate) fn chars_of(s: &str) -> (v: Vec<char>)
    ensures
        v@ == s@,
{
    broadcast use vstd::string::group_string_axioms;

    let mut v: Vec<char> = Vec::new();
    for c in iter: s.chars()
        invariant
            v@ == iter.seq().take(iter.index() as int),
    {
        v.push(c);
    }
    v
}


/// The number of bytes that `c` takes in UTF-8.
pub open spec fn utf8_width(c: char) -> nat {
    if (c as u32) < 0x80 {
        1
    } else if (c as u32) < 0x800 {
        2
    } else if (c as u32) < 0x10000 {
        3
    } else {
        4
    }
}

/// The number of bytes that the first `k` characters of `p` take in UTF-8:
/// the byte position at which character `k` starts.
pub open spec fn byte_offset(p: Seq<char>, k: int) -> nat
    decreases k,
{
    if k <= 0 {
        0
    } else {
        byte_offset(p, k - 1) + utf8_width(p[k - 1])
    }
}

/// The number of bytes that `p` takes in UTF-8.
pub open spec fn byte_len(p: Seq<char>) -> nat {
    byte_offset(p, p.len() as int)
}

/// The index of the character that starts at byte position `b` of `p`
/// (`p.len()` for the end), or `None` where `b` is not such a position.
pub open spec fn char_at_byte(p: Seq<char>, b: int) -> Option<int> {
    if exists|k: int| 0 <= k <= p.len() && #[trigger] byte_offset(p, k) == b {
        Some(choose|k: int| 0 <= k <= p.len() && #[trigger] byte_offset(p, k) == b)
    } else {
        None
    }
}

/// The character with index `i` of `p`, if there is one.
pub open spec fn nth_char(p: Seq<char>, i: int) -> Option<char> {
    if 0 <= i < p.len() {
        Some(p[i])
    } else {
        None
    }
}

/// Each character takes between one and four bytes.
pub proof fn lemma_byte_offset_grows(p: Seq<char>, a: int, b: int)
    requires
        0 <= a <= b,
    ensures
        byte_offset(p, a) + (b - a) <= byte_offset(p, b),
        byte_offset(p, b) <= byte_offset(p, a) + 4 * (b - a),
    decreases b - a,
{
    if a < b {
        lemma_byte_offset_grows(p, a, b - 1);
    }
}

/// A character position is found again from its byte position.
pub proof fn lemma_char_at_byte(p: Seq<char>, k: int)
    requires
        0 <= k <= p.len(),
    ensures
        char_at_byte(p, byte_offset(p, k) as int) == Some(k),
{
    let b = byte_offset(p, k) as int;
    assert(0 <= k <= p.len() && byte_offset(p, k) == b);
    let k2 = choose|k2: int| 0 <= k2 <= p.len() && #[trigger] byte_offset(p, k2) == b;
    if k2 < k {
        lemma_byte_offset_grows(p, k2, k);
    } else if k < k2 {
        lemma_byte_offset_grows(p, k, k2);
    }
}

/// What `char_at_byte` gives is a character position at that byte position.
pub proof fn lemma_char_at_byte_some(p: Seq<char>, b: int)
    ensures
        char_at_byte(p, b) matches Some(k) ==> 0 <= k <= p.len() && byte_offset(p, k) == b,
{
}

/// In a text of one-byte characters, byte and character positions agree.
pub proof fn lemma_byte_offset_ascii(p: Seq<char>, k: int)
    requires
        0 <= k <= p.len(),
        forall|m: int| 0 <= m < k ==> (#[trigger] p[m] as u32) < 0x80,
    ensures
        byte_offset(p, k) == k,
    decreases k,
{
    if k > 0 {
        lemma_byte_offset_ascii(p, k - 1);
    }
}

proof fn lemma_byte_offset_first(p: Seq<char>, k: int)
    requires
        1 <= k <= p.len(),
    ensures
        byte_offset(p, k) == utf8_width(p[0]) + byte_offset(p.drop_first(), k - 1),
    decreases k,
{
    if k > 1 {
        lemma_byte_offset_first(p, k - 1);
        assert(p.drop_first()[k - 2] == p[k - 1]);
    } else {
        assert(byte_offset(p, 0) == 0);
        assert(byte_offset(p.drop_first(), 0) == 0);
    }
}

/// `byte_len` is the length of the UTF-8 encoding of the text, which is
/// what `str::len` returns.
pub proof fn lemma_byte_len_is_utf8_len(p: Seq<char>)
    ensures
        byte_len(p) == vstd::utf8::encode_utf8(p).len(),
    decreases p.len(),
{
    if p.len() > 0 {
        let c = p[0];
        vstd::utf8::char_is_scalar(c);
        lemma_byte_offset_first(p, p.len() as int);
        lemma_byte_len_is_utf8_len(p.drop_first());
        assert(vstd::utf8::encode_scalar(c as u32).len() == utf8_width(c));
    }
}

/// The number of bytes that `c` takes in UTF-8.
fn char_width(c: char) -> (w: u128)
    ensures
        w == utf8_width(c),
{
    let u = c as u32;
    if u < 0x80 {
        1
    } else if u < 0x800 {
        2
    } else if u < 0x10000 {
        3
    } else {
        4
    }
}

/// The byte positions at which the characters of `p` start, followed by the
/// byte length of `p`.
pub open spec fn byte_offsets_of(offs: Seq<u128>, p: Seq<char>) -> bool {
    &&& offs.len() == p.len() + 1
    &&& forall|k: int| 0 <= k <= p.len() ==> #[trigger] offs[k] == byte_offset(p, k)
}

/// The byte position at which each character of `p` starts, and the byte
/// length of `p` last.
pub(crate) fn byte_offsets(p: &[char]) -> (offs: Vec<u128>)
    ensures
        byte_offsets_of(offs@, p@),
{
    let mut offs: Vec<u128> = Vec::new();
    offs.push(0);
    let mut k: usize = 0;
    let mut total: u128 = 0;
    let n = p.len();
    assert(n <= u64::MAX);
    while k < n
        invariant
            n == p@.len(),
            k <= n,
            n <= u64::MAX,
            offs@.len() == k + 1,
            total == byte_offset(p@, k as int),
            forall|m: int| 0 <= m <= k ==> #[trigger] offs@[m] == byte_offset(p@, m),
        decreases p@.len() - k,
    {
        proof {
            lemma_byte_offset_grows(p@, 0, k + 1);
        }
        total = total + char_width(p[k]);
        offs.push(total);
        k = k + 1;
    }
    offs
}

/// The index of the character that starts at byte position `b`, given the
/// byte positions `offs` of the characters of `p`.
pub(crate) fn char_index_at(offs: &Vec<u128>, b: u128, Ghost(p): Ghost<Seq<char>>) -> (r: Option<usize>)
    requires
        byte_offsets_of(offs@, p),
    ensures
        r matches Some(k) ==> char_at_byte(p, b as int) == Some(k as int),
        r is None ==> char_at_byte(p, b as int) is None,
{
    let mut k: usize = 0;
    while k < offs.len() && offs[k] < b
        invariant
            byte_offsets_of(offs@, p),
            k <= offs@.len(),
            forall|m: int| 0 <= m < k ==> #[trigger] byte_offset(p, m) < b,
        decreases offs@.len() - k,
    {
        k = k + 1;
    }
    if k < offs.len() && offs[k] == b {
        proof {
            lemma_char_at_byte(p, k as int);
        }
        Some(k)
    } else {
        proof {
            assert forall|m: int| 0 <= m <= p.len() implies #[trigger] byte_offset(p, m) != b by {
                if m >= k {
                    lemma_byte_offset_grows(p, k as int, m);
                }
            }
        }
        None
    }
}

/// The texts held by a vector of character vectors.
pub open spec fn char_vecs_view(v: Seq<Vec<char>>) -> Seq<Seq<char>> {
    Seq::new(v.len(), |k: int| v[k]@)
}

/// The texts held by a sequence of strings.
pub open spec fn strings_view(v: Seq<String>) -> Seq<Seq<char>> {
    Seq::new(v.len(), |k: int| v[k]@)
}

pub proof fn lemma_char_vecs_view_push(v: Seq<Vec<char>>, x: Vec<char>)
    ensures
        char_vecs_view(v.push(x)) == char_vecs_view(v).push(x@),
{
    assert(char_vecs_view(v.push(x)) =~= char_vecs_view(v).push(x@));
}

/// A fresh vector holding `cs`.
pub(crate) fn copy_chars(cs: &[char]) -> (v: Vec<char>)
    ensures
        v@ == cs@,
{
    let mut v: Vec<char> = Vec::new();
    let mut k: usize = 0;
    while k < cs.len()
        invariant
            k <= cs@.len(),
            v@ == cs@.subrange(0, k as int),
        decreases cs@.len() - k,
    {
        v.push(cs[k]);
        k = k + 1;
        assert(v@ =~= cs@.subrange(0, k as int));
    }
    assert(cs@.subrange(0, cs@.len() as int) =~= cs@);
    v
}

/// A fresh copy of each of the vectors in `g`.
pub(crate) fn copy_char_vecs(g: &Vec<Vec<char>>) -> (r: Vec<Vec<char>>)
    ensures
        char_vecs_view(r@) == char_vecs_view(g@),
{
    let mut r: Vec<Vec<char>> = Vec::new();
    let mut k: usize = 0;
    while k < g.len()
        invariant
            k <= g@.len(),
            r@.len() == k,
            forall|q: int| 0 <= q < k ==> #[trigger] r@[q]@ == g@[q]@,
        decreases g@.len() - k,
    {
        let c = copy_chars(g[k].as_slice());
        r.push(c);
        k = k + 1;
    }
    assert(char_vecs_view(r@) =~= char_vecs_view(g@));
    r
}

/// Whether `c` occurs in `cs`.
pub(crate) fn contains_char(cs: &[char], c: char) -> (b: bool)
    ensures
        b == cs@.contains(c),
{
    let mut k: usize = 0;
    while k < cs.len()
        invariant
            k <= cs@.len(),
            forall|q: int| 0 <= q < k ==> cs@[q] != c,
        decreases cs@.len() - k,
    {
        if cs[k] == c {
            return true;
        }
        k = k + 1;
    }
    false
}

/// A string made of the given characters, in order.
///
/// Trusted: calls std's `FromIterator<&char>` for `String` (`collect`), which
/// appends each character in turn; the contract states that the result holds
/// exactly these characters.
#[verifier::external_body]
pub(crate) fn string_from_chars(cs: &[char]) -> (s: String)
    ensures
        s@ == cs@,
{
    cs.iter().collect()
}

/// Whether `char::is_numeric` holds of `c`: whether `c` falls in one of
/// Unicode's numeric general categories.
pub uninterp spec fn unicode_numeric(c: char) -> bool;

/// Whether `char::is_alphanumeric` holds of `c`: whether `c` is alphabetic
/// or numeric in Unicode's sense.
pub uninterp spec fn unicode_alphanumeric(c: char) -> bool;

/// An ASCII letter.
pub open spec fn is_ascii_letter(c: char) -> bool {
    ('a' <= c && c <= 'z') || ('A' <= c && c <= 'Z')
}

/// Whether `c` is numeric: among ASCII characters exactly the digits `0`
/// to `9`; beyond ASCII, what std's Unicode tables say.
pub open spec fn is_numeric(c: char) -> bool {
    if (c as u32) < 0x80 {
        '0' <= c && c <= '9'
    } else {
        unicode_numeric(c)
    }
}

/// Whether `c` is alphanumeric: among ASCII characters exactly the letters
/// and digits; beyond ASCII, what std's Unicode tables say.
pub open spec fn is_alphanumeric(c: char) -> bool {
    if (c as u32) < 0x80 {
        is_ascii_letter(c) || ('0' <= c && c <= '9')
    } else {
        unicode_alphanumeric(c)
    }
}

/// Trusted: calls std's `char::is_numeric`, documented to hold of the
/// characters in Unicode's numeric general categories (Nd, Nl, No). Its
/// answer depends on `c` alone and is named; of ASCII characters the
/// contract states what those categories hold: the digits `0` to `9` and
/// nothing else. Beyond ASCII nothing more is stated.
#[verifier::external_body]
pub(crate) fn is_numeric_char(c: char) -> (b: bool)
    ensures
        b == unicode_numeric(c),
        (c as u32) < 0x80 ==> (b <==> ('0' <= c && c <= '9')),
{
    c.is_numeric()
}

/// Trusted: calls std's `char::is_alphanumeric`, documented to hold of the
/// characters that are alphabetic (Unicode's Alphabetic property) or
/// numeric. Its answer depends on `c` alone and is named; of ASCII
/// characters the contract states what those properties hold: the letters
/// and the digits and nothing else. Beyond ASCII nothing more is stated.
#[verifier::external_body]
pub(crate) fn is_alphanumeric_char(c: char) -> (b: bool)
    ensures
        b == unicode_alphanumeric(c),
        (c as u32) < 0x80 ==> (b <==> (is_ascii_letter(c) || ('0' <= c && c <= '9'))),
{
    c.is_alphanumeric()
}

} // verus!
