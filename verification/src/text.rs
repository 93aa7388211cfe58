//! Conversions between Rust strings and character sequences.

use vstd::prelude::*;

verus! {

/// Appends one character to a `String` (`String::push`).
#[verifier::external_body]
pub(crate) fn push_char(s: &mut String, c: char)
    ensures
        final(s)@ == old(s)@.push(c),
{
    s.push(c);
}

/// The characters of `s`, in order.
pub fn chars_of(s: &str) -> (v: Vec<char>)
    ensures
        v@ == s@,
{
    let mut v: Vec<char> = Vec::new();
    for c in it: s.chars()
        invariant
            v@ == it.seq().take(it.index() as int),
    {
        v.push(c);
    }
    v
}

/// `p` is a prefix of `s`.
pub open spec fn prefix_of(p: Seq<char>, s: Seq<char>) -> bool {
    p.len() <= s.len() && s.take(p.len() as int) == p
}

/// `p` is a suffix of `s`.
pub open spec fn suffix_of(p: Seq<char>, s: Seq<char>) -> bool {
    p.len() <= s.len() && s.skip(s.len() - p.len()) == p
}

/// `p` occurs in `s` starting at position `at`.
pub open spec fn occurs_at(s: Seq<char>, p: Seq<char>, at: int) -> bool {
    0 <= at && at + p.len() <= s.len() && s.subrange(at, at + p.len()) == p
}

/// Whether `p` occurs in `s` at position `at`.
pub fn matches_at(s: &Vec<char>, p: &Vec<char>, at: usize) -> (r: bool)
    ensures
        r == occurs_at(s@, p@, at as int),
{
    if at > s.len() || p.len() > s.len() - at {
        return false;
    }
    let mut k: usize = 0;
    while k < p.len()
        invariant
            at + p@.len() <= s@.len(),
            s@.len() == s.len(),
            s.len() <= usize::MAX,
            0 <= k <= p@.len(),
            forall|j: int| 0 <= j < k ==> s@[at + j] == p@[j],
        decreases p@.len() - k,
    {
        if s[at + k] != p[k] {
            assert(s@.subrange(at as int, at + p@.len())[k as int] != p@[k as int]);
            return false;
        }
        k = k + 1;
    }
    assert(s@.subrange(at as int, at + p@.len()) =~= p@);
    true
}

/// Whether two strings hold the same characters.
pub fn str_eq(a: &str, b: &str) -> (r: bool)
    ensures
        r == (a@ == b@),
{
    let x = chars_of(a);
    let y = chars_of(b);
    if x.len() != y.len() {
        return false;
    }
    let r = matches_at(&x, &y, 0);
    assert(x@.subrange(0, y@.len() as int) =~= x@);
    r
}

/// Whether `s` starts with `p` (`str::starts_with`).
pub fn starts_with(s: &str, p: &str) -> (r: bool)
    ensures
        r == prefix_of(p@, s@),
{
    let x = chars_of(s);
    let y = chars_of(p);
    let r = matches_at(&x, &y, 0);
    assert(r == prefix_of(p@, s@)) by {
        if y@.len() <= x@.len() {
            assert(x@.subrange(0, y@.len() as int) =~= x@.take(y@.len() as int));
        }
    }
    r
}

/// Whether `s` ends with `p` (`str::ends_with`).
pub fn ends_with(s: &str, p: &str) -> (r: bool)
    ensures
        r == suffix_of(p@, s@),
{
    let x = chars_of(s);
    let y = chars_of(p);
    if y.len() > x.len() {
        return false;
    }
    let r = matches_at(&x, &y, x.len() - y.len());
    assert(r == suffix_of(p@, s@)) by {
        assert(x@.subrange(x@.len() - y@.len(), x@.len() as int) =~= x@.skip(x@.len() - y@.len()));
    }
    r
}

/// The string holding the characters of `v`.
pub fn string_of(v: &Vec<char>) -> (s: String)
    ensures
        s@ == v@,
{
    let mut s = String::new();
    let mut i: usize = 0;
    while i < v.len()
        invariant
            0 <= i <= v@.len(),
            s@ == v@.take(i as int),
        decreases v@.len() - i,
    {
        push_char(&mut s, v[i]);
        assert(v@.take(i + 1) =~= v@.take(i as int).push(v@[i as int]));
        i = i + 1;
    }
    assert(v@.take(v@.len() as int) =~= v@);
    s
}

/// An ASCII letter.
pub open spec fn is_alpha(c: char) -> bool {
    ('a' <= c && c <= 'z') || ('A' <= c && c <= 'Z')
}

/// An ASCII digit.
pub open spec fn is_digit(c: char) -> bool {
    '0' <= c && c <= '9'
}

/// An ASCII letter or digit.
pub open spec fn is_alnum(c: char) -> bool {
    is_alpha(c) || is_digit(c)
}

/// Whether `c` is an ASCII letter (`char::is_ascii_alphabetic`).
pub fn ascii_alpha(c: char) -> (r: bool)
    ensures
        r == is_alpha(c),
{
    ('a' <= c && c <= 'z') || ('A' <= c && c <= 'Z')
}

/// Whether `c` is an ASCII digit (`char::is_ascii_digit`).
pub fn ascii_digit(c: char) -> (r: bool)
    ensures
        r == is_digit(c),
{
    '0' <= c && c <= '9'
}

/// Whether `c` is an ASCII letter or digit (`char::is_ascii_alphanumeric`).
pub fn ascii_alnum(c: char) -> (r: bool)
    ensures
        r == is_alnum(c),
{
    ascii_alpha(c) || ascii_digit(c)
}

/// Appends the characters of `s` to `out`.
pub fn extend_str(out: &mut Vec<char>, s: &str)
    ensures
        final(out)@ == old(out)@ + s@,
{
    let mut v = chars_of(s);
    out.append(&mut v);
}

/// `s` with every match of `p` replaced by `r`, matches taken from the left without overlap
/// (`str::replace`). The empty pattern matches before every character and at the end.
pub open spec fn replace_all(s: Seq<char>, p: Seq<char>, r: Seq<char>) -> Seq<char>
    decreases s.len(),
{
    if s.len() == 0 {
        if p.len() == 0 {
            r
        } else {
            Seq::empty()
        }
    } else if p.len() == 0 {
        r + seq![s[0]] + replace_all(s.drop_first(), p, r)
    } else if prefix_of(p, s) {
        r + replace_all(s.skip(p.len() as int), p, r)
    } else {
        seq![s[0]] + replace_all(s.drop_first(), p, r)
    }
}

/// `s` with its first match of `p` replaced by `r` (`str::replacen` with a count of one).
pub open spec fn replace_first(s: Seq<char>, p: Seq<char>, r: Seq<char>) -> Seq<char>
    decreases s.len(),
{
    if p.len() == 0 {
        r + s
    } else if s.len() == 0 {
        Seq::empty()
    } else if prefix_of(p, s) {
        r + s.skip(p.len() as int)
    } else {
        seq![s[0]] + replace_first(s.drop_first(), p, r)
    }
}

proof fn lemma_prefix_at(s: Seq<char>, p: Seq<char>, i: int)
    requires
        0 <= i <= s.len(),
    ensures
        prefix_of(p, s.skip(i)) == occurs_at(s, p, i),
{
    if i + p.len() <= s.len() {
        assert(s.skip(i).take(p.len() as int) =~= s.subrange(i, i + p.len()));
    }
}

/// Appends the elements of `v` to `out`.
pub fn extend_vec(out: &mut Vec<char>, v: &Vec<char>)
    ensures
        final(out)@ == old(out)@ + v@,
{
    let mut w = v.clone();
    out.append(&mut w);
}

/// `s` with every match of `p` replaced by `r`; see [`replace_all`].
pub fn replace_all_exec(s: &Vec<char>, p: &Vec<char>, r: &Vec<char>) -> (out: Vec<char>)
    ensures
        out@ == replace_all(s@, p@, r@),
{
    let mut out: Vec<char> = Vec::new();
    let mut i: usize = 0;
    assert(s@.skip(0) =~= s@);
    while i < s.len()
        invariant
            0 <= i <= s@.len(),
            replace_all(s@, p@, r@) == out@ + replace_all(s@.skip(i as int), p@, r@),
        decreases s@.len() - i,
    {
        let ghost before = out@;
        let ghost t = s@.skip(i as int);
        assert(t.drop_first() =~= s@.skip(i + 1));
        if p.len() == 0 {
            extend_vec(&mut out, r);
            out.push(s[i]);
            assert(replace_all(t, p@, r@) == r@ + seq![s@[i as int]] + replace_all(s@.skip(i + 1), p@, r@));
            assert(out@ + replace_all(s@.skip(i + 1), p@, r@) =~= before + replace_all(t, p@, r@));
            i = i + 1;
        } else if matches_at(s, p, i) {
            proof {
                lemma_prefix_at(s@, p@, i as int);
                assert(t.skip(p@.len() as int) =~= s@.skip(i + p@.len()));
            }
            extend_vec(&mut out, r);
            assert(out@ + replace_all(s@.skip(i + p@.len()), p@, r@) =~= before + replace_all(t, p@, r@));
            i = i + p.len();
        } else {
            proof {
                lemma_prefix_at(s@, p@, i as int);
            }
            out.push(s[i]);
            assert(out@ + replace_all(s@.skip(i + 1), p@, r@) =~= before + replace_all(t, p@, r@));
            i = i + 1;
        }
    }
    let ghost before = out@;
    assert(s@.skip(i as int) =~= Seq::<char>::empty());
    if p.len() == 0 {
        extend_vec(&mut out, r);
    }
    assert(out@ =~= before + replace_all(s@.skip(i as int), p@, r@));
    out
}

/// `s` with its first match of `p` replaced by `r`; see [`replace_first`].
pub fn replace_first_exec(s: &Vec<char>, p: &Vec<char>, r: &Vec<char>) -> (out: Vec<char>)
    ensures
        out@ == replace_first(s@, p@, r@),
{
    let mut out: Vec<char> = Vec::new();
    if p.len() == 0 {
        extend_vec(&mut out, r);
        extend_vec(&mut out, s);
        return out;
    }
    let mut i: usize = 0;
    assert(s@.skip(0) =~= s@);
    while i < s.len()
        invariant
            0 <= i <= s@.len(),
            p@.len() > 0,
            replace_first(s@, p@, r@) == out@ + replace_first(s@.skip(i as int), p@, r@),
        decreases s@.len() - i,
    {
        let ghost before = out@;
        let ghost t = s@.skip(i as int);
        proof {
            lemma_prefix_at(s@, p@, i as int);
        }
        if matches_at(s, p, i) {
            extend_vec(&mut out, r);
            let mut k: usize = i + p.len();
            let ghost mid = out@;
            while k < s.len()
                invariant
                    i + p@.len() <= k <= s@.len(),
                    out@ == mid + s@.subrange(i + p@.len(), k as int),
                decreases s@.len() - k,
            {
                out.push(s[k]);
                assert(s@.subrange(i + p@.len(), k + 1) =~= s@.subrange(i + p@.len(), k as int).push(s@[k as int]));
                k = k + 1;
            }
            assert(t.skip(p@.len() as int) =~= s@.subrange(i + p@.len(), s@.len() as int));
            assert(out@ =~= before + replace_first(t, p@, r@));
            return out;
        }
        out.push(s[i]);
        assert(t.drop_first() =~= s@.skip(i + 1));
        assert(out@ + replace_first(s@.skip(i + 1), p@, r@) =~= before + replace_first(t, p@, r@));
        i = i + 1;
    }
    assert(s@.skip(i as int) =~= Seq::<char>::empty());
    assert(out@ =~= out@ + replace_first(s@.skip(i as int), p@, r@));
    out
}

/// Every character of `s` is an ASCII digit.
pub open spec fn all_digits(s: Seq<char>) -> bool {
    forall|i: int| 0 <= i < s.len() ==> is_digit(#[trigger] s[i])
}

/// The number written in decimal by the digits `s`.
pub open spec fn digits_value(s: Seq<char>) -> nat
    decreases s.len(),
{
    if s.len() == 0 {
        0
    } else {
        digits_value(s.drop_last()) * 10 + ((s.last() as int) - ('0' as int)) as nat
    }
}

/// The number that `str::parse::<usize>` reads from `s`: an optional `+` followed by one or
/// more ASCII digits, whose value fits in a `usize`.
pub open spec fn parse_usize_spec(s: Seq<char>) -> Option<nat> {
    let d = if s.len() > 0 && s[0] == '+' {
        s.drop_first()
    } else {
        s
    };
    if d.len() > 0 && all_digits(d) && digits_value(d) <= usize::MAX {
        Some(digits_value(d))
    } else {
        None
    }
}

/// Reads a `usize` written in decimal (`str::parse::<usize>`); see [`parse_usize_spec`].
pub fn parse_usize(s: &Vec<char>) -> (r: Option<usize>)
    ensures
        match parse_usize_spec(s@) {
            Some(v) => r == Some(v as usize),
            None => r is None,
        },
{
    let start: usize = if s.len() > 0 && s[0] == '+' { 1 } else { 0 };
    let ghost d = if s@.len() > 0 && s@[0] == '+' { s@.drop_first() } else { s@ };
    assert(d =~= s@.skip(start as int));
    if start >= s.len() {
        assert(d.len() == 0);
        return None;
    }
    let mut value: usize = 0;
    let mut overflow = false;
    let mut i: usize = start;
    while i < s.len()
        invariant
            start <= i <= s@.len(),
            d =~= s@.skip(start as int),
            d == (if s@.len() > 0 && s@[0] == '+' { s@.drop_first() } else { s@ }),
            all_digits(d.take(i - start)),
            !overflow ==> value == digits_value(d.take(i - start)),
            overflow ==> digits_value(d.take(i - start)) > usize::MAX,
        decreases s@.len() - i,
    {
        let c = s[i];
        if !('0' <= c && c <= '9') {
            assert(d[i - start] == c);
            assert(!is_digit(d[i - start]));
            assert(!all_digits(d));
            return None;
        }
        let digit: usize = ((c as u32) - ('0' as u32)) as usize;
        let ghost prev = d.take(i - start);
        assert(d.take(i + 1 - start).drop_last() =~= prev);
        assert(d.take(i + 1 - start).last() == c);
        if !overflow {
            match value.checked_mul(10) {
                Some(m) => match m.checked_add(digit) {
                    Some(v) => {
                        value = v;
                    },
                    None => {
                        overflow = true;
                    },
                },
                None => {
                    overflow = true;
                },
            }
        } else {
            assert(digits_value(d.take(i + 1 - start)) >= digits_value(prev) * 10);
        }
        i = i + 1;
    }
    assert(d.take(i - start) =~= d);
    if overflow {
        None
    } else {
        Some(value)
    }
}

/// An ASCII character.
pub open spec fn is_ascii_char(c: char) -> bool {
    (c as u32) < 128
}

/// `c` with an ASCII upper-case letter turned to lower case (`char::to_ascii_lowercase`).
pub open spec fn ascii_lower(c: char) -> char {
    if 'A' <= c && c <= 'Z' {
        ((c as u32) + 32) as char
    } else {
        c
    }
}

/// `c` with an ASCII lower-case letter turned to upper case (`char::to_ascii_uppercase`).
pub open spec fn ascii_upper(c: char) -> char {
    if 'a' <= c && c <= 'z' {
        ((c as u32) - 32) as char
    } else {
        c
    }
}

/// See [`ascii_lower`].
pub fn to_ascii_lower(c: char) -> (r: char)
    ensures
        r == ascii_lower(c),
{
    if 'A' <= c && c <= 'Z' {
        ((c as u8) + 32) as char
    } else {
        c
    }
}

/// See [`ascii_upper`].
pub fn to_ascii_upper(c: char) -> (r: char)
    ensures
        r == ascii_upper(c),
{
    if 'a' <= c && c <= 'z' {
        ((c as u8) - 32) as char
    } else {
        c
    }
}

/// What `str::to_lowercase` returns for a text: Unicode's lower-case mapping.
pub uninterp spec fn unicode_lowercase(s: Seq<char>) -> Seq<char>;

/// What `str::to_uppercase` returns for a text: Unicode's upper-case mapping.
pub uninterp spec fn unicode_uppercase(s: Seq<char>) -> Seq<char>;

/// The text in lower case, by Unicode's mapping (`str::to_lowercase`). The contract names
/// the result; the mapping itself (Unicode's tables) is not stated.
#[verifier::external_body]
pub(crate) fn to_lowercase(s: &str) -> (r: String)
    ensures
        r@ == unicode_lowercase(s@),
{
    s.to_lowercase()
}

/// The text in upper case, by Unicode's mapping (`str::to_uppercase`). The contract names
/// the result; the mapping itself (Unicode's tables) is not stated.
#[verifier::external_body]
pub(crate) fn to_uppercase(s: &str) -> (r: String)
    ensures
        r@ == unicode_uppercase(s@),
{
    s.to_uppercase()
}

/// The exec result `r` holds what the spec result `s` says.
pub open spec fn same_result(r: Result<String, String>, s: Result<Seq<char>, Seq<char>>) -> bool {
    match (r, s) {
        (Ok(x), Ok(y)) => x@ == y,
        (Err(x), Err(y)) => x@ == y,
        _ => false,
    }
}

/// Whether two character vectors are equal.
pub fn vec_eq(a: &Vec<char>, b: &Vec<char>) -> (r: bool)
    ensures
        r == (a@ == b@),
{
    if a.len() != b.len() {
        return false;
    }
    let r = matches_at(a, b, 0);
    assert(a@.subrange(0, b@.len() as int) =~= a@);
    r
}

/// The characters of `v` from position `from` on.
pub fn tail_of(v: &Vec<char>, from: usize) -> (r: Vec<char>)
    requires
        from <= v@.len(),
    ensures
        r@ == v@.skip(from as int),
{
    let mut r: Vec<char> = Vec::new();
    let mut k: usize = from;
    while k < v.len()
        invariant
            from <= k <= v@.len(),
            r@ == v@.subrange(from as int, k as int),
        decreases v@.len() - k,
    {
        r.push(v[k]);
        assert(v@.subrange(from as int, k + 1) =~= v@.subrange(from as int, k as int).push(v@[k as int]));
        k = k + 1;
    }
    assert(v@.subrange(from as int, v@.len() as int) =~= v@.skip(from as int));
    r
}

/// The first `n` characters of `v`.
pub fn head_of(v: &Vec<char>, n: usize) -> (r: Vec<char>)
    requires
        n <= v@.len(),
    ensures
        r@ == v@.take(n as int),
{
    let mut r: Vec<char> = Vec::new();
    let mut k: usize = 0;
    while k < n
        invariant
            0 <= k <= n <= v@.len(),
            r@ == v@.take(k as int),
        decreases n - k,
    {
        r.push(v[k]);
        assert(v@.take(k + 1) =~= v@.take(k as int).push(v@[k as int]));
        k = k + 1;
    }
    r
}

/// The characters of `v` from position `from` up to (not including) `to`.
pub fn subrange_of(v: &Vec<char>, from: usize, to: usize) -> (r: Vec<char>)
    requires
        from <= to <= v@.len(),
    ensures
        r@ == v@.subrange(from as int, to as int),
{
    let mut r: Vec<char> = Vec::new();
    let mut k: usize = from;
    while k < to
        invariant
            from <= k <= to <= v@.len(),
            r@ == v@.subrange(from as int, k as int),
        decreases to - k,
    {
        r.push(v[k]);
        assert(v@.subrange(from as int, k + 1) =~= v@.subrange(from as int, k as int).push(v@[k as int]));
        k = k + 1;
    }
    r
}

/// `d` split at its first `sep` (`str::splitn(2, sep)`): the part before it, and the part
/// after it if `sep` occurs.
pub open spec fn split_once(d: Seq<char>, sep: char) -> (Seq<char>, Option<Seq<char>>)
    decreases d.len(),
{
    if d.len() == 0 {
        (Seq::empty(), None)
    } else if d[0] == sep {
        (Seq::empty(), Some(d.drop_first()))
    } else {
        let (a, b) = split_once(d.drop_first(), sep);
        (seq![d[0]] + a, b)
    }
}

/// The first `sep` of `d` is at `i` (or `d` has none when `i` is its length).
pub proof fn lemma_split_once(d: Seq<char>, sep: char, i: int)
    requires
        0 <= i <= d.len(),
        forall|j: int| 0 <= j < i ==> d[j] != sep,
        i < d.len() ==> d[i] == sep,
    ensures
        split_once(d, sep) == (if i < d.len() {
            (d.take(i), Some(d.skip(i + 1)))
        } else {
            (d, None::<Seq<char>>)
        }),
    decreases i,
{
    if i == 0 {
        if d.len() > 0 {
            assert(d.take(0) =~= Seq::<char>::empty());
            assert(d.skip(1) =~= d.drop_first());
        }
    } else {
        lemma_split_once(d.drop_first(), sep, i - 1);
        if i < d.len() {
            assert(seq![d[0]] + d.drop_first().take(i - 1) =~= d.take(i));
            assert(d.drop_first().skip(i) =~= d.skip(i + 1));
        } else {
            assert(seq![d[0]] + d.drop_first() =~= d);
        }
    }
}

/// The position of the first `sep` in `v`, or its length when there is none.
pub fn find_char(v: &Vec<char>, sep: char) -> (i: usize)
    ensures
        i <= v@.len(),
        forall|j: int| 0 <= j < i ==> v@[j] != sep,
        i < v@.len() ==> v@[i as int] == sep,
        split_once(v@, sep) == (if i < v@.len() {
            (v@.take(i as int), Some(v@.skip(i + 1)))
        } else {
            (v@, None::<Seq<char>>)
        }),
{
    let mut i: usize = 0;
    while i < v.len() && v[i] != sep
        invariant
            0 <= i <= v@.len(),
            forall|j: int| 0 <= j < i ==> v@[j] != sep,
        decreases v@.len() - i,
    {
        i = i + 1;
    }
    proof {
        lemma_split_once(v@, sep, i as int);
    }
    i
}

} // verus!
