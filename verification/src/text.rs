//! Character-level text toolkit: every string is reasoned about through its
//! view, the sequence of its Unicode scalar values.
use vstd::prelude::*;

verus! {

/// `needle` occurs in `hay` starting at character index `i`.
pub open spec fn occurs_at(hay: Seq<char>, needle: Seq<char>, i: int) -> bool {
    0 <= i && i + needle.len() <= hay.len() && hay.subrange(i, i + needle.len()) == needle
}

/// `needle` occurs somewhere in `hay` (the empty needle occurs everywhere).
pub open spec fn contains_seq(hay: Seq<char>, needle: Seq<char>) -> bool {
    exists|i: int| occurs_at(hay, needle, i)
}

/// `hay` contains the character `c`.
pub open spec fn has_char(hay: Seq<char>, c: char) -> bool {
    exists|i: int| 0 <= i < hay.len() && hay[i] == c
}

/// The first `n` characters of `s` (all of `s` when it is shorter).
pub open spec fn take_chars(s: Seq<char>, n: nat) -> Seq<char> {
    if n <= s.len() {
        s.take(n as int)
    } else {
        s
    }
}

/// Unicode `White_Space`, the property behind `char::is_whitespace`.
pub open spec fn is_white(c: char) -> bool {
    ||| ('\u{9}' <= c && c <= '\u{d}')
    ||| c == ' '
    ||| c == '\u{85}'
    ||| c == '\u{a0}'
    ||| c == '\u{1680}'
    ||| ('\u{2000}' <= c && c <= '\u{200a}')
    ||| c == '\u{2028}'
    ||| c == '\u{2029}'
    ||| c == '\u{202f}'
    ||| c == '\u{205f}'
    ||| c == '\u{3000}'
}

/// A CJK unified ideograph in the basic block U+4E00..=U+9FFF.
pub open spec fn is_cjk(c: char) -> bool {
    '\u{4e00}' <= c && c <= '\u{9fff}'
}

/// `b` is the number of leading white characters of `s`.
pub open spec fn lead_white(s: Seq<char>, b: int) -> bool {
    &&& 0 <= b <= s.len()
    &&& forall|j: int| 0 <= j < b ==> is_white(#[trigger] s[j])
    &&& b < s.len() ==> !is_white(s[b])
}

/// `e` is one past the last non-white character of `s` (0 when there is none).
pub open spec fn trail_end(s: Seq<char>, e: int) -> bool {
    &&& 0 <= e <= s.len()
    &&& forall|j: int| e <= j < s.len() ==> is_white(#[trigger] s[j])
    &&& e > 0 ==> !is_white(s[e - 1])
}

/// `s` without leading and trailing white space, as `str::trim` gives it.
pub open spec fn trim_seq(s: Seq<char>) -> Seq<char> {
    let b = choose|b: int| lead_white(s, b);
    let e = choose|e: int| trail_end(s, e);
    if b < e {
        s.subrange(b, e)
    } else {
        Seq::empty()
    }
}

/// Every character of `s` is white space (`s.trim()` is empty).
pub open spec fn all_white(s: Seq<char>) -> bool {
    forall|j: int| 0 <= j < s.len() ==> is_white(#[trigger] s[j])
}

/// Number of bytes of `c` in UTF-8.
pub open spec fn utf8_width(c: char) -> nat {
    if (c as u32) < 0x80 {
        1
    } else if (c as u32) < 0x800 {
        2
    } else if (c as u32) < 0x10000 {
        3
    } else {
        4
    }
}

/// Number of bytes of `s` in UTF-8, the value `str::len` gives.
pub open spec fn byte_len(s: Seq<char>) -> nat
    decreases s.len(),
{
    if s.len() == 0 {
        0
    } else {
        byte_len(s.drop_last()) + utf8_width(s.last())
    }
}

/// Decimal digits of `n`, as `{}` formats an unsigned integer.
pub open spec fn decimal(n: nat) -> Seq<char>
    decreases n,
{
    if n < 10 {
        seq![digit_char(n)]
    } else {
        decimal(n / 10).push(digit_char(n % 10))
    }
}

pub open spec fn digit_char(d: nat) -> char {
    if d == 0 {
        '0'
    } else if d == 1 {
        '1'
    } else if d == 2 {
        '2'
    } else if d == 3 {
        '3'
    } else if d == 4 {
        '4'
    } else if d == 5 {
        '5'
    } else if d == 6 {
        '6'
    } else if d == 7 {
        '7'
    } else if d == 8 {
        '8'
    } else {
        '9'
    }
}

/// The decimal text of `n` has at least one digit, two or more from ten on,
/// and does not start with '0' unless `n` is zero.
pub proof fn lemma_decimal_shape(n: nat)
    ensures
        decimal(n).len() >= 1,
        n >= 10 ==> decimal(n).len() >= 2,
        n >= 1 ==> decimal(n)[0] != '0',
    decreases n,
{
    if n >= 10 {
        lemma_decimal_shape(n / 10);
        assert(decimal(n)[0] == decimal(n / 10)[0]);
    }
}

/// Different numbers have different decimal texts.
pub proof fn lemma_decimal_injective(n: nat, m: nat)
    requires
        decimal(n) == decimal(m),
    ensures
        n == m,
    decreases n,
{
    lemma_decimal_shape(n);
    lemma_decimal_shape(m);
    if n >= 10 && m >= 10 {
        assert(decimal(n).last() == digit_char(n % 10));
        assert(decimal(m).last() == digit_char(m % 10));
        assert(decimal(n).drop_last() =~= decimal(n / 10));
        assert(decimal(m).drop_last() =~= decimal(m / 10));
        lemma_decimal_injective(n / 10, m / 10);
    } else if n < 10 && m < 10 {
        assert(decimal(n)[0] == digit_char(n));
        assert(decimal(m)[0] == digit_char(m));
    }
}


/// Appends `t` to `s`.
pub fn push_str(s: &mut String, t: &str)
    ensures
        final(s)@ == old(s)@ + t@,
{
    s.append(t);
}

/// Appends `c` to `s`.
///
/// Trusted: calls `String::push`, which std documents as appending the given
/// `char` to the end of the `String`.
#[verifier::external_body]
pub fn push_char(s: &mut String, c: char)
    ensures
        final(s)@ == old(s)@.push(c),
{
    s.push(c);
}

/// An owned copy of `s`.
pub fn to_owned_string(s: &str) -> (r: String)
    ensures
        r@ == s@,
{
    s.to_owned()
}

/// The characters of `s`, in order.
pub fn chars_of(s: &str) -> (v: Vec<char>)
    ensures
        v@ == s@,
{
    broadcast use vstd::string::axiom_spec_iter;

    let mut v: Vec<char> = Vec::new();
    for c in it: s.chars()
        invariant
            it.seq() == s@,
            v@ == s@.take(it.index()),
    {
        v.push(c);
    }
    assert(v@ =~= s@);
    v
}

/// A `String` holding exactly the characters of `v`.
pub fn string_from_chars(v: &[char]) -> (s: String)
    ensures
        s@ == v@,
{
    let mut s = String::new();
    let mut i: usize = 0;
    while i < v.len()
        invariant
            i <= v.len(),
            s@ == v@.take(i as int),
        decreases v.len() - i,
    {
        push_char(&mut s, v[i]);
        i += 1;
        assert(v@.take(i as int) =~= v@.take((i - 1) as int).push(v@[i - 1]));
    }
    assert(v@.take(v.len() as int) =~= v@);
    s
}

/// Whether `needle` occurs in `hay` at index `i`.
pub fn matches_at(hay: &Vec<char>, needle: &Vec<char>, i: usize) -> (r: bool)
    ensures
        r == occurs_at(hay@, needle@, i as int),
{
    if i > hay.len() || needle.len() > hay.len() - i {
        return false;
    }
    let mut k: usize = 0;
    while k < needle.len()
        invariant
            k <= needle.len(),
            i + needle.len() <= hay.len(),
            forall|j: int| 0 <= j < k ==> hay@[i + j] == needle@[j],
        decreases needle.len() - k,
    {
        if hay[i + k] != needle[k] {
            assert(hay@.subrange(i as int, i + needle.len())[k as int] != needle@[k as int]);
            return false;
        }
        k += 1;
    }
    assert(hay@.subrange(i as int, i + needle@.len()) =~= needle@);
    true
}

/// The first index at or after `start` where `needle` occurs in `hay`.
pub fn find_from(hay: &Vec<char>, needle: &Vec<char>, start: usize) -> (r: Option<usize>)
    ensures
        match r {
            Some(i) => start <= i && occurs_at(hay@, needle@, i as int) && forall|j: int|
                start <= j < i ==> !occurs_at(hay@, needle@, j),
            None => forall|j: int| start <= j ==> !occurs_at(hay@, needle@, j),
        },
{
    if start > hay.len() {
        return None;
    }
    let mut i = start;
    loop
        invariant
            start <= i <= hay.len(),
            forall|j: int| start <= j < i ==> !occurs_at(hay@, needle@, j),
        decreases hay.len() - i,
    {
        if matches_at(hay, needle, i) {
            return Some(i);
        }
        if i == hay.len() {
            return None;
        }
        i += 1;
    }
}

/// Whether `needle` occurs in `hay`.
pub fn contains_chars(hay: &Vec<char>, needle: &Vec<char>) -> (r: bool)
    ensures
        r == contains_seq(hay@, needle@),
{
    match find_from(hay, needle, 0) {
        Some(i) => true,
        None => false,
    }
}

/// Whether `needle` occurs in `hay` (`str::contains` with a string pattern).
pub fn str_contains(hay: &str, needle: &str) -> (r: bool)
    ensures
        r == contains_seq(hay@, needle@),
{
    let h = chars_of(hay);
    let n = chars_of(needle);
    contains_chars(&h, &n)
}

/// Whether `c` occurs in `hay`.
pub fn contains_char(hay: &Vec<char>, c: char) -> (r: bool)
    ensures
        r == has_char(hay@, c),
{
    let mut i: usize = 0;
    while i < hay.len()
        invariant
            i <= hay.len(),
            forall|j: int| 0 <= j < i ==> hay@[j] != c,
        decreases hay.len() - i,
    {
        if hay[i] == c {
            return true;
        }
        i += 1;
    }
    false
}

/// Whether the two strings hold the same characters.
pub fn str_eq(a: &str, b: &str) -> (r: bool)
    ensures
        r == (a@ == b@),
{
    let x = chars_of(a);
    let y = chars_of(b);
    chars_eq(&x, &y)
}

/// Whether the two character vectors are equal.
pub fn chars_eq(x: &Vec<char>, y: &Vec<char>) -> (r: bool)
    ensures
        r == (x@ == y@),
{
    if x.len() != y.len() {
        return false;
    }
    let mut i: usize = 0;
    while i < x.len()
        invariant
            i <= x.len(),
            x.len() == y.len(),
            forall|j: int| 0 <= j < i ==> x@[j] == y@[j],
        decreases x.len() - i,
    {
        if x[i] != y[i] {
            return false;
        }
        i += 1;
    }
    assert(x@ =~= y@);
    true
}

/// Whether `c` is white space (`char::is_whitespace`).
pub fn is_whitespace(c: char) -> (r: bool)
    ensures
        r == is_white(c),
{
    ('\u{9}' <= c && c <= '\u{d}') || c == ' ' || c == '\u{85}' || c == '\u{a0}' || c == '\u{1680}'
        || ('\u{2000}' <= c && c <= '\u{200a}') || c == '\u{2028}' || c == '\u{2029}' || c
        == '\u{202f}' || c == '\u{205f}' || c == '\u{3000}'
}

proof fn lemma_lead_white_unique(s: Seq<char>, b1: int, b2: int)
    requires
        lead_white(s, b1),
        lead_white(s, b2),
    ensures
        b1 == b2,
{
    if b1 < b2 {
        assert(is_white(s[b1]));
    } else if b2 < b1 {
        assert(is_white(s[b2]));
    }
}

proof fn lemma_trail_end_unique(s: Seq<char>, e1: int, e2: int)
    requires
        trail_end(s, e1),
        trail_end(s, e2),
    ensures
        e1 == e2,
{
    if e1 < e2 {
        assert(is_white(s[e2 - 1]));
    } else if e2 < e1 {
        assert(is_white(s[e1 - 1]));
    }
}

/// The characters of `v` without leading and trailing white space.
pub fn trim_chars(v: &Vec<char>) -> (r: Vec<char>)
    ensures
        r@ == trim_seq(v@),
{
    let mut b: usize = 0;
    while b < v.len() && is_whitespace(v[b])
        invariant
            b <= v.len(),
            forall|j: int| 0 <= j < b ==> is_white(#[trigger] v@[j]),
        decreases v.len() - b,
    {
        b += 1;
    }
    let mut e: usize = v.len();
    while e > 0 && is_whitespace(v[e - 1])
        invariant
            e <= v.len(),
            forall|j: int| e <= j < v.len() ==> is_white(#[trigger] v@[j]),
        decreases e,
    {
        e -= 1;
    }
    proof {
        assert(lead_white(v@, b as int));
        assert(trail_end(v@, e as int));
        let cb = choose|x: int| lead_white(v@, x);
        let ce = choose|x: int| trail_end(v@, x);
        lemma_lead_white_unique(v@, b as int, cb);
        lemma_trail_end_unique(v@, e as int, ce);
    }
    let mut r: Vec<char> = Vec::new();
    if b < e {
        let mut i = b;
        while i < e
            invariant
                b <= i <= e <= v.len(),
                r@ == v@.subrange(b as int, i as int),
            decreases e - i,
        {
            r.push(v[i]);
            i += 1;
            assert(r@ =~= v@.subrange(b as int, i as int));
        }
    }
    assert(b < e ==> r@ =~= v@.subrange(b as int, e as int));
    assert(!(b < e) ==> r@ =~= Seq::<char>::empty());
    r
}

/// `s` without leading and trailing white space (`str::trim`).
pub fn trim_string(s: &str) -> (r: String)
    ensures
        r@ == trim_seq(s@),
{
    let v = chars_of(s);
    let t = trim_chars(&v);
    string_from_chars(&t)
}

/// Whether every character of `s` is white space (`s.trim().is_empty()`).
pub fn is_blank(s: &str) -> (r: bool)
    ensures
        r == all_white(s@),
{
    let v = chars_of(s);
    let mut i: usize = 0;
    while i < v.len()
        invariant
            i <= v.len(),
            v@ == s@,
            forall|j: int| 0 <= j < i ==> is_white(#[trigger] v@[j]),
        decreases v.len() - i,
    {
        if !is_whitespace(v[i]) {
            return false;
        }
        i += 1;
    }
    true
}

/// The first `n` characters of `s` (`s.chars().take(n).collect()`).
pub fn take_prefix(s: &str, n: usize) -> (r: String)
    ensures
        r@ == take_chars(s@, n as nat),
{
    let v = chars_of(s);
    let mut r = String::new();
    let mut i: usize = 0;
    while i < n && i < v.len()
        invariant
            i <= v.len(),
            i <= n,
            v@ == s@,
            r@ == v@.take(i as int),
        decreases v.len() - i,
    {
        push_char(&mut r, v[i]);
        i += 1;
        assert(r@ =~= v@.take(i as int));
    }
    assert(n <= v.len() ==> r@ =~= v@.take(n as int));
    assert(n > v.len() ==> r@ =~= v@);
    r
}

/// Number of characters of `s` (`s.chars().count()`).
pub fn char_count(s: &str) -> (r: usize)
    ensures
        r == s@.len(),
{
    let v = chars_of(s);
    v.len()
}

/// Number of bytes of `c` in UTF-8 (`char::len_utf8`).
pub fn char_width(c: char) -> (r: usize)
    ensures
        r == utf8_width(c),
{
    let x = c as u32;
    if x < 0x80 {
        1
    } else if x < 0x800 {
        2
    } else if x < 0x10000 {
        3
    } else {
        4
    }
}

/// `byte_len(s)`, capped at `usize::MAX`.
pub open spec fn capped_byte_len(s: Seq<char>) -> nat {
    if byte_len(s) < usize::MAX {
        byte_len(s)
    } else {
        usize::MAX as nat
    }
}

/// Number of bytes of the characters of `v` in UTF-8 (capped at
/// `usize::MAX`, which no string held in memory reaches).
pub fn chars_byte_len(v: &Vec<char>) -> (r: usize)
    ensures
        r == capped_byte_len(v@),
{
    let mut total: usize = 0;
    let mut i: usize = 0;
    while i < v.len()
        invariant
            i <= v.len(),
            total == capped_byte_len(v@.take(i as int)),
        decreases v.len() - i,
    {
        let w = char_width(v[i]);
        proof {
            assert(v@.take(i + 1).drop_last() =~= v@.take(i as int));
        }
        if total > usize::MAX - w {
            total = usize::MAX;
        } else {
            total = total + w;
        }
        i += 1;
    }
    assert(v@.take(v.len() as int) =~= v@);
    total
}

/// Number of bytes of `s` in UTF-8 (`str::len`), capped at `usize::MAX`.
pub fn utf8_len(s: &str) -> (r: usize)
    ensures
        r == capped_byte_len(s@),
{
    let v = chars_of(s);
    chars_byte_len(&v)
}

/// Decimal representation of `n` (`n.to_string()`).
pub fn decimal_string(n: u64) -> (r: String)
    ensures
        r@ == decimal(n as nat),
    decreases n,
{
    let d = n % 10;
    let c = if d == 0 {
        '0'
    } else if d == 1 {
        '1'
    } else if d == 2 {
        '2'
    } else if d == 3 {
        '3'
    } else if d == 4 {
        '4'
    } else if d == 5 {
        '5'
    } else if d == 6 {
        '6'
    } else if d == 7 {
        '7'
    } else if d == 8 {
        '8'
    } else {
        '9'
    };
    if n < 10 {
        let mut r = String::new();
        push_char(&mut r, c);
        assert(r@ =~= seq![c]);
        r
    } else {
        let mut r = decimal_string(n / 10);
        push_char(&mut r, c);
        r
    }
}

/// Decimal representation of a wide `n` (`n.to_string()`).
pub fn decimal_wide(n: u128) -> (r: String)
    ensures
        r@ == decimal(n as nat),
    decreases n,
{
    let d = n % 10;
    let c = if d == 0 {
        '0'
    } else if d == 1 {
        '1'
    } else if d == 2 {
        '2'
    } else if d == 3 {
        '3'
    } else if d == 4 {
        '4'
    } else if d == 5 {
        '5'
    } else if d == 6 {
        '6'
    } else if d == 7 {
        '7'
    } else if d == 8 {
        '8'
    } else {
        '9'
    };
    if n < 10 {
        let mut r = String::new();
        push_char(&mut r, c);
        assert(r@ =~= seq![c]);
        r
    } else {
        let mut r = decimal_wide(n / 10);
        push_char(&mut r, c);
        r
    }
}

/// Unicode lower-case mapping of a whole string, as `str::to_lowercase`
/// computes it.
pub uninterp spec fn lowercase(s: Seq<char>) -> Seq<char>;

/// Lower-cases `s`.
///
/// Trusted: calls `str::to_lowercase`; its result is a function of `s` alone
/// and is named `lowercase`.
#[verifier::external_body]
pub fn to_lowercase(s: &str) -> (r: String)
    ensures
        r@ == lowercase(s@),
{
    s.to_lowercase()
}

/// Unicode `Alphabetic` or `Numeric` (`char::is_alphanumeric`).
pub uninterp spec fn alphanumeric(c: char) -> bool;

/// Whether `c` is alphabetic or numeric.
///
/// Trusted: calls `char::is_alphanumeric`, whose result depends on `c`
/// alone through Unicode tables; that result is named `alphanumeric`.
#[verifier::external_body]
pub fn is_alphanumeric(c: char) -> (r: bool)
    ensures
        r == alphanumeric(c),
{
    c.is_alphanumeric()
}

/// `a` precedes or equals `b` in code-point lexicographic order, which is the
/// order of `str`'s `Ord` (UTF-8 keeps code-point order byte by byte).
pub open spec fn lex_le(a: Seq<char>, b: Seq<char>) -> bool {
    exists|k: int|
        0 <= k <= a.len() && k <= b.len() && a.take(k) == b.take(k) && (k == a.len() || (k
            < b.len() && (a[k] as u32) < (b[k] as u32)))
}

/// Every string precedes itself.
pub proof fn lemma_lex_refl(a: Seq<char>)
    ensures
        lex_le(a, a),
{
    assert(a.take(a.len() as int) == a.take(a.len() as int));
}

/// Any two strings are ordered one way or the other.
pub proof fn lemma_lex_total(a: Seq<char>, b: Seq<char>)
    ensures
        lex_le(a, b) || lex_le(b, a),
    decreases a.len(),
{
    if a.len() == 0 {
        assert(a.take(0) =~= b.take(0));
    } else if b.len() == 0 {
        assert(a.take(0) =~= b.take(0));
    } else if a[0] != b[0] {
        assert(a.take(0) =~= b.take(0));
        if (a[0] as u32) == (b[0] as u32) {
            vstd::utf8::char_u32_cast(a[0], a[0] as u32);
            vstd::utf8::char_u32_cast(b[0], b[0] as u32);
        }
        if (a[0] as u32) < (b[0] as u32) {
            assert(lex_le(a, b));
        } else {
            assert(b.take(0) =~= a.take(0));
            assert(lex_le(b, a));
        }
    } else {
        let a1 = a.drop_first();
        let b1 = b.drop_first();
        lemma_lex_total(a1, b1);
        if lex_le(a1, b1) {
            let k = choose|k: int|
                0 <= k <= a1.len() && k <= b1.len() && a1.take(k) == b1.take(k) && (k == a1.len() || (k
                    < b1.len() && (a1[k] as u32) < (b1[k] as u32)));
            assert(a.take(k + 1) =~= seq![a[0]] + a1.take(k));
            assert(b.take(k + 1) =~= seq![b[0]] + b1.take(k));
            assert(a.take(k + 1) == b.take(k + 1));
            assert(k + 1 == a.len() || (k + 1 < b.len() && (a[k + 1] as u32) < (b[k + 1] as u32)));
            assert(lex_le(a, b));
        } else {
            let k = choose|k: int|
                0 <= k <= b1.len() && k <= a1.len() && b1.take(k) == a1.take(k) && (k == b1.len() || (k
                    < a1.len() && (b1[k] as u32) < (a1[k] as u32)));
            assert(a.take(k + 1) =~= seq![a[0]] + a1.take(k));
            assert(b.take(k + 1) =~= seq![b[0]] + b1.take(k));
            assert(b.take(k + 1) == a.take(k + 1));
            assert(k + 1 == b.len() || (k + 1 < a.len() && (b[k + 1] as u32) < (a[k + 1] as u32)));
            assert(lex_le(b, a));
        }
    }
}

/// The order of strings is transitive.
pub proof fn lemma_lex_trans(a: Seq<char>, b: Seq<char>, c: Seq<char>)
    requires
        lex_le(a, b),
        lex_le(b, c),
    ensures
        lex_le(a, c),
{
    let k1 = choose|k: int|
        0 <= k <= a.len() && k <= b.len() && a.take(k) == b.take(k) && (k == a.len() || (k < b.len() && (a[k] as u32)
            < (b[k] as u32)));
    let k2 = choose|k: int|
        0 <= k <= b.len() && k <= c.len() && b.take(k) == c.take(k) && (k == b.len() || (k < c.len() && (b[k] as u32)
            < (c[k] as u32)));
    if k1 < k2 {
        assert(b.take(k1) =~= b.take(k2).take(k1));
        assert(c.take(k1) =~= c.take(k2).take(k1));
        if k1 < a.len() {
            assert(b.take(k2)[k1] == b[k1]);
            assert(c.take(k2)[k1] == c[k1]);
        }
        assert(a.take(k1) == c.take(k1));
    } else if k2 < k1 {
        assert(a.take(k2) =~= a.take(k1).take(k2));
        assert(b.take(k2) =~= b.take(k1).take(k2));
        assert(a.take(k1)[k2] == a[k2]);
        assert(b.take(k1)[k2] == b[k2]);
        assert(a.take(k2) == c.take(k2));
    } else {
        assert(a.take(k1) == c.take(k1));
    }
}

/// Views of the strings of `v`.
pub open spec fn views(v: Seq<String>) -> Seq<Seq<char>> {
    Seq::new(v.len(), |i: int| v[i]@)
}

/// `s` is in ascending order.
pub open spec fn sorted_seq(s: Seq<Seq<char>>) -> bool {
    forall|i: int, j: int| 0 <= i < j < s.len() ==> lex_le(s[i], s[j])
}

/// No element of `s` occurs twice.
pub open spec fn distinct_seq(s: Seq<Seq<char>>) -> bool {
    forall|i: int, j: int| 0 <= i < s.len() && 0 <= j < s.len() && i != j ==> s[i] != s[j]
}

/// Sorts `v` in ascending order.
///
/// Trusted: calls `slice::sort` on `String`s, which std documents as sorting
/// by `Ord` (byte-wise lexicographic, the same as code-point order of the
/// characters) and which returns a permutation of the input.
#[verifier::external_body]
fn sort_strings(v: &mut Vec<String>)
    ensures
        final(v).deep_view().to_multiset() == old(v).deep_view().to_multiset(),
        sorted_seq(final(v).deep_view()),
{
    v.sort();
}

/// The distinct strings of `v`, in ascending order (sort, then dedup).
pub fn sorted_unique(v: Vec<String>) -> (r: Vec<String>)
    ensures
        sorted_seq(r.deep_view()),
        distinct_seq(r.deep_view()),
        forall|x: Seq<char>| #[trigger] r.deep_view().contains(x) <==> v.deep_view().contains(x),
{
    broadcast use vstd::seq_lib::group_to_multiset_ensures;

    let mut s = v;
    sort_strings(&mut s);
    proof {
        assert forall|x: Seq<char>| #[trigger] s.deep_view().contains(x) <==> v.deep_view().contains(
            x,
        ) by {
            assert(s.deep_view().contains(x) <==> s.deep_view().to_multiset().count(x) > 0);
            assert(v.deep_view().contains(x) <==> v.deep_view().to_multiset().count(x) > 0);
        }
    }
    let mut r: Vec<String> = Vec::new();
    let mut i: usize = 0;
    while i < s.len()
        invariant
            i <= s@.len(),
            sorted_seq(s.deep_view()),
            distinct_seq(r.deep_view()),
            forall|x: Seq<char>| #[trigger]
                r.deep_view().contains(x) <==> s.deep_view().take(i as int).contains(x),
            forall|a: int|
                0 <= a < r.deep_view().len() ==> exists|b: int|
                    0 <= b < i && #[trigger] r.deep_view()[a] == s.deep_view()[b],
            forall|a1: int, a2: int|
                0 <= a1 < a2 < r.deep_view().len() ==> lex_le(r.deep_view()[a1], r.deep_view()[a2]),
            forall|a: int, b: int|
                0 <= a < r.deep_view().len() && i <= b < s.deep_view().len() ==> lex_le(
                    #[trigger] r.deep_view()[a],
                    #[trigger] s.deep_view()[b],
                ),
        decreases s@.len() - i,
    {
        let ghost pre = s.deep_view().take(i as int);
        let ghost post = s.deep_view().take(i + 1);
        let ghost rv = r.deep_view();
        let ghost x = s.deep_view()[i as int];
        proof {
            assert(post =~= pre.push(x));
            assert forall|y: Seq<char>| #[trigger] post.contains(y) <==> (pre.contains(y) || y == x) by {
                if post.contains(y) {
                    let k = choose|k: int| 0 <= k < post.len() && post[k] == y;
                    if k < pre.len() {
                        assert(pre[k] == y);
                    }
                }
                if pre.contains(y) {
                    let k = choose|k: int| 0 <= k < pre.len() && pre[k] == y;
                    assert(post[k] == y);
                }
                if y == x {
                    assert(post[i as int] == x);
                }
            }
        }
        if !crate::deep_eq::contains_deep(&r, &s[i]) {
            let c = s[i].clone();
            r.push(c);
            proof {
                assert(r.deep_view() =~= rv.push(x));
                assert forall|y: Seq<char>| #[trigger] r.deep_view().contains(y) <==> post.contains(y) by {
                    if r.deep_view().contains(y) {
                        let k = choose|k: int| 0 <= k < r.deep_view().len() && r.deep_view()[k] == y;
                        if k < rv.len() {
                            assert(rv[k] == y);
                            assert(rv.contains(y));
                        }
                    }
                    if post.contains(y) && y != x {
                        assert(pre.contains(y));
                        assert(rv.contains(y));
                        let k = choose|k: int| 0 <= k < rv.len() && rv[k] == y;
                        assert(r.deep_view()[k] == y);
                    }
                    if y == x {
                        assert(r.deep_view()[rv.len() as int] == x);
                    }
                }
                assert forall|a: int|
                    0 <= a < r.deep_view().len() implies exists|b: int|
                        0 <= b < i + 1 && #[trigger] r.deep_view()[a] == s.deep_view()[b] by {
                    if a < rv.len() {
                        assert(r.deep_view()[a] == rv[a]);
                    } else {
                        assert(r.deep_view()[a] == s.deep_view()[i as int]);
                    }
                }
                assert forall|a: int, b: int|
                    0 <= a < r.deep_view().len() && i + 1 <= b < s.deep_view().len() implies lex_le(
                    #[trigger] r.deep_view()[a],
                    #[trigger] s.deep_view()[b],
                ) by {
                    if a < rv.len() {
                        assert(r.deep_view()[a] == rv[a]);
                    } else {
                        assert(r.deep_view()[a] == s.deep_view()[i as int]);
                    }
                }
                assert forall|a1: int, a2: int|
                    0 <= a1 < a2 < r.deep_view().len() implies lex_le(
                    r.deep_view()[a1],
                    r.deep_view()[a2],
                ) by {
                    if a2 < rv.len() {
                        assert(r.deep_view()[a1] == rv[a1]);
                        assert(r.deep_view()[a2] == rv[a2]);
                    } else {
                        assert(r.deep_view()[a1] == rv[a1]);
                        assert(r.deep_view()[a2] == s.deep_view()[i as int]);
                    }
                }
                assert forall|a1: int, a2: int|
                    0 <= a1 < r.deep_view().len() && 0 <= a2 < r.deep_view().len() && a1
                        != a2 implies r.deep_view()[a1] != r.deep_view()[a2] by {
                    if a1 < rv.len() && a2 < rv.len() {
                        assert(r.deep_view()[a1] == rv[a1]);
                        assert(r.deep_view()[a2] == rv[a2]);
                    } else if a1 < rv.len() {
                        assert(r.deep_view()[a1] == rv[a1]);
                        assert(rv.contains(rv[a1]));
                    } else {
                        assert(r.deep_view()[a2] == rv[a2]);
                        assert(rv.contains(rv[a2]));
                    }
                }
            }
        } else {
            proof {
                assert forall|y: Seq<char>| #[trigger] r.deep_view().contains(y) <==> post.contains(y) by {
                    if y == x {
                        assert(rv.contains(x));
                    }
                }
            }
        }
        i += 1;
    }
    proof {
        assert(s.deep_view().take(s@.len() as int) =~= s.deep_view());
    }
    r
}

/// Whether `a` comes no later than `b` in code-point order (the order of
/// `String` comparison).
pub fn str_le(a: &str, b: &str) -> (r: bool)
    ensures
        r == lex_le(a@, b@),
{
    let x = chars_of(a);
    let y = chars_of(b);
    let mut k: usize = 0;
    while k < x.len() && k < y.len() && x[k] == y[k]
        invariant
            x@ == a@,
            y@ == b@,
            k <= x@.len(),
            k <= y@.len(),
            x@.take(k as int) == y@.take(k as int),
        decreases x@.len() - k,
    {
        proof {
            assert(x@.take(k + 1) =~= x@.take(k as int).push(x@[k as int]));
            assert(y@.take(k + 1) =~= y@.take(k as int).push(y@[k as int]));
        }
        k += 1;
    }
    let ghost sa = a@;
    let ghost sb = b@;
    if k == x.len() {
        proof {
            assert(lex_le(sa, sb)) by {
                assert(sa.take(k as int) == sb.take(k as int));
            }
        }
        return true;
    }
    if k == y.len() {
        proof {
            assert(!lex_le(sa, sb)) by {
                if lex_le(sa, sb) {
                    let k2 = choose|k2: int| 0 <= k2 <= sa.len() && k2 <= sb.len() && sa.take(k2) == sb.take(k2) && (k2 == sa.len() || (k2
                        < sb.len() && (sa[k2] as u32) < (sb[k2] as u32)));
                    assert(k2 < sb.len());
                    assert(sa.take(k as int)[k2] == sb.take(k as int)[k2]);
                }
            }
        }
        return false;
    }
    let r = (x[k] as u32) < (y[k] as u32);
    proof {
        if r {
            assert(lex_le(sa, sb)) by {
                assert(sa.take(k as int) == sb.take(k as int));
            }
        } else {
            assert(!lex_le(sa, sb)) by {
                if lex_le(sa, sb) {
                    let k2 = choose|k2: int| 0 <= k2 <= sa.len() && k2 <= sb.len() && sa.take(k2) == sb.take(k2) && (k2 == sa.len() || (k2
                        < sb.len() && (sa[k2] as u32) < (sb[k2] as u32)));
                    if k2 <= k {
                        if k2 < k {
                            assert(sa.take(k as int)[k2] == sb.take(k as int)[k2]);
                        }
                    } else {
                        assert(sa.take(k2)[k as int] == sb.take(k2)[k as int]);
                    }
                }
            }
        }
    }
    r
}

} // verus!
