//! Keyword scanning shared by the document tools: which words of a list
//! occur in a text, and lists joined into one line.
use vstd::prelude::*;

use crate::text::{byte_len, chars_of, contains_chars, contains_seq, find_from, occurs_at, push_str, to_owned_string};

verus! {

/// The views of a list of string slices.
pub open spec fn strs(v: Seq<&str>) -> Seq<Seq<char>> {
    v.map_values(|s: &str| s@)
}

/// The words of `kws` that occur in `t`, in the order of `kws`.
pub open spec fn hits(t: Seq<char>, kws: Seq<Seq<char>>) -> Seq<Seq<char>>
    decreases kws.len(),
{
    if kws.len() == 0 {
        Seq::empty()
    } else {
        let prev = hits(t, kws.drop_last());
        if contains_seq(t, kws.last()) {
            prev.push(kws.last())
        } else {
            prev
        }
    }
}

/// Some word of `kws` occurs in `t`.
pub open spec fn any_hit(t: Seq<char>, kws: Seq<Seq<char>>) -> bool {
    exists|i: int| 0 <= i < kws.len() && contains_seq(t, #[trigger] kws[i])
}

/// `parts` joined with `sep` between each two (`[String]::join`).
pub open spec fn join_seq(parts: Seq<Seq<char>>, sep: Seq<char>) -> Seq<char>
    decreases parts.len(),
{
    if parts.len() == 0 {
        Seq::empty()
    } else if parts.len() == 1 {
        parts[0]
    } else {
        join_seq(parts.drop_last(), sep) + sep + parts.last()
    }
}

/// The words of `kws` that occur in `t`, in order.
pub fn keyword_hits(t: &Vec<char>, kws: &Vec<&str>) -> (r: Vec<String>)
    ensures
        r.deep_view() == hits(t@, strs(kws@)),
{
    let ghost ks = strs(kws@);
    let mut out: Vec<String> = Vec::new();
    let mut i: usize = 0;
    while i < kws.len()
        invariant
            i <= kws@.len(),
            ks == strs(kws@),
            out.deep_view() == hits(t@, ks.take(i as int)),
        decreases kws@.len() - i,
    {
        proof {
            assert(ks.take(i + 1).drop_last() =~= ks.take(i as int));
            assert(ks.take(i + 1).last() == kws@[i as int]@);
        }
        let k = chars_of(kws[i]);
        if contains_chars(t, &k) {
            let ghost o0 = out.deep_view();
            out.push(to_owned_string(kws[i]));
            proof {
                assert(out.deep_view() =~= o0.push(kws@[i as int]@));
            }
        }
        i += 1;
    }
    proof {
        assert(ks.take(kws@.len() as int) =~= ks);
    }
    out
}

/// Whether some word of `kws` occurs in `t`.
pub fn any_keyword(t: &Vec<char>, kws: &Vec<&str>) -> (r: bool)
    ensures
        r == any_hit(t@, strs(kws@)),
{
    let mut i: usize = 0;
    while i < kws.len()
        invariant
            i <= kws@.len(),
            forall|j: int| 0 <= j < i ==> !contains_seq(t@, #[trigger] strs(kws@)[j]),
        decreases kws@.len() - i,
    {
        let k = chars_of(kws[i]);
        if contains_chars(t, &k) {
            assert(contains_seq(t@, strs(kws@)[i as int]));
            return true;
        }
        i += 1;
    }
    false
}

/// `parts` joined with `sep`.
pub fn join_strings(parts: &Vec<String>, sep: &str) -> (r: String)
    ensures
        r@ == join_seq(parts.deep_view(), sep@),
{
    let mut r = String::new();
    let mut i: usize = 0;
    while i < parts.len()
        invariant
            i <= parts@.len(),
            r@ == join_seq(parts.deep_view().take(i as int), sep@),
        decreases parts@.len() - i,
    {
        proof {
            assert(parts.deep_view().take(i + 1).drop_last() =~= parts.deep_view().take(i as int));
            assert(parts.deep_view().take(i + 1).last() == parts@[i as int]@);
        }
        if i > 0 {
            push_str(&mut r, sep);
        } else {
            proof {
                assert(r@ =~= Seq::<char>::empty());
            }
        }
        push_str(&mut r, parts[i].as_str());
        proof {
            if i == 0 {
                assert(r@ =~= parts.deep_view().take(1)[0]);
            }
        }
        i += 1;
    }
    proof {
        assert(parts.deep_view().take(parts@.len() as int) =~= parts.deep_view());
    }
    r
}

/// The first index where `k` occurs in `t`.
#[verifier::opaque]
pub open spec fn first_occurrence(t: Seq<char>, k: Seq<char>) -> int {
    choose|p: int| occurs_at(t, k, p) && forall|j: int| 0 <= j < p ==> !occurs_at(t, k, j)
}

/// The first index where `k` occurs in `t`, if it occurs.
pub fn find_first(t: &Vec<char>, k: &Vec<char>) -> (r: Option<usize>)
    ensures
        match r {
            Some(p) => contains_seq(t@, k@) && p == first_occurrence(t@, k@) && occurs_at(t@, k@, p as int),
            None => !contains_seq(t@, k@),
        },
{
    match find_from(t, k, 0) {
        Some(p) => {
            proof {
                reveal(first_occurrence);
                let c = first_occurrence(t@, k@);
                assert(occurs_at(t@, k@, p as int));
                assert(exists|q: int| occurs_at(t@, k@, q) && forall|j: int| 0 <= j < q ==> !occurs_at(t@, k@, j));
                if c < p {
                    assert(!occurs_at(t@, k@, c));
                } else if c > p {
                    assert(!occurs_at(t@, k@, p as int));
                }
            }
            Some(p)
        },
        None => {
            proof {
                assert forall|i: int| !occurs_at(t@, k@, i) by {
                    if i < 0 {
                    }
                }
            }
            None
        },
    }
}

/// The characters of `v` from index `a` up to `b`.
pub fn sub_chars(v: &Vec<char>, a: usize, b: usize) -> (r: Vec<char>)
    requires
        a <= b <= v@.len(),
    ensures
        r@ == v@.subrange(a as int, b as int),
{
    let mut r: Vec<char> = Vec::new();
    let mut i: usize = a;
    while i < b
        invariant
            a <= i <= b,
            b <= v@.len(),
            r@ == v@.subrange(a as int, i as int),
        decreases b - i,
    {
        r.push(v[i]);
        i += 1;
        proof {
            assert(r@ =~= v@.subrange(a as int, i as int));
        }
    }
    r
}

/// Number of UTF-8 bytes before character index `i` of `t`.
pub open spec fn byte_at(t: Seq<char>, i: int) -> nat {
    byte_len(t.take(i))
}

/// Byte offsets grow by the width of each character.
pub proof fn lemma_byte_at_step(t: Seq<char>, i: int)
    requires
        0 <= i < t.len(),
    ensures
        byte_at(t, i + 1) == byte_at(t, i) + crate::text::utf8_width(t[i]),
{
    assert(t.take(i + 1).drop_last() =~= t.take(i));
}

/// Byte offsets grow strictly with the character index.
pub proof fn lemma_byte_at_mono(t: Seq<char>, i: int, j: int)
    requires
        0 <= i <= j <= t.len(),
    ensures
        byte_at(t, i) <= byte_at(t, j),
        i < j ==> byte_at(t, i) < byte_at(t, j),
    decreases j - i,
{
    if i < j {
        lemma_byte_at_step(t, j - 1);
        lemma_byte_at_mono(t, i, j - 1);
    }
}

/// Bytes add up over a split of the text.
pub proof fn lemma_byte_split(t: Seq<char>, i: int, j: int)
    requires
        0 <= i <= j <= t.len(),
    ensures
        byte_at(t, j) == byte_at(t, i) + byte_len(t.subrange(i, j)),
    decreases j - i,
{
    if i < j {
        lemma_byte_split(t, i, j - 1);
        lemma_byte_at_step(t, j - 1);
        assert(t.subrange(i, j).drop_last() =~= t.subrange(i, j - 1));
    } else {
        assert(t.subrange(i, j) =~= Seq::<char>::empty());
    }
}


/// `k` occurs in `t` at some index at or after `i`.
pub open spec fn occurs_from(t: Seq<char>, k: Seq<char>, i: int) -> bool {
    exists|p: int| p >= i && occurs_at(t, k, p)
}

/// The first index at or after `i` where `k` occurs in `t`.
#[verifier::opaque]
pub open spec fn first_from(t: Seq<char>, k: Seq<char>, i: int) -> int {
    choose|p: int| p >= i && occurs_at(t, k, p) && forall|q: int| i <= q < p ==> !occurs_at(t, k, q)
}

/// The first index at or after `i` where `k` occurs in `t`, if any.
pub fn find_at_or_after(t: &Vec<char>, k: &Vec<char>, i: usize) -> (r: Option<usize>)
    ensures
        match r {
            Some(p) => p >= i && occurs_from(t@, k@, i as int) && p == first_from(t@, k@, i as int) && occurs_at(
                t@,
                k@,
                p as int,
            ),
            None => !occurs_from(t@, k@, i as int),
        },
{
    match find_from(t, k, i) {
        Some(p) => {
            proof {
                reveal(first_from);
                let c = first_from(t@, k@, i as int);
                assert(p >= i && occurs_at(t@, k@, p as int));
                assert(exists|q: int|
                    q >= i && occurs_at(t@, k@, q) && forall|x: int| i <= x < q ==> !occurs_at(t@, k@, x));
                if c < p {
                    assert(!occurs_at(t@, k@, c));
                } else if c > p {
                    assert(!occurs_at(t@, k@, p as int));
                }
            }
            Some(p)
        },
        None => None,
    }
}

/// The pieces of `s` from `start` on, cut at each occurrence of `sep`, left
/// to right.
#[verifier::opaque]
pub open spec fn split_from(s: Seq<char>, sep: Seq<char>, start: int) -> Seq<Seq<char>>
    decreases s.len() - start,
{
    if sep.len() > 0 && 0 <= start <= s.len() && occurs_from(s, sep, start) {
        let p = first_from(s, sep, start);
        if start <= p && p + sep.len() <= s.len() {
            seq![s.subrange(start, p)] + split_from(s, sep, p + sep.len())
        } else {
            seq![s.skip(start)]
        }
    } else {
        seq![s.skip(start)]
    }
}

/// `s` cut at each occurrence of `sep` (`str::split` with a string
/// pattern).
pub open spec fn split_on(s: Seq<char>, sep: Seq<char>) -> Seq<Seq<char>> {
    split_from(s, sep, 0)
}

/// The pieces of `s` between the occurrences of `sep`.
#[verifier::rlimit(60)]
pub fn split_str(s: &str, sep: &str) -> (r: Vec<String>)
    requires
        sep@.len() > 0,
    ensures
        r.deep_view() == split_on(s@, sep@),
{
    let v = chars_of(s);
    let sp = chars_of(sep);
    let mut out: Vec<String> = Vec::new();
    let mut start: usize = 0;
    proof {
        assert(out.deep_view() + split_from(s@, sep@, 0) =~= split_from(s@, sep@, 0));
    }
    loop
        invariant
            v@ == s@,
            sp@ == sep@,
            sep@.len() > 0,
            start <= v@.len(),
            out.deep_view() + split_from(s@, sep@, start as int) == split_from(s@, sep@, 0),
        decreases v@.len() - start,
    {
        match find_at_or_after(&v, &sp, start) {
            Some(p) => {
                assert(occurs_at(v@, sp@, p as int));
                assert(p + sp@.len() <= v@.len());
                let vl = v.len();
                let sl = sp.len();
                assert(p + sl <= vl);
                let next: usize = p + sl;
                let piece = sub_chars(&v, start, p);
                let ghost o0 = out.deep_view();
                out.push(crate::text::string_from_chars(piece.as_slice()));
                proof {
                    assert(out.deep_view() =~= o0.push(piece@));
                    lemma_split_from_found(s@, sep@, start as int, p as int);
                    assert(o0.push(piece@) + split_from(s@, sep@, p + sep@.len()) =~= o0 + (seq![piece@]
                        + split_from(s@, sep@, p + sep@.len())));
                }
                start = next;
            },
            None => {
                let piece = sub_chars(&v, start, v.len());
                let ghost o0 = out.deep_view();
                out.push(crate::text::string_from_chars(piece.as_slice()));
                proof {
                    lemma_split_from_last(s@, sep@, start as int);
                    assert(piece@ =~= s@.skip(start as int));
                    assert(out.deep_view() =~= o0.push(piece@));
                    assert(o0 + seq![piece@] =~= o0.push(piece@));
                }
                return out;
            },
        }
    }
}

/// One step of `split_from` where `sep` occurs.
proof fn lemma_split_from_found(s: Seq<char>, sep: Seq<char>, start: int, p: int)
    requires
        0 <= start <= p,
        sep.len() > 0,
        occurs_from(s, sep, start),
        p == first_from(s, sep, start),
        occurs_at(s, sep, p),
    ensures
        split_from(s, sep, start) == seq![s.subrange(start, p)] + split_from(s, sep, p + sep.len()),
{
    reveal(split_from);
}

/// The last step of `split_from`.
proof fn lemma_split_from_last(s: Seq<char>, sep: Seq<char>, start: int)
    requires
        0 <= start <= s.len(),
        !occurs_from(s, sep, start),
    ensures
        split_from(s, sep, start) == seq![s.skip(start)],
{
    reveal(split_from);
}

/// A character takes at most four bytes.
pub proof fn lemma_byte_bound(t: Seq<char>, i: int)
    requires
        0 <= i <= t.len(),
    ensures
        byte_at(t, i) <= 4 * i,
    decreases i,
{
    if i > 0 {
        lemma_byte_at_step(t, i - 1);
        lemma_byte_bound(t, i - 1);
    } else {
        assert(t.take(0) =~= Seq::<char>::empty());
    }
}

/// The byte offset of each character index of `t`, and of its end.
pub fn byte_offsets(t: &Vec<char>) -> (r: Vec<u128>)
    ensures
        r@.len() == t@.len() + 1,
        forall|i: int| 0 <= i <= t@.len() ==> #[trigger] r@[i] == byte_at(t@, i),
{
    let mut r: Vec<u128> = Vec::new();
    let mut acc: u128 = 0;
    proof {
        assert(t@.take(0) =~= Seq::<char>::empty());
    }
    r.push(0);
    let mut i: usize = 0;
    while i < t.len()
        invariant
            i <= t@.len(),
            r@.len() == i + 1,
            acc == byte_at(t@, i as int),
            acc <= 4 * i,
            forall|q: int| 0 <= q <= i ==> #[trigger] r@[q] == byte_at(t@, q),
        decreases t@.len() - i,
    {
        proof {
            lemma_byte_at_step(t@, i as int);
        }
        let w = crate::text::char_width(t[i]) as u128;
        acc = acc + w;
        r.push(acc);
        i += 1;
    }
    r
}
} // verus!
