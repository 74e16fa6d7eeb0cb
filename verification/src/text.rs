//! Text primitives over the character view of a string.

use vstd::prelude::*;
use vstd::std_specs::iter::IteratorSpec;
use vstd::string::*;

verus! {

/// `p` is a prefix of `s`.
pub open spec fn is_prefix(p: Seq<char>, s: Seq<char>) -> bool {
    p.len() <= s.len() && s.subrange(0, p.len() as int) == p
}

/// `x` is a suffix of `s`.
pub open spec fn is_suffix(x: Seq<char>, s: Seq<char>) -> bool {
    x.len() <= s.len() && s.subrange(s.len() - x.len(), s.len() as int) == x
}

/// `needle` occurs in `hay` starting at index `i`.
pub open spec fn occurs_at(needle: Seq<char>, hay: Seq<char>, i: int) -> bool {
    0 <= i && i + needle.len() <= hay.len() && hay.subrange(i, i + needle.len()) == needle
}

/// `needle` occurs somewhere in `hay`.
pub open spec fn occurs_in(needle: Seq<char>, hay: Seq<char>) -> bool {
    exists|i: int| occurs_at(needle, hay, i)
}

/// The characters of `s`, in order.
pub fn chars_of(s: &str) -> (v: Vec<char>)
    ensures
        v@ == s@,
{
    broadcast use vstd::string::group_string_axioms;
    let mut v: Vec<char> = Vec::new();
    for c in it: s.chars()
        invariant
            v@ == it.seq().take(it.index()),
            it.seq() == s@,
    {
        v.push(c);
    }
    v
}

/// Strict lexicographic order on character sequences, characters compared by
/// code point. This is the order in which `str` values compare.
pub open spec fn lex_lt(a: Seq<char>, b: Seq<char>) -> bool
    decreases a.len(),
{
    if b.len() == 0 {
        false
    } else if a.len() == 0 {
        true
    } else if a[0] != b[0] {
        (a[0] as u32) < (b[0] as u32)
    } else {
        lex_lt(a.drop_first(), b.drop_first())
    }
}

/// Non-strict lexicographic order.
pub open spec fn lex_le(a: Seq<char>, b: Seq<char>) -> bool {
    a == b || lex_lt(a, b)
}

/// No sequence is below itself.
pub proof fn lemma_lex_irreflexive(a: Seq<char>)
    ensures
        !lex_lt(a, a),
    decreases a.len(),
{
    if a.len() > 0 {
        lemma_lex_irreflexive(a.drop_first());
    }
}

/// Two sequences of which neither is below the other are equal.
pub proof fn lemma_lex_total(a: Seq<char>, b: Seq<char>)
    ensures
        lex_lt(a, b) || lex_lt(b, a) || a == b,
    decreases a.len(),
{
    if a.len() == 0 || b.len() == 0 {
        if a.len() == 0 && b.len() == 0 {
            assert(a =~= b);
        }
    } else if a[0] == b[0] {
        lemma_lex_total(a.drop_first(), b.drop_first());
        if a.drop_first() == b.drop_first() {
            assert forall|i: int| 0 <= i < a.len() implies a[i] == b[i] by {
                if i > 0 {
                    assert(a[i] == a.drop_first()[i - 1]);
                    assert(b[i] == b.drop_first()[i - 1]);
                }
            }
            assert(a.drop_first().len() == b.drop_first().len());
            assert(a =~= b);
        }
    } else {
        vstd::utf8::char_u32_cast(a[0], a[0] as u32);
        vstd::utf8::char_u32_cast(b[0], b[0] as u32);
    }
}

/// The order is transitive.
pub proof fn lemma_lex_transitive(a: Seq<char>, b: Seq<char>, c: Seq<char>)
    requires
        lex_lt(a, b),
        lex_lt(b, c),
    ensures
        lex_lt(a, c),
    decreases a.len(),
{
    if a.len() > 0 && b.len() > 0 && c.len() > 0 && a[0] == b[0] && b[0] == c[0] {
        lemma_lex_transitive(a.drop_first(), b.drop_first(), c.drop_first());
    }
}

/// Whether two strings hold the same characters.
pub fn equal(a: &str, b: &str) -> (r: bool)
    ensures
        r == (a@ == b@),
{
    broadcast use vstd::string::group_string_axioms;
    let mut ia = a.chars();
    let mut ib = b.chars();
    let ghost mut done: int = 0;
    loop
        invariant
            0 <= done <= a@.len(),
            done <= b@.len(),
            a@.take(done) == b@.take(done),
            ia.remaining() == a@.skip(done),
            ib.remaining() == b@.skip(done),
        decreases a@.len() - done,
    {
        let ca = ia.next();
        let cb = ib.next();
        match (ca, cb) {
            (None, None) => {
                assert(a@ =~= a@.take(done));
                assert(b@ =~= b@.take(done));
                return true;
            },
            (Some(x), Some(y)) => {
                if x != y {
                    assert(a@[done] != b@[done]);
                    return false;
                }
                proof {
                    assert(a@.take(done + 1) =~= a@.take(done).push(a@[done]));
                    assert(b@.take(done + 1) =~= b@.take(done).push(b@[done]));
                    assert(a@.skip(done).drop_first() =~= a@.skip(done + 1));
                    assert(b@.skip(done).drop_first() =~= b@.skip(done + 1));
                    done = done + 1;
                }
            },
            _ => {
                return false;
            },
        }
    }
}

/// Whether `a` sorts strictly before `b`.
pub fn less_than(a: &str, b: &str) -> (r: bool)
    ensures
        r == lex_lt(a@, b@),
{
    broadcast use vstd::string::group_string_axioms;
    let mut ia = a.chars();
    let mut ib = b.chars();
    let ghost mut done: int = 0;
    proof {
        assert(a@.skip(0) =~= a@);
        assert(b@.skip(0) =~= b@);
    }
    loop
        invariant
            0 <= done <= a@.len(),
            done <= b@.len(),
            ia.remaining() == a@.skip(done),
            ib.remaining() == b@.skip(done),
            lex_lt(a@, b@) == lex_lt(a@.skip(done), b@.skip(done)),
        decreases a@.len() - done,
    {
        let ca = ia.next();
        let cb = ib.next();
        match (ca, cb) {
            (_, None) => {
                return false;
            },
            (None, Some(_)) => {
                return true;
            },
            (Some(x), Some(y)) => {
                if x != y {
                    return (x as u32) < (y as u32);
                }
                proof {
                    assert(a@.skip(done).drop_first() =~= a@.skip(done + 1));
                    assert(b@.skip(done).drop_first() =~= b@.skip(done + 1));
                    done = done + 1;
                }
            },
        }
    }
}

/// Whether `s` begins with `p`.
pub fn starts_with(s: &str, p: &str) -> (r: bool)
    ensures
        r == is_prefix(p@, s@),
{
    broadcast use vstd::string::group_string_axioms;
    let mut is = s.chars();
    let mut ip = p.chars();
    let ghost mut done: int = 0;
    loop
        invariant
            0 <= done <= p@.len(),
            done <= s@.len(),
            s@.take(done) == p@.take(done),
            is.remaining() == s@.skip(done),
            ip.remaining() == p@.skip(done),
        decreases p@.len() - done,
    {
        let cp = ip.next();
        match cp {
            None => {
                assert(p@ =~= p@.take(done));
                assert(s@.subrange(0, p@.len() as int) =~= s@.take(done));
                return true;
            },
            Some(y) => {
                let cs = is.next();
                match cs {
                    None => {
                        return false;
                    },
                    Some(x) => {
                        if x != y {
                            proof {
                                if p@.len() <= s@.len() {
                                    assert(s@.subrange(0, p@.len() as int)[done] == s@[done]);
                                }
                            }
                            return false;
                        }
                        proof {
                            assert(s@.take(done + 1) =~= s@.take(done).push(s@[done]));
                            assert(p@.take(done + 1) =~= p@.take(done).push(p@[done]));
                            assert(s@.skip(done).drop_first() =~= s@.skip(done + 1));
                            assert(p@.skip(done).drop_first() =~= p@.skip(done + 1));
                            done = done + 1;
                        }
                    },
                }
            },
        }
    }
}

/// Whether `s` ends with `x`.
pub fn ends_with(s: &str, x: &str) -> (r: bool)
    ensures
        r == is_suffix(x@, s@),
{
    let n = s.unicode_len();
    let m = x.unicode_len();
    if m > n {
        return false;
    }
    equal(s.substring_char(n - m, n), x)
}

/// `s` without its prefix `p`, if it begins with `p`.
pub fn strip_prefix<'a>(s: &'a str, p: &str) -> (r: Option<&'a str>)
    ensures
        r is Some <==> is_prefix(p@, s@),
        r matches Some(rest) ==> rest@ == s@.skip(p@.len() as int),
{
    if starts_with(s, p) {
        let n = s.unicode_len();
        let m = p.unicode_len();
        Some(s.substring_char(m, n))
    } else {
        None
    }
}

/// `s` without its suffix `x`, if it ends with `x`.
pub fn strip_suffix<'a>(s: &'a str, x: &str) -> (r: Option<&'a str>)
    ensures
        r is Some <==> is_suffix(x@, s@),
        r matches Some(rest) ==> rest@ == s@.take(s@.len() - x@.len()),
{
    if ends_with(s, x) {
        let n = s.unicode_len();
        let m = x.unicode_len();
        Some(s.substring_char(0, n - m))
    } else {
        None
    }
}

/// Whether `needle` occurs anywhere in `hay`.
pub fn contains(hay: &str, needle: &str) -> (r: bool)
    ensures
        r == occurs_in(needle@, hay@),
{
    let h = chars_of(hay);
    let nd = chars_of(needle);
    if nd.len() > h.len() {
        return false;
    }
    let last: usize = h.len() - nd.len();
    let mut i: usize = 0;
    while i <= last
        invariant
            h@ == hay@,
            nd@ == needle@,
            last == h.len() - nd.len(),
            i <= last + 1,
            forall|j: int| 0 <= j < i ==> !occurs_at(nd@, h@, j),
        decreases last + 1 - i,
    {
        let mut k: usize = 0;
        while k < nd.len() && h[i + k] == nd[k]
            invariant
                i <= last,
                last == h.len() - nd.len(),
                k <= nd.len(),
                h@.subrange(i as int, i + k) == nd@.take(k as int),
            decreases nd.len() - k,
        {
            proof {
                assert(h@.subrange(i as int, i + k + 1) =~= h@.subrange(i as int, i + k).push(
                    h@[i + k],
                ));
                assert(nd@.take(k + 1) =~= nd@.take(k as int).push(nd@[k as int]));
            }
            k = k + 1;
        }
        if k == nd.len() {
            proof {
                assert(nd@.take(k as int) =~= nd@);
                assert(occurs_at(nd@, h@, i as int));
            }
            return true;
        }
        proof {
            assert(h@.subrange(i as int, i + nd.len())[k as int] == h@[i + k]);
        }
        i = i + 1;
    }
    false
}

/// The greatest index at which `c` stands in `s`, if it stands in `s`.
pub open spec fn last_index_of(s: Seq<char>, c: char) -> Option<int>
    decreases s.len(),
{
    if s.len() == 0 {
        None
    } else if s.last() == c {
        Some(s.len() - 1)
    } else {
        last_index_of(s.drop_last(), c)
    }
}

/// The last index of a character lies within the sequence.
pub proof fn lemma_last_index_of(s: Seq<char>, c: char)
    ensures
        last_index_of(s, c) matches Some(i) ==> 0 <= i < s.len() && s[i] == c,
    decreases s.len(),
{
    if s.len() > 0 && s.last() != c {
        lemma_last_index_of(s.drop_last(), c);
    }
}

/// The greatest index, counted in characters, at which `c` stands in `s`.
pub fn find_last(s: &str, c: char) -> (r: Option<usize>)
    ensures
        r is Some <==> last_index_of(s@, c) is Some,
        r matches Some(i) ==> last_index_of(s@, c) == Some(i as int),
{
    let v = chars_of(s);
    let mut n: usize = v.len();
    assert(v@.take(n as int) =~= v@);
    while n > 0
        invariant
            n <= v.len(),
            v@ == s@,
            last_index_of(s@, c) == last_index_of(v@.take(n as int), c),
        decreases n,
    {
        if v[n - 1] == c {
            return Some(n - 1);
        }
        assert(v@.take(n as int).drop_last() =~= v@.take(n - 1));
        n = n - 1;
    }
    None
}

/// The characters of `s` from index `from` up to index `to`.
pub fn slice<'a>(s: &'a str, from: usize, to: usize) -> (r: &'a str)
    requires
        from <= to <= s@.len(),
    ensures
        r@ == s@.subrange(from as int, to as int),
{
    s.substring_char(from, to)
}

} // verus!
