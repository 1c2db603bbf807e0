//! Lines, words and fields of a text.

use vstd::prelude::*;
use crate::text::{chars_of, parse_usize};
use crate::text;

verus! {

/// A character that counts as white space.
pub open spec fn is_space(c: char) -> bool {
    let n = c as u32;
    (0x9 <= n <= 0xd) || n == 0x20 || n == 0x85 || n == 0xa0 || n == 0x1680 || (0x2000 <= n
        <= 0x200a) || n == 0x2028 || n == 0x2029 || n == 0x202f || n == 0x205f || n == 0x3000
}

/// Does the character count as white space?
pub fn is_whitespace(c: char) -> (r: bool)
    ensures
        r == is_space(c),
{
    let n: u32 = c as u32;
    (0x9 <= n && n <= 0xd) || n == 0x20 || n == 0x85 || n == 0xa0 || n == 0x1680 || (0x2000 <= n
        && n <= 0x200a) || n == 0x2028 || n == 0x2029 || n == 0x202f || n == 0x205f || n == 0x3000
}

/// How many characters stand in front of the first that equals `c`.
pub open spec fn before_char(s: Seq<char>, c: char) -> nat
    decreases s.len(),
{
    if s.len() == 0 || s[0] == c {
        0
    } else {
        1 + before_char(s.skip(1), c)
    }
}

/// How many characters stand in front of the first white space.
pub open spec fn before_space(s: Seq<char>) -> nat
    decreases s.len(),
{
    if s.len() == 0 || is_space(s[0]) {
        0
    } else {
        1 + before_space(s.skip(1))
    }
}

/// A line without a carriage return at its end.
pub open spec fn without_cr(s: Seq<char>) -> Seq<char> {
    if s.len() > 0 && s.last() == '\r' {
        s.drop_last()
    } else {
        s
    }
}

/// The lines of a text. A line ends with a line feed, or a carriage return and a
/// line feed, neither of which belongs to it; the last one may end with the text.
pub open spec fn lines(s: Seq<char>) -> Seq<Seq<char>>
    decreases s.len(),
{
    if s.len() == 0 {
        Seq::empty()
    } else {
        let e = before_char(s, '\n') as int;
        if e < s.len() {
            seq![without_cr(s.take(e))] + lines(s.skip(e + 1))
        } else {
            seq![s]
        }
    }
}

/// The words of a text: what stands between white space.
pub open spec fn words(s: Seq<char>) -> Seq<Seq<char>>
    decreases s.len(),
{
    if s.len() == 0 {
        Seq::empty()
    } else if is_space(s[0]) {
        words(s.skip(1))
    } else {
        proof {
            lemma_before_space_bound(s);
        }
        let e = before_space(s) as int;
        seq![s.take(e)] + words(s.skip(e))
    }
}

/// A text without white space at its front.
pub open spec fn trim_start(s: Seq<char>) -> Seq<char>
    decreases s.len(),
{
    if s.len() > 0 && is_space(s[0]) {
        trim_start(s.skip(1))
    } else {
        s
    }
}

/// A text without white space at its end.
pub open spec fn trim_end(s: Seq<char>) -> Seq<char>
    decreases s.len(),
{
    if s.len() > 0 && is_space(s.last()) {
        trim_end(s.drop_last())
    } else {
        s
    }
}

/// A text without white space at either end.
pub open spec fn trimmed(s: Seq<char>) -> Seq<char> {
    trim_end(trim_start(s))
}

/// A text begins with another.
pub open spec fn begins(s: Seq<char>, p: Seq<char>) -> bool {
    p.len() <= s.len() && s.take(p.len() as int) == p
}

/// The texts of a list.
pub open spec fn texts(v: Seq<Vec<char>>) -> Seq<Seq<char>> {
    v.map_values(|w: Vec<char>| w@)
}

/// The first white space stands within the text, or at its end.
pub proof fn lemma_before_space_bound(s: Seq<char>)
    ensures
        before_space(s) <= s.len(),
    decreases s.len(),
{
    if s.len() > 0 {
        lemma_before_space_bound(s.skip(1));
    }
}

pub proof fn lemma_before_char(s: Seq<char>, c: char, n: int)
    requires
        0 <= n <= s.len(),
        forall|i: int| 0 <= i < n ==> #[trigger] s[i] != c,
        n == s.len() || s[n] == c,
    ensures
        before_char(s, c) == n,
    decreases s.len(),
{
    if n > 0 {
        let t = s.skip(1);
        assert forall|i: int| 0 <= i < n - 1 implies #[trigger] t[i] != c by {
            assert(t[i] == s[i + 1]);
        }
        lemma_before_char(t, c, n - 1);
    }
}

pub proof fn lemma_before_space(s: Seq<char>, n: int)
    requires
        0 <= n <= s.len(),
        forall|i: int| 0 <= i < n ==> !is_space(#[trigger] s[i]),
        n == s.len() || is_space(s[n]),
    ensures
        before_space(s) == n,
    decreases s.len(),
{
    if n > 0 {
        let t = s.skip(1);
        assert forall|i: int| 0 <= i < n - 1 implies !is_space(#[trigger] t[i]) by {
            assert(t[i] == s[i + 1]);
        }
        lemma_before_space(t, n - 1);
    }
}

/// The first place from `from` on that holds `c`, or the end.
pub fn find_char(v: &[char], from: usize, c: char) -> (r: usize)
    requires
        from <= v.len(),
    ensures
        from <= r <= v.len(),
        r - from == before_char(v@.skip(from as int), c),
        r < v.len() ==> v@[r as int] == c,
{
    let mut i: usize = from;
    while i < v.len() && v[i] != c
        invariant
            from <= i <= v.len(),
            forall|j: int| from <= j < i ==> #[trigger] v@[j] != c,
        decreases v.len() - i,
    {
        i = i + 1;
    }
    proof {
        let s = v@.skip(from as int);
        assert forall|j: int| 0 <= j < i - from implies #[trigger] s[j] != c by {
            assert(s[j] == v@[from + j]);
        }
        lemma_before_char(s, c, i - from);
    }
    i
}

/// The characters from `lo` to `hi`.
pub fn part(v: &[char], lo: usize, hi: usize) -> (r: Vec<char>)
    requires
        lo <= hi <= v.len(),
    ensures
        r@ == v@.subrange(lo as int, hi as int),
{
    let mut out: Vec<char> = Vec::new();
    let mut i: usize = lo;
    while i < hi
        invariant
            lo <= i <= hi <= v.len(),
            out@ == v@.subrange(lo as int, i as int),
        decreases hi - i,
    {
        out.push(v[i]);
        assert(out@ =~= v@.subrange(lo as int, i + 1));
        i = i + 1;
    }
    out
}

/// The lines of a text.
pub fn lines_of(v: &[char]) -> (r: Vec<Vec<char>>)
    ensures
        texts(r@) == lines(v@),
{
    let mut out: Vec<Vec<char>> = Vec::new();
    let mut p: usize = 0;
    assert(v@.skip(0) =~= v@);
    assert(texts(out@) + lines(v@) =~= lines(v@));
    while p < v.len()
        invariant
            p <= v.len(),
            texts(out@) + lines(v@.skip(p as int)) == lines(v@),
        decreases v.len() - p,
    {
        let ghost rest = v@.skip(p as int);
        let ghost before = texts(out@);
        let e = find_char(v, p, '\n');
        let hi: usize = if e < v.len() && e > p && v[e - 1] == '\r' {
            e - 1
        } else {
            e
        };
        let line = part(v, p, hi);
        proof {
            let n = e - p;
            assert(rest.take(n) =~= v@.subrange(p as int, e as int));
            assert(rest.len() > 0);
            if e < v.len() {
                assert(line@ =~= without_cr(rest.take(n)));
                assert(rest.skip(n + 1) =~= v@.skip(e + 1));
            } else {
                assert(line@ =~= rest);
                assert(v@.skip(v.len() as int) =~= Seq::<char>::empty());
            }
        }
        out.push(line);
        assert(texts(out@) =~= before.push(line@));
        p = if e < v.len() {
            e + 1
        } else {
            e
        };
        assert(texts(out@) + lines(v@.skip(p as int)) =~= before + lines(rest));
    }
    assert(v@.skip(p as int) =~= Seq::<char>::empty());
    assert(texts(out@) + lines(v@.skip(p as int)) =~= texts(out@));
    out
}

/// The words of a text.
pub fn words_of(v: &[char]) -> (r: Vec<Vec<char>>)
    ensures
        texts(r@) == words(v@),
{
    let mut out: Vec<Vec<char>> = Vec::new();
    let mut p: usize = 0;
    assert(v@.skip(0) =~= v@);
    assert(texts(out@) + words(v@) =~= words(v@));
    while p < v.len()
        invariant
            p <= v.len(),
            texts(out@) + words(v@.skip(p as int)) == words(v@),
        decreases v.len() - p,
    {
        let ghost rest = v@.skip(p as int);
        let ghost before = texts(out@);
        if is_whitespace(v[p]) {
            assert(rest.skip(1) =~= v@.skip(p + 1));
            p = p + 1;
        } else {
            let mut e: usize = p + 1;
            while e < v.len() && !is_whitespace(v[e])
                invariant
                    p < e <= v.len(),
                    forall|j: int| p <= j < e ==> !is_space(#[trigger] v@[j]),
                decreases v.len() - e,
            {
                e = e + 1;
            }
            let word = part(v, p, e);
            proof {
                let n = e - p;
                assert forall|j: int| 0 <= j < n implies !is_space(#[trigger] rest[j]) by {
                    assert(rest[j] == v@[p + j]);
                }
                lemma_before_space(rest, n);
                assert(rest.take(n) =~= word@);
                assert(rest.skip(n) =~= v@.skip(e as int));
            }
            out.push(word);
            assert(texts(out@) =~= before.push(word@));
            p = e;
            assert(texts(out@) + words(v@.skip(p as int)) =~= before + words(rest));
        }
    }
    assert(v@.skip(p as int) =~= Seq::<char>::empty());
    assert(texts(out@) + words(v@.skip(p as int)) =~= texts(out@));
    out
}

/// A text without white space at either end.
pub fn trim(v: &[char]) -> (r: Vec<char>)
    ensures
        r@ == trimmed(v@),
{
    let mut lo: usize = 0;
    assert(v@.skip(0) =~= v@);
    while lo < v.len() && is_whitespace(v[lo])
        invariant
            lo <= v.len(),
            trim_start(v@.skip(lo as int)) == trim_start(v@),
        decreases v.len() - lo,
    {
        assert(v@.skip(lo as int).skip(1) =~= v@.skip(lo + 1));
        lo = lo + 1;
    }
    let ghost rest = v@.skip(lo as int);
    assert(trim_start(rest) == rest);
    let mut hi: usize = v.len();
    assert(v@.subrange(lo as int, hi as int) =~= rest);
    while hi > lo && is_whitespace(v[hi - 1])
        invariant
            lo <= hi <= v.len(),
            trim_end(v@.subrange(lo as int, hi as int)) == trim_end(rest),
        decreases hi - lo,
    {
        assert(v@.subrange(lo as int, hi as int).drop_last() =~= v@.subrange(lo as int, hi - 1));
        hi = hi - 1;
    }
    part(v, lo, hi)
}

/// Does the text begin with `prefix`?
pub fn starts_with(v: &[char], prefix: &str) -> (r: bool)
    ensures
        r == begins(v@, prefix@),
{
    let p = chars_of(prefix);
    if p.len() > v.len() {
        return false;
    }
    let mut i: usize = 0;
    while i < p.len()
        invariant
            i <= p.len() <= v.len(),
            p@ == prefix@,
            forall|j: int| 0 <= j < i ==> #[trigger] v@[j] == p@[j],
        decreases p.len() - i,
    {
        if v[i] != p[i] {
            assert(v@.take(p@.len() as int)[i as int] != p@[i as int]);
            return false;
        }
        i = i + 1;
    }
    assert(v@.take(p@.len() as int) =~= p@);
    true
}

/// The numbers among the fields of a list, which commas part. Fields that are no
/// numbers are left out, and white space around a number is ignored.
pub open spec fn number_list(s: Seq<char>) -> Seq<usize>
    decreases s.len(),
{
    let e = before_char(s, ',') as int;
    let field = if e < s.len() {
        s.take(e)
    } else {
        s
    };
    let head = match text::parsed(trimmed(field)) {
        Some(n) => seq![n],
        None => Seq::empty(),
    };
    if e < s.len() {
        head + number_list(s.skip(e + 1))
    } else {
        head
    }
}

/// The numbers among the fields of a list.
pub fn parse_list(list: &str) -> (r: Vec<usize>)
    ensures
        r@ == number_list(list@),
{
    let v = chars_of(list);
    let mut out: Vec<usize> = Vec::new();
    let mut p: usize = 0;
    assert(v@.skip(0) =~= v@);
    assert(out@ + number_list(v@) =~= number_list(v@));
    loop
        invariant_except_break
            p <= v.len(),
            out@ + number_list(v@.skip(p as int)) == number_list(v@),
        ensures
            out@ == number_list(v@),
        decreases v.len() - p,
    {
        let ghost rest = v@.skip(p as int);
        let ghost before = out@;
        let e = find_char(v.as_slice(), p, ',');
        let field = part(v.as_slice(), p, e);
        let body = trim(field.as_slice());
        proof {
            let n = e - p;
            if e < v.len() {
                assert(rest.take(n) =~= field@);
                assert(rest.skip(n + 1) =~= v@.skip(e + 1));
            } else {
                assert(rest =~= field@);
            }
        }
        match parse_usize(body.as_slice()) {
            Some(n) => {
                out.push(n);
            },
            None => {},
        }
        if e == v.len() {
            assert(out@ =~= before + number_list(rest));
            break;
        }
        p = e + 1;
        assert(out@ + number_list(v@.skip(p as int)) =~= before + number_list(rest));
    }
    out
}

} // verus!
