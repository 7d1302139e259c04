//! Comparison of texts without regard to case, and a vector made anew.

use vstd::prelude::*;
use crate::text::chars_of;
use crate::unicode::{lowercase, lowercase_of};

verus! {

/// Two characters are the same letter in lower case.
pub open spec fn same_letter(a: char, b: char) -> bool {
    lowercase_of(a) == lowercase_of(b)
}

/// The characters of `a` and `b` agree pairwise without regard to case, as
/// far as the shorter of the two goes.
pub open spec fn fold_eq(a: Seq<char>, b: Seq<char>) -> bool {
    forall|i: int| 0 <= i < a.len() && i < b.len() ==> same_letter(#[trigger] a[i], b[i])
}

/// Whether two characters are the same letter in lower case.
pub fn letters_match(a: char, b: char) -> (r: bool)
    ensures
        r == same_letter(a, b),
{
    let x = lowercase(a);
    let y = lowercase(b);
    if x.len() != y.len() {
        return false;
    }
    let mut i: usize = 0;
    while i < x.len()
        invariant
            i <= x.len(),
            x.len() == y.len(),
            x@ == lowercase_of(a),
            y@ == lowercase_of(b),
            forall|j: int| 0 <= j < i ==> x@[j] == y@[j],
        decreases x.len() - i,
    {
        if x[i] != y[i] {
            assert(x@[i as int] != y@[i as int]);
            return false;
        }
        i += 1;
    }
    assert(x@ =~= y@);
    true
}

/// Compares the first `n` characters of `x[from..]` with those of `y`.
pub fn fold_eq_chars(x: &Vec<char>, from: usize, y: &Vec<char>, n: usize) -> (r: bool)
    requires
        from + n <= x.len(),
        n <= y.len(),
    ensures
        r == fold_eq(x@.subrange(from as int, from + n), y@.take(n as int)),
{
    let ghost a = x@.subrange(from as int, from + n);
    let ghost b = y@.take(n as int);
    let mut i: usize = 0;
    while i < n
        invariant
            i <= n,
            from + n <= x.len(),
            n <= y.len(),
            a == x@.subrange(from as int, from + n),
            b == y@.take(n as int),
            forall|j: int| 0 <= j < i ==> same_letter(#[trigger] a[j], b[j]),
        decreases n - i,
    {
        if !letters_match(x[from + i], y[i]) {
            assert(!same_letter(a[i as int], b[i as int]));
            return false;
        }
        i += 1;
    }
    true
}

/// Whether `a` and `b` agree without regard to case as far as the shorter
/// of the two goes.
pub fn case_fold_eq(a: &str, b: &str) -> (r: bool)
    ensures
        r == fold_eq(a@, b@),
{
    let x = chars_of(a);
    let y = chars_of(b);
    let n = if x.len() < y.len() {
        x.len()
    } else {
        y.len()
    };
    let r = fold_eq_chars(&x, 0, &y, n);
    proof {
        let p = x@.subrange(0, n as int);
        let q = y@.take(n as int);
        assert forall|i: int| 0 <= i < n implies p[i] == x@[i] && q[i] == y@[i] by {}
        if r {
            assert forall|i: int| 0 <= i < x@.len() && i < y@.len() implies same_letter(
                #[trigger] x@[i],
                y@[i],
            ) by {
                assert(same_letter(p[i], q[i]));
            }
        } else {
            if fold_eq(x@, y@) {
                assert forall|i: int| 0 <= i < p.len() && i < q.len() implies same_letter(
                    #[trigger] p[i],
                    q[i],
                ) by {
                    assert(same_letter(x@[i], y@[i]));
                }
            }
        }
    }
    r
}

/// The number of bytes that `c` takes in UTF-8.
pub open spec fn utf8_width(c: char) -> int {
    if (c as u32) < 0x80 {
        1
    } else if (c as u32) < 0x800 {
        2
    } else if (c as u32) < 0x10000 {
        3
    } else {
        4
    }
}

/// The number of bytes that the first `n` characters of `s` take in UTF-8.
pub open spec fn utf8_len(s: Seq<char>, n: int) -> int
    decreases n,
{
    if n <= 0 || n > s.len() {
        0
    } else {
        utf8_len(s, n - 1) + utf8_width(s[n - 1])
    }
}

/// The characters `h[a..b]` take as many bytes as `n`, begin early enough
/// for another byte to follow them, and agree with `n` without regard to
/// case.
pub open spec fn is_window(h: Seq<char>, n: Seq<char>, a: int, b: int) -> bool {
    &&& 0 <= a <= b <= h.len()
    &&& utf8_len(h, a) < utf8_len(h, h.len() as int) - utf8_len(n, n.len() as int)
    &&& utf8_len(h, b) == utf8_len(h, a) + utf8_len(n, n.len() as int)
    &&& fold_eq(h.subrange(a, b), n)
}

/// Whether `h` holds `n` without regard to case: where the two take the
/// same number of bytes they have to agree; a longer `h` has to hold a
/// piece of as many bytes as `n` that agrees with it and does not reach
/// the end of `h`.
pub open spec fn fold_contains(h: Seq<char>, n: Seq<char>) -> bool {
    let hl = utf8_len(h, h.len() as int);
    let nl = utf8_len(n, n.len() as int);
    if hl < nl {
        false
    } else if hl == nl {
        fold_eq(h, n)
    } else {
        exists|a: int, b: int| is_window(h, n, a, b)
    }
}

/// More characters take more bytes.
pub proof fn lemma_utf8_len_grows(s: Seq<char>, k: int, m: int)
    requires
        0 <= k <= m <= s.len(),
    ensures
        utf8_len(s, m) - utf8_len(s, k) >= m - k,
        utf8_len(s, m) <= 4 * m,
        0 <= utf8_len(s, k),
    decreases m,
{
    if m > 0 {
        if k < m {
            lemma_utf8_len_grows(s, k, m - 1);
        } else {
            lemma_utf8_len_grows(s, k - 1, m - 1);
        }
    }
}

fn width(c: char) -> (w: u128)
    ensures
        w == utf8_width(c),
{
    let u = c as u32;
    if u < 0x80 {
        1
    } else if u < 0x800 {
        2
    } else if u < 0x10000 {
        3
    } else {
        4
    }
}

/// The number of bytes that `v` takes in UTF-8.
fn total(v: &Vec<char>) -> (r: u128)
    ensures
        r == utf8_len(v@, v@.len() as int),
{
    let mut r: u128 = 0;
    let mut i: usize = 0;
    while i < v.len()
        invariant
            i <= v.len(),
            r == utf8_len(v@, i as int),
            r <= 4 * i,
        decreases v.len() - i,
    {
        r += width(v[i]);
        i += 1;
    }
    r
}

/// Whether `x[a..b]` and `y` agree without regard to case as far as the
/// shorter of the two goes.
fn piece_matches(x: &Vec<char>, a: usize, b: usize, y: &Vec<char>) -> (r: bool)
    requires
        a <= b <= x.len(),
    ensures
        r == fold_eq(x@.subrange(a as int, b as int), y@),
{
    let m = if b - a < y.len() {
        b - a
    } else {
        y.len()
    };
    let r = fold_eq_chars(x, a, y, m);
    proof {
        let p = x@.subrange(a as int, a + m);
        let q = y@.take(m as int);
        let w = x@.subrange(a as int, b as int);
        assert forall|i: int| 0 <= i < m implies p[i] == w[i] && q[i] == y@[i] by {}
        if r {
            assert forall|i: int| 0 <= i < w.len() && i < y@.len() implies same_letter(
                #[trigger] w[i],
                y@[i],
            ) by {
                assert(same_letter(p[i], q[i]));
            }
        } else if fold_eq(w, y@) {
            assert forall|i: int| 0 <= i < p.len() && i < q.len() implies same_letter(
                #[trigger] p[i],
                q[i],
            ) by {
                assert(same_letter(w[i], y@[i]));
            }
        }
    }
    r
}

/// Whether `haystack` holds `needle` without regard to case.
pub fn case_fold_contains(haystack: &str, needle: &str) -> (r: bool)
    ensures
        r == fold_contains(haystack@, needle@),
{
    let h = chars_of(haystack);
    let n = chars_of(needle);
    let hl = total(&h);
    let nl = total(&n);
    if hl < nl {
        return false;
    }
    if hl == nl {
        let r = piece_matches(&h, 0, h.len(), &n);
        assert(h@.subrange(0, h.len() as int) =~= h@);
        return r;
    }
    let limit = hl - nl;
    let mut a: usize = 0;
    let mut off_a: u128 = 0;
    let mut b: usize = 0;
    let mut off_b: u128 = 0;
    while a < h.len() && off_a < limit
        invariant
            a <= h.len(),
            b <= h.len(),
            h@ == haystack@,
            n@ == needle@,
            hl == utf8_len(h@, h@.len() as int),
            nl == utf8_len(n@, n@.len() as int),
            nl < hl,
            limit == hl - nl,
            off_a == utf8_len(h@, a as int),
            off_b == utf8_len(h@, b as int),
            forall|k: int| 0 <= k < b ==> utf8_len(h@, k) < off_a + nl,
            forall|i: int, j: int| 0 <= i < a ==> !is_window(h@, n@, i, j),
        decreases h.len() - a,
    {
        proof {
            lemma_utf8_len_grows(h@, b as int, h@.len() as int);
            lemma_utf8_len_grows(h@, a as int, h@.len() as int);
            lemma_utf8_len_grows(h@, 0, b as int);
        }
        while b < h.len() && off_b < off_a + nl
            invariant
                b <= h.len(),
                off_b == utf8_len(h@, b as int),
                off_b <= 4 * b,
                off_a + nl <= 2 * hl,
                hl <= 4 * h.len(),
                forall|k: int| 0 <= k < b ==> utf8_len(h@, k) < off_a + nl,
            decreases h.len() - b,
        {
            proof {
                lemma_utf8_len_grows(h@, 0, b as int + 1);
            }
            off_b += width(h[b]);
            b += 1;
        }
        let found = off_b == off_a + nl && a <= b && piece_matches(&h, a, b, &n);
        proof {
            if off_b == off_a + nl && a > b {
                lemma_utf8_len_grows(h@, b as int, a as int);
            }
            assert forall|j: int| !found implies !is_window(h@, n@, a as int, j) by {
                if is_window(h@, n@, a as int, j) {
                    if j < b {
                    } else if j > b {
                        lemma_utf8_len_grows(h@, b as int, j);
                    }
                }
            }
        }
        if found {
            assert(is_window(h@, n@, a as int, b as int));
            return true;
        }
        proof {
            lemma_utf8_len_grows(h@, 0, a as int + 1);
        }
        off_a += width(h[a]);
        a += 1;
    }
    proof {
        assert forall|i: int, j: int| !is_window(h@, n@, i, j) by {
            if is_window(h@, n@, i, j) && i >= a {
                lemma_utf8_len_grows(h@, a as int, i);
            }
        }
    }
    false
}

/// What becomes of an item of the old vector in the new one: nothing.
fn no_item<T, U>(item: T) -> (out: Option<U>)
    ensures
        out is None,
{
    None
}

/// Hands an empty vector to `Iterator::collect`, which makes a vector of
/// another type of its items: none. The standard library may keep the
/// allocation.
#[verifier::external_body]
fn collect_empty<T, U>(v: Vec<T>) -> (out: Vec<U>)
    requires
        v@.len() == 0,
    ensures
        out@.len() == 0,
{
    v.into_iter().filter_map(no_item).collect()
}

/// An empty vector of another type, made of `v` after it was emptied.
pub fn reuse_vec<T, U>(v: Vec<T>) -> (out: Vec<U>)
    requires
        vstd::layout::size_of::<T>() == vstd::layout::size_of::<U>(),
        vstd::layout::align_of::<T>() == vstd::layout::align_of::<U>(),
    ensures
        out@.len() == 0,
{
    let mut v = v;
    v.clear();
    collect_empty(v)
}

} // verus!
