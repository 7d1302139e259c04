//! Helpers over character sequences, the model every contract of the
//! crate is stated in.

use vstd::prelude::*;

verus! {

/// A set of characters that a scan can stop at.
#[derive(Debug, PartialEq, Eq, Hash, Clone, Copy, Structural)]
pub enum Stop {
    /// One of `[ { < ( /` or a space.
    Special,
    /// One of `[ { < ( ) /` or a space.
    SpecialOrClose,
    /// Exactly this character.
    Only(char),
}

impl Stop {
    /// Whether `c` belongs to the set.
    pub open spec fn has(self, c: char) -> bool {
        match self {
            Stop::Special => is_special(c),
            Stop::SpecialOrClose => is_special(c) || c == ')',
            Stop::Only(d) => c == d,
        }
    }

    /// Whether `c` belongs to the set.
    pub fn contains(&self, c: char) -> (r: bool)
        ensures
            r == self.has(c),
    {
        match self {
            Stop::Special => is_special_char(c),
            Stop::SpecialOrClose => is_special_char_with_end_paren(c),
            Stop::Only(d) => c == *d,
        }
    }
}

/// The characters that end a word outside a parenthesised group.
pub open spec fn is_special(c: char) -> bool {
    c == '[' || c == '{' || c == '<' || c == '(' || c == '/' || c == ' '
}

/// Whether `c` ends a word outside a group.
pub fn is_special_char(c: char) -> (r: bool)
    ensures
        r == is_special(c),
{
    c == '[' || c == '{' || c == '<' || c == '(' || c == '/' || c == ' '
}

/// Whether `c` ends a word inside a group.
pub fn is_special_char_with_end_paren(c: char) -> (r: bool)
    ensures
        r == (is_special(c) || c == ')'),
{
    is_special_char(c) || c == ')'
}

/// The least index at or after `from` whose character is in `stop`, or the
/// length of `s` where there is none.
pub open spec fn first_stop(s: Seq<char>, from: int, stop: Stop) -> int
    decreases s.len() - from,
{
    if from >= s.len() {
        s.len() as int
    } else if stop.has(s[from]) {
        from
    } else {
        first_stop(s, from + 1, stop)
    }
}

/// `first_stop` is the least index of a character of `stop`.
pub proof fn lemma_first_stop(s: Seq<char>, from: int, stop: Stop)
    requires
        0 <= from <= s.len(),
    ensures
        from <= first_stop(s, from, stop) <= s.len(),
        first_stop(s, from, stop) < s.len() ==> stop.has(s[first_stop(s, from, stop)]),
        forall|k: int| from <= k < first_stop(s, from, stop) ==> !stop.has(#[trigger] s[k]),
    decreases s.len() - from,
{
    if from < s.len() && !stop.has(s[from]) {
        lemma_first_stop(s, from + 1, stop);
    }
}

/// Finds the first character of `stop` at or after `from`.
pub fn find_stop(v: &Vec<char>, from: usize, stop: Stop) -> (r: usize)
    requires
        from <= v.len(),
    ensures
        r == first_stop(v@, from as int, stop),
        from <= r <= v.len(),
{
    let mut i: usize = from;
    while i < v.len() && !stop.contains(v[i])
        invariant
            from <= i <= v.len(),
            first_stop(v@, from as int, stop) == first_stop(v@, i as int, stop),
        decreases v.len() - i,
    {
        i += 1;
    }
    i
}

/// A sequence is a given word of one character exactly if it has that
/// length and that character.
pub proof fn lemma_word1(w: Seq<char>, a: char)
    ensures
        (w == seq![a]) == (w.len() == 1 && w[0] == a),
{
    let t = seq![a];
    assert(t.len() == 1 && t[0] == a);
    if w.len() == 1 && w[0] == a {
        assert(w =~= t);
    }
}

/// The same for two characters.
pub proof fn lemma_word2(w: Seq<char>, a: char, b: char)
    ensures
        (w == seq![a, b]) == (w.len() == 2 && w[0] == a && w[1] == b),
{
    let t = seq![a, b];
    assert(t.len() == 2 && t[0] == a && t[1] == b);
    if w.len() == 2 && w[0] == a && w[1] == b {
        assert(w =~= t);
    }
}

/// The same for three characters.
pub proof fn lemma_word3(w: Seq<char>, a: char, b: char, c: char)
    ensures
        (w == seq![a, b, c]) == (w.len() == 3 && w[0] == a && w[1] == b && w[2] == c),
{
    let t = seq![a, b, c];
    assert(t.len() == 3 && t[0] == a && t[1] == b && t[2] == c);
    if w.len() == 3 && w[0] == a && w[1] == b && w[2] == c {
        assert(w =~= t);
    }
}

/// The same for four characters.
pub proof fn lemma_word4(w: Seq<char>, a: char, b: char, c: char, d: char)
    ensures
        (w == seq![a, b, c, d]) == (w.len() == 4 && w[0] == a && w[1] == b && w[2] == c && w[3]
            == d),
{
    let t = seq![a, b, c, d];
    assert(t.len() == 4 && t[0] == a && t[1] == b && t[2] == c && t[3] == d);
    if w.len() == 4 && w[0] == a && w[1] == b && w[2] == c && w[3] == d {
        assert(w =~= t);
    }
}

/// The number of bytes that the first `k` characters of `s` take in UTF-8.
pub open spec fn byte_offset(s: Seq<char>, k: int) -> usize {
    vstd::utf8::encode_utf8(s.subrange(0, k)).len() as usize
}

/// The byte offset of the character with index `k`.
pub fn offset_of(raw: &str, k: usize) -> (r: usize)
    requires
        k <= raw@.len(),
    ensures
        r == byte_offset(raw@, k as int),
{
    raw.substring_char(0, k).len()
}

/// The characters of `s`, in order.
pub fn chars_of(s: &str) -> (v: Vec<char>)
    ensures
        v@ == s@,
{
    let mut v: Vec<char> = Vec::new();
    for c in it: s.chars()
        invariant
            v@ == s@.take(it.index() as int),
            it.seq() == s@,
    {
        v.push(c);
    }
    v
}

/// The sign of the comparison of `a[i..]` with `b[i..]` in dictionary
/// order by code point: -1 where `a` comes first, 1 where `b` does, 0
/// where they are the same. A text comes before every text that it begins.
pub open spec fn text_sign(a: Seq<char>, b: Seq<char>, i: int) -> int
    decreases a.len() - i,
{
    if i >= a.len() {
        if i >= b.len() {
            0
        } else {
            -1
        }
    } else if i >= b.len() {
        1
    } else if (a[i] as u32) < (b[i] as u32) {
        -1
    } else if (a[i] as u32) > (b[i] as u32) {
        1
    } else {
        text_sign(a, b, i + 1)
    }
}

/// Compares two texts in dictionary order by code point.
pub fn compare_text(a: &str, b: &str) -> (r: i8)
    ensures
        r == text_sign(a@, b@, 0),
{
    let x = chars_of(a);
    let y = chars_of(b);
    let mut i: usize = 0;
    while i < x.len() && i < y.len()
        invariant
            i <= x.len(),
            i <= y.len(),
            x@ == a@,
            y@ == b@,
            text_sign(x@, y@, 0) == text_sign(x@, y@, i as int),
        decreases x.len() - i,
    {
        let c = x[i] as u32;
        let d = y[i] as u32;
        if c < d {
            return -1;
        }
        if c > d {
            return 1;
        }
        i += 1;
    }
    if i < y.len() {
        -1
    } else if i < x.len() {
        1
    } else {
        0
    }
}

/// The index of the closer that brings the nesting depth to zero, or the
/// length of `s` where none does. `depth` openers are open at `from`.
pub open spec fn matching_close(s: Seq<char>, from: int, open: char, close: char, depth: nat) -> int
    decreases s.len() - from,
{
    if from >= s.len() {
        s.len() as int
    } else if s[from] == close {
        if depth <= 1 {
            from
        } else {
            matching_close(s, from + 1, open, close, (depth - 1) as nat)
        }
    } else if s[from] == open {
        matching_close(s, from + 1, open, close, depth + 1)
    } else {
        matching_close(s, from + 1, open, close, depth)
    }
}

/// The matching closer stands at or after the place where the search began.
pub proof fn lemma_matching_close(s: Seq<char>, from: int, open: char, close: char, depth: nat)
    requires
        0 <= from <= s.len(),
    ensures
        from <= matching_close(s, from, open, close, depth) <= s.len(),
    decreases s.len() - from,
{
    if from < s.len() {
        if s[from] == close {
            if depth > 1 {
                lemma_matching_close(s, from + 1, open, close, (depth - 1) as nat);
            }
        } else if s[from] == open {
            lemma_matching_close(s, from + 1, open, close, depth + 1);
        } else {
            lemma_matching_close(s, from + 1, open, close, depth);
        }
    }
}

/// Finds the closer that matches an opener read just before `from`.
pub fn find_close(v: &Vec<char>, from: usize, open: char, close: char) -> (r: usize)
    requires
        from <= v.len(),
    ensures
        r == matching_close(v@, from as int, open, close, 1),
        from <= r <= v.len(),
{
    let mut i: usize = from;
    let mut inner: usize = 0;
    while i < v.len()
        invariant
            from <= i <= v.len(),
            inner <= i - from,
            matching_close(v@, from as int, open, close, 1) == matching_close(
                v@,
                i as int,
                open,
                close,
                (inner + 1) as nat,
            ),
        decreases v.len() - i,
    {
        let c = v[i];
        if c == close {
            if inner == 0 {
                return i;
            }
            inner -= 1;
        } else if c == open {
            inner += 1;
        }
        i += 1;
    }
    i
}

/// A text together with its characters.
#[derive(Debug)]
pub struct Source<'a> {
    raw: &'a str,
    chars: Vec<char>,
}

impl<'a> View for Source<'a> {
    type V = Seq<char>;

    closed spec fn view(&self) -> Seq<char> {
        self.raw@
    }
}

impl<'a> Source<'a> {
    #[verifier::type_invariant]
    spec fn inv(self) -> bool {
        self.chars@ == self.raw@
    }

    /// The text `raw` with its characters.
    pub fn new(raw: &'a str) -> (out: Self)
        ensures
            out@ == raw@,
    {
        Source { raw, chars: chars_of(raw) }
    }

    /// The text itself.
    pub fn raw(&self) -> (r: &'a str)
        ensures
            r@ == self@,
    {
        self.raw
    }

    /// The characters of the text.
    pub fn chars(&self) -> (v: &Vec<char>)
        ensures
            v@ == self@,
    {
        proof {
            use_type_invariant(self);
        }
        &self.chars
    }

    /// The number of characters.
    pub fn len(&self) -> (n: usize)
        ensures
            n == self@.len(),
    {
        self.chars().len()
    }

    /// The piece of the text from character `from` up to `to`.
    pub fn piece(&self, from: usize, to: usize) -> (r: &'a str)
        requires
            from <= to <= self@.len(),
        ensures
            r@ == self@.subrange(from as int, to as int),
    {
        self.raw.substring_char(from, to)
    }

    /// A copy of the piece from `from` up to `to`.
    pub fn word(&self, from: usize, to: usize) -> (r: String)
        requires
            from <= to <= self@.len(),
        ensures
            r@ == self@.subrange(from as int, to as int),
    {
        self.piece(from, to).to_owned()
    }

    /// The byte at which character `k` begins.
    pub fn offset(&self, k: usize) -> (r: usize)
        requires
            k <= self@.len(),
        ensures
            r == byte_offset(self@, k as int),
    {
        offset_of(self.raw, k)
    }
}

impl<'a> Clone for Source<'a> {
    fn clone(&self) -> (out: Self)
        ensures
            out@ == self@,
    {
        proof {
            use_type_invariant(self);
        }
        let chars = self.chars.clone();
        assert(chars@ =~= self.chars@);
        Source { raw: self.raw, chars }
    }
}

} // verus!
