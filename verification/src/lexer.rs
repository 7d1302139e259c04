//! The scanner: cuts a raw entry into lexical units.

use vstd::prelude::*;
use crate::text::{byte_offset, find_close, find_stop, first_stop, matching_close, Source, Stop};
use crate::unicode::{alphanumeric, is_alphanumeric};

verus! {

/// The bracket family of a literal span.
#[derive(Clone, Copy, Debug, PartialEq, Eq, Hash, Structural)]
pub enum LiteralMarker {
    Curly,
    Square,
    Angle,
}

impl LiteralMarker {
    /// The character that opens a span of this family.
    pub open spec fn opener(self) -> char {
        match self {
            LiteralMarker::Angle => '<',
            LiteralMarker::Square => '[',
            LiteralMarker::Curly => '{',
        }
    }

    /// The character that closes a span of this family.
    pub open spec fn closer(self) -> char {
        match self {
            LiteralMarker::Angle => '>',
            LiteralMarker::Square => ']',
            LiteralMarker::Curly => '}',
        }
    }

    /// The family that `c` opens, if it opens one.
    pub open spec fn of_opener(c: char) -> Option<LiteralMarker> {
        if c == '<' {
            Some(LiteralMarker::Angle)
        } else if c == '[' {
            Some(LiteralMarker::Square)
        } else if c == '{' {
            Some(LiteralMarker::Curly)
        } else {
            None
        }
    }

    /// The family that `c` opens, if it opens one.
    pub fn from_start_seq(c: char) -> (r: Option<LiteralMarker>)
        ensures
            r == LiteralMarker::of_opener(c),
    {
        if c == '<' {
            Some(LiteralMarker::Angle)
        } else if c == '[' {
            Some(LiteralMarker::Square)
        } else if c == '{' {
            Some(LiteralMarker::Curly)
        } else {
            None
        }
    }

    /// The character that opens a span of this family.
    pub fn seq_start(&self) -> (c: char)
        ensures
            c == self.opener(),
    {
        match self {
            LiteralMarker::Angle => '<',
            LiteralMarker::Square => '[',
            LiteralMarker::Curly => '{',
        }
    }

    /// The character that closes a span of this family.
    pub fn seq_end(&self) -> (c: char)
        ensures
            c == self.closer(),
    {
        match self {
            LiteralMarker::Angle => '>',
            LiteralMarker::Square => ']',
            LiteralMarker::Curly => '}',
        }
    }
}

/// A lexical unit. The texts are pieces of the input.
#[derive(Debug, Clone, Copy, PartialEq, Eq, Hash)]
pub enum Token<'a> {
    Parens { is_start: bool },
    Slash,
    Literal { value: &'a str, marker: LiteralMarker },
    Text(&'a str),
    Quoted(&'a str),
}

/// The content of a token.
pub enum TokenView {
    Parens { is_start: bool },
    Slash,
    Literal { value: Seq<char>, marker: LiteralMarker },
    Text(Seq<char>),
    Quoted(Seq<char>),
}

impl<'a> View for Token<'a> {
    type V = TokenView;

    open spec fn view(&self) -> TokenView {
        match *self {
            Token::Parens { is_start } => TokenView::Parens { is_start },
            Token::Slash => TokenView::Slash,
            Token::Literal { value, marker } => TokenView::Literal { value: value@, marker },
            Token::Text(t) => TokenView::Text(t@),
            Token::Quoted(t) => TokenView::Quoted(t@),
        }
    }
}

/// Why a text cannot be cut into tokens. Positions are byte offsets.
#[derive(Debug, Clone, Copy, PartialEq, Eq, Hash, Structural)]
pub enum Error {
    /// A literal span whose inside begins at `at` is never closed.
    IncompleteLiteral { marker: LiteralMarker, at: usize },
    /// No rule applies to the character at this position.
    Unexpected(usize),
}

/// What may stand between the last token and the next.
#[derive(Debug, Clone, Copy, PartialEq, Eq, Hash, Structural)]
pub enum SpaceBehavior {
    /// A space is an error.
    Forbidden,
    /// Spaces are passed over.
    Maybe,
    /// A space has to come first.
    Required,
}

/// A piece of text that a scan has cut off: it ends before `end`, the
/// scan goes on at `next`, with `space` between.
pub struct Cut {
    pub end: int,
    pub next: int,
    pub space: SpaceBehavior,
}

/// How far a scan for free text has come with the one parenthetical that
/// a word may hold.
pub enum Paren {
    /// No parenthesis yet.
    Absent,
    /// Opened at this position.
    Open(int),
    /// Opened and closed at these positions.
    Closed(int, int),
}

/// Where a run of free text that begins before `i` ends, and what it holds
/// of parentheses up to there. The run ends at a space, a slash, a second
/// opening parenthesis, a closing parenthesis that closes nothing, or the
/// end of the text.
pub open spec fn text_run(s: Seq<char>, i: int, seen: Paren) -> (int, Paren)
    decreases s.len() - i,
{
    if i >= s.len() {
        (s.len() as int, seen)
    } else if s[i] == ' ' || s[i] == '/' {
        (i, seen)
    } else if s[i] == '(' {
        if seen is Absent {
            text_run(s, i + 1, Paren::Open(i))
        } else {
            (i, seen)
        }
    } else if s[i] == ')' {
        match seen {
            Paren::Open(a) => text_run(s, i + 1, Paren::Closed(a, i)),
            _ => (i, seen),
        }
    } else {
        text_run(s, i + 1, seen)
    }
}

/// A character of which words are made.
pub open spec fn is_word_char(c: char) -> bool {
    alphanumeric(c) || c == '-'
}

/// Some character of `s[from..to]` is no word character.
pub open spec fn has_non_word(s: Seq<char>, from: int, to: int) -> bool {
    exists|k: int| from <= k < to && !is_word_char(#[trigger] s[k])
}

/// No character of `s[from..to]` is a word character.
pub open spec fn only_non_word(s: Seq<char>, from: int, to: int) -> bool {
    forall|k: int| from <= k < to ==> !is_word_char(#[trigger] s[k])
}

/// The text before the parenthesis at `a`, or nothing where the
/// parenthesis stands at the beginning.
pub open spec fn before_paren(at: int, a: int) -> Option<Cut> {
    if a == at {
        None
    } else {
        Some(Cut { end: a, next: a, space: SpaceBehavior::Forbidden })
    }
}

/// The free text that begins at `at`, or `Ok(None)` where a parenthesis
/// at `at` is a token of its own.
///
/// The text goes up to the end of its run. Behind a closing parenthesis
/// that closes nothing a space has to follow the parenthesis. A run that
/// holds a parenthetical is one text only if the parenthetical holds a
/// word character and all that stands around it in the run are word
/// characters; then a space may follow only where the run ends with the
/// parenthesis. Otherwise, and where a parenthesis is not closed within
/// the run, the text ends before the parenthesis, after which no space
/// may come. A parenthetical at the beginning that is the whole run is
/// left to the tokens; one without a word character in front of word
/// characters is an error.
pub open spec fn text_spec(s: Seq<char>, at: int) -> Result<Option<Cut>, Error> {
    let (j, seen) = text_run(s, at, Paren::Absent);
    if j < s.len() && s[j] == '(' {
        match seen {
            Paren::Open(a) => Ok(before_paren(at, a)),
            Paren::Closed(a, _) => Ok(before_paren(at, a)),
            Paren::Absent => Ok(None),
        }
    } else if j < s.len() && s[j] == ')' {
        Ok(Some(Cut { end: j, next: j, space: SpaceBehavior::Required }))
    } else {
        let next = if j < s.len() && s[j] == ' ' {
            j + 1
        } else {
            j
        };
        match seen {
            Paren::Absent => Ok(Some(Cut { end: j, next, space: SpaceBehavior::Maybe })),
            Paren::Open(a) => Ok(before_paren(at, a)),
            Paren::Closed(a, b) => {
                let starts = a == at;
                let ends = b == j - 1;
                let outside = has_non_word(s, at, a) || has_non_word(s, b + 1, j);
                if starts && ends {
                    Ok(None)
                } else if only_non_word(s, a + 1, b) || outside {
                    if starts && !outside {
                        Err(Error::Unexpected(byte_offset(s, a + 1)))
                    } else {
                        Ok(before_paren(at, a))
                    }
                } else {
                    Ok(
                        Some(
                            Cut {
                                end: j,
                                next,
                                space: if ends {
                                    SpaceBehavior::Maybe
                                } else {
                                    SpaceBehavior::Forbidden
                                },
                            },
                        ),
                    )
                }
            },
        }
    }
}

/// The literal span whose inside begins at `at`.
pub open spec fn literal_spec(s: Seq<char>, at: int, marker: LiteralMarker) -> Result<Cut, Error> {
    let end = matching_close(s, at, marker.opener(), marker.closer(), 1);
    if end < s.len() {
        Ok(Cut { end, next: end + 1, space: SpaceBehavior::Maybe })
    } else {
        Err(Error::IncompleteLiteral { marker, at: byte_offset(s, at) })
    }
}

/// The quotes that may close a span that `open` opens, the one that is
/// looked for first and, where there are two, the other.
pub open spec fn quote_ends(open: char) -> Option<(char, Option<char>)> {
    if open == '\u{201c}' {
        Some(('\u{201d}', None))
    } else if open == '\u{201d}' {
        Some(('\u{201d}', None))
    } else if open == '\u{201e}' {
        Some(('\u{201d}', Some('\u{201c}')))
    } else if open == '\'' {
        Some(('\'', None))
    } else {
        None
    }
}

/// The quoted span whose inside begins at `at` behind the quote `open`, if
/// one of the quotes that close it follows.
pub open spec fn quoted_spec(s: Seq<char>, at: int, open: char) -> Option<Cut> {
    match quote_ends(open) {
        None => None,
        Some((first, second)) => {
            let e = first_stop(s, at, Stop::Only(first));
            if e < s.len() {
                Some(Cut { end: e, next: e + 1, space: SpaceBehavior::Maybe })
            } else {
                match second {
                    None => None,
                    Some(other) => {
                        let e = first_stop(s, at, Stop::Only(other));
                        if e < s.len() {
                            Some(Cut { end: e, next: e + 1, space: SpaceBehavior::Maybe })
                        } else {
                            None
                        }
                    },
                }
            }
        },
    }
}

/// What a scan returns for a piece: the piece, the position at which the
/// scan goes on, and the space policy from there.
pub open spec fn is_cut(s: Seq<char>, at: int, out: (&str, usize, SpaceBehavior), cut: Cut) -> bool {
    &&& out.0@ == s.subrange(at, cut.end)
    &&& out.1 == cut.next
    &&& out.2 == cut.space
}

/// The executable twin of [`Paren`].
#[derive(Clone, Copy)]
enum Seen {
    Absent,
    Open(usize),
    Closed(usize, usize),
}

impl View for Seen {
    type V = Paren;

    closed spec fn view(&self) -> Paren {
        match *self {
            Seen::Absent => Paren::Absent,
            Seen::Open(a) => Paren::Open(a as int),
            Seen::Closed(a, b) => Paren::Closed(a as int, b as int),
        }
    }
}

/// Whether some character of `v[from..to]` is no word character.
fn any_non_word(v: &Vec<char>, from: usize, to: usize) -> (r: bool)
    requires
        from <= to <= v.len(),
    ensures
        r == has_non_word(v@, from as int, to as int),
{
    let mut k: usize = from;
    while k < to
        invariant
            from <= k <= to <= v.len(),
            forall|m: int| from <= m < k ==> is_word_char(#[trigger] v@[m]),
        decreases to - k,
    {
        let c = v[k];
        if !(is_alphanumeric(c) || c == '-') {
            return true;
        }
        k += 1;
    }
    false
}

/// Whether no character of `v[from..to]` is a word character.
fn all_non_word(v: &Vec<char>, from: usize, to: usize) -> (r: bool)
    requires
        from <= to <= v.len(),
    ensures
        r == only_non_word(v@, from as int, to as int),
{
    let mut k: usize = from;
    while k < to
        invariant
            from <= k <= to <= v.len(),
            forall|m: int| from <= m < k ==> !is_word_char(#[trigger] v@[m]),
        decreases to - k,
    {
        let c = v[k];
        if is_alphanumeric(c) || c == '-' {
            return false;
        }
        k += 1;
    }
    true
}

/// Reads the literal span whose inside begins at `at`.
pub fn try_consume_literal<'a>(src: &Source<'a>, at: usize, marker: LiteralMarker) -> (r: Result<
    (&'a str, usize, SpaceBehavior),
    Error,
>)
    requires
        at <= src@.len(),
    ensures
        match (r, literal_spec(src@, at as int, marker)) {
            (Ok(out), Ok(cut)) => is_cut(src@, at as int, out, cut) && at < out.1 <= src@.len(),
            (Err(e), Err(f)) => e == f,
            _ => false,
        },
{
    let v = src.chars();
    let end = find_close(v, at, marker.seq_start(), marker.seq_end());
    if end < v.len() {
        Ok((src.piece(at, end), end + 1, SpaceBehavior::Maybe))
    } else {
        Err(Error::IncompleteLiteral { marker, at: src.offset(at) })
    }
}

/// The text before the parenthesis at `a`.
fn cut_before<'a>(src: &Source<'a>, at: usize, a: usize) -> (r: Option<
    (&'a str, usize, SpaceBehavior),
>)
    requires
        at <= a <= src@.len(),
    ensures
        match (r, before_paren(at as int, a as int)) {
            (Some(out), Some(cut)) => is_cut(src@, at as int, out, cut) && at < out.1,
            (None, None) => true,
            _ => false,
        },
{
    if a == at {
        None
    } else {
        Some((src.piece(at, a), a, SpaceBehavior::Forbidden))
    }
}

/// Reads the free text that begins at `at`; `Ok(None)` where a
/// parenthesis at `at` opens a group.
pub fn try_consume_text<'a>(src: &Source<'a>, at: usize) -> (r: Result<
    Option<(&'a str, usize, SpaceBehavior)>,
    Error,
>)
    requires
        at < src@.len(),
    ensures
        match (r, text_spec(src@, at as int)) {
            (Ok(Some(out)), Ok(Some(cut))) => is_cut(src@, at as int, out, cut),
            (Ok(None), Ok(None)) => true,
            (Err(e), Err(f)) => e == f,
            _ => false,
        },
        r matches Ok(Some(out)) ==> at <= out.1 <= src@.len() && (src@[at as int] != ' '
            && src@[at as int] != '/' && src@[at as int] != ')' ==> at < out.1),
{
    let v = src.chars();
    let len = v.len();
    let mut j: usize = at;
    let mut seen = Seen::Absent;
    loop
        invariant_except_break
            at <= j <= len,
        invariant
            len == v.len(),
            v@ == src@,
            at < len,
            text_run(v@, at as int, Paren::Absent) == text_run(v@, j as int, seen@),
            match seen {
                Seen::Absent => true,
                Seen::Open(a) => at <= a < j,
                Seen::Closed(a, b) => at <= a < b < j,
            },
            j > at || (seen is Absent),
            forall|k: int| at <= k < j ==> v@[k] != ' ' && v@[k] != '/',
        ensures
            at <= j <= len,
            text_run(v@, at as int, Paren::Absent) == (j as int, seen@),
            j == at ==> (v@[at as int] == ' ' || v@[at as int] == '/' || v@[at as int] == ')'),
        decreases len - j,
    {
        if j >= len {
            break ;
        }
        let c = v[j];
        if c == ' ' || c == '/' {
            break ;
        } else if c == '(' {
            match seen {
                Seen::Absent => {
                    seen = Seen::Open(j);
                },
                _ => {
                    break ;
                },
            }
        } else if c == ')' {
            match seen {
                Seen::Open(a) => {
                    seen = Seen::Closed(a, j);
                },
                _ => {
                    break ;
                },
            }
        }
        j += 1;
    }
    if j < len && v[j] == '(' {
        return match seen {
            Seen::Open(a) => Ok(cut_before(src, at, a)),
            Seen::Closed(a, _) => Ok(cut_before(src, at, a)),
            Seen::Absent => Ok(None),
        };
    }
    if j < len && v[j] == ')' {
        return Ok(Some((src.piece(at, j), j, SpaceBehavior::Required)));
    }
    let next = if j < len && v[j] == ' ' {
        j + 1
    } else {
        j
    };
    match seen {
        Seen::Absent => Ok(Some((src.piece(at, j), next, SpaceBehavior::Maybe))),
        Seen::Open(a) => Ok(cut_before(src, at, a)),
        Seen::Closed(a, b) => {
            let starts = a == at;
            let ends = b == j - 1;
            if starts && ends {
                return Ok(None);
            }
            let outside = any_non_word(v, at, a) || any_non_word(v, b + 1, j);
            if all_non_word(v, a + 1, b) || outside {
                if starts && !outside {
                    Err(Error::Unexpected(src.offset(a + 1)))
                } else {
                    Ok(cut_before(src, at, a))
                }
            } else {
                Ok(
                    Some(
                        (
                            src.piece(at, j),
                            next,
                            if ends {
                                SpaceBehavior::Maybe
                            } else {
                                SpaceBehavior::Forbidden
                            },
                        ),
                    ),
                )
            }
        },
    }
}

/// The quotes that may close a span that `open` opens.
fn closing_quotes(open: char) -> (r: Option<(char, Option<char>)>)
    ensures
        r == quote_ends(open),
{
    if open == '\u{201c}' {
        Some(('\u{201d}', None))
    } else if open == '\u{201d}' {
        Some(('\u{201d}', None))
    } else if open == '\u{201e}' {
        Some(('\u{201d}', Some('\u{201c}')))
    } else if open == '\'' {
        Some(('\'', None))
    } else {
        None
    }
}

/// Reads the quoted span whose inside begins at `at` behind the quote
/// `start_quote`.
pub fn consume_quoted<'a>(src: &Source<'a>, at: usize, start_quote: char) -> (r: Option<
    (&'a str, usize, SpaceBehavior),
>)
    requires
        at <= src@.len(),
    ensures
        match (r, quoted_spec(src@, at as int, start_quote)) {
            (Some(out), Some(cut)) => is_cut(src@, at as int, out, cut) && at < out.1
                <= src@.len(),
            (None, None) => true,
            _ => false,
        },
{
    let v = src.chars();
    match closing_quotes(start_quote) {
        None => None,
        Some((first, second)) => {
            let e = find_stop(v, at, Stop::Only(first));
            if e < v.len() {
                return Some((src.piece(at, e), e + 1, SpaceBehavior::Maybe));
            }
            match second {
                None => None,
                Some(other) => {
                    let e = find_stop(v, at, Stop::Only(other));
                    if e < v.len() {
                        Some((src.piece(at, e), e + 1, SpaceBehavior::Maybe))
                    } else {
                        None
                    }
                },
            }
        },
    }
}

/// What one call for the next token yields: the token or the error, the
/// position from which the scan goes on, and the space policy from there.
pub type Yield = (Result<TokenView, Error>, int, SpaceBehavior);

/// A piece of free text as a token, or what stands in its place.
pub open spec fn text_yield(
    s: Seq<char>,
    at: int,
    policy: SpaceBehavior,
    otherwise: Yield,
) -> Yield {
    match text_spec(s, at) {
        Ok(Some(cut)) => (Ok(TokenView::Text(s.subrange(at, cut.end))), cut.next, cut.space),
        Ok(None) => otherwise,
        Err(e) => (Err(e), at, policy),
    }
}

/// The next token of `s` from `at` on under the space policy `policy`,
/// or `None` at the end of the text. Spaces that the policy allows are
/// passed over first; after an error the position and the policy are
/// those behind these spaces.
pub open spec fn next_spec(s: Seq<char>, at: int, policy: SpaceBehavior) -> Option<Yield>
    decreases s.len() - at,
{
    if at >= s.len() || at < 0 {
        None
    } else {
        let c = s[at];
        let unexpected: Yield = (Err(Error::Unexpected(byte_offset(s, at))), at, policy);
        if c == '(' {
            Some(
                text_yield(
                    s,
                    at,
                    policy,
                    (Ok(TokenView::Parens { is_start: true }), at + 1, SpaceBehavior::Maybe),
                ),
            )
        } else if c == ')' {
            Some((Ok(TokenView::Parens { is_start: false }), at + 1, SpaceBehavior::Maybe))
        } else if c == '/' {
            Some((Ok(TokenView::Slash), at + 1, SpaceBehavior::Maybe))
        } else if c == ' ' {
            if policy is Forbidden {
                Some(unexpected)
            } else {
                next_spec(s, at + 1, SpaceBehavior::Maybe)
            }
        } else if let Some(marker) = LiteralMarker::of_opener(c) {
            match literal_spec(s, at + 1, marker) {
                Ok(cut) => Some(
                    (
                        Ok(TokenView::Literal { value: s.subrange(at + 1, cut.end), marker }),
                        cut.next,
                        cut.space,
                    ),
                ),
                Err(e) => match text_spec(s, at) {
                    Ok(Some(cut)) => Some(
                        (Ok(TokenView::Text(s.subrange(at, cut.end))), cut.next, cut.space),
                    ),
                    _ => Some((Err(e), at, policy)),
                },
            }
        } else if policy is Required {
            Some(unexpected)
        } else {
            match quoted_spec(s, at + 1, c) {
                Some(cut) => Some(
                    (Ok(TokenView::Quoted(s.subrange(at + 1, cut.end))), cut.next, cut.space),
                ),
                None => Some(text_yield(s, at, policy, unexpected)),
            }
        }
    }
}

/// All the tokens of `s` from `at` on, or the first error.
pub open spec fn rest_spec(s: Seq<char>, at: int, policy: SpaceBehavior) -> Result<
    Seq<TokenView>,
    Error,
>
    decreases s.len() - at,
{
    match next_spec(s, at, policy) {
        None => Ok(Seq::empty()),
        Some((Err(e), _, _)) => Err(e),
        Some((Ok(t), next, space)) => if at < next <= s.len() {
            match rest_spec(s, next, space) {
                Ok(more) => Ok(seq![t] + more),
                Err(e) => Err(e),
            }
        } else {
            Ok(seq![t])
        },
    }
}

/// The contents of a sequence of tokens.
pub open spec fn tokens_view(v: Seq<Token<'_>>) -> Seq<TokenView> {
    Seq::new(v.len(), |i: int| v[i]@)
}

/// The content of what a call for the next token returns.
pub open spec fn yield_view(r: Result<Token<'_>, Error>) -> Result<TokenView, Error> {
    match r {
        Ok(t) => Ok(t@),
        Err(e) => Err(e),
    }
}

/// The tokens of a text, one call at a time.
#[derive(Debug)]
pub struct Tokens<'a> {
    src: Source<'a>,
    at: usize,
    space_behavior: SpaceBehavior,
}

impl<'a> Clone for Tokens<'a> {
    fn clone(&self) -> (out: Self)
        ensures
            out.text() == self.text(),
            out.position() == self.position(),
            out.policy() == self.policy(),
    {
        proof {
            use_type_invariant(self);
        }
        Tokens { src: self.src.clone(), at: self.at, space_behavior: self.space_behavior }
    }
}

/// The tokens of `input`.
pub fn lex(input: &str) -> (t: Tokens<'_>)
    ensures
        t.text() == input@,
        t.position() == 0,
        t.policy() == SpaceBehavior::Forbidden,
{
    Tokens { src: Source::new(input), at: 0, space_behavior: SpaceBehavior::Forbidden }
}

impl<'a> Tokens<'a> {
    #[verifier::type_invariant]
    spec fn inv(self) -> bool {
        self.at <= self.src@.len()
    }

    /// The text that is scanned.
    pub closed spec fn text(&self) -> Seq<char> {
        self.src@
    }

    /// The position in characters from which the scan goes on.
    pub closed spec fn position(&self) -> int {
        self.at as int
    }

    /// The space policy at that position.
    pub closed spec fn policy(&self) -> SpaceBehavior {
        self.space_behavior
    }

    /// The text that is still to be scanned.
    pub fn as_str(&self) -> (r: &'a str)
        ensures
            0 <= self.position() <= self.text().len(),
            r@ == self.text().subrange(self.position(), self.text().len() as int),
    {
        proof {
            use_type_invariant(self);
        }
        self.src.piece(self.at, self.src.len())
    }

    /// The next token, an error, or `None` at the end of the text. After
    /// an error the scan stays at the character that caused it.
    pub fn next(&mut self) -> (r: Option<Result<Token<'a>, Error>>)
        ensures
            final(self).text() == old(self).text(),
            match (r, next_spec(old(self).text(), old(self).position(), old(self).policy())) {
                (Some(res), Some(y)) => yield_view(res) == y.0 && final(self).position() == y.1
                    && final(self).policy() == y.2,
                (None, None) => final(self).position() == final(self).text().len(),
                _ => false,
            },
            r matches Some(Ok(_)) ==> old(self).position() < final(self).position(),
    {
        proof {
            use_type_invariant(&*self);
        }
        let len = self.src.len();
        let mut at = self.at;
        let mut policy = self.space_behavior;
        let ghost s = self.src@;
        let ghost first = (self.at as int, self.space_behavior);
        // Pass over the spaces that the policy allows.
        while at < len && self.src.chars()[at] == ' ' && policy != SpaceBehavior::Forbidden
            invariant
                at <= len,
                len == s.len(),
                s == self.src@,
                first.0 <= at,
                first == (self.at as int, self.space_behavior),
                next_spec(s, first.0, first.1) == next_spec(s, at as int, policy),
                at > first.0 ==> policy == SpaceBehavior::Maybe,
            decreases len - at,
        {
            at += 1;
            policy = SpaceBehavior::Maybe;
        }
        if at >= len {
            self.at = at;
            self.space_behavior = policy;
            return None;
        }
        let c = self.src.chars()[at];
        let (res, at2, policy2) = Self::token_at(&self.src, at, policy, c);
        self.at = at2;
        self.space_behavior = policy2;
        Some(res)
    }

    /// All the tokens that are left, or the first error.
    pub fn collect(&mut self) -> (r: Result<Vec<Token<'a>>, Error>)
        ensures
            final(self).text() == old(self).text(),
            match (r, rest_spec(old(self).text(), old(self).position(), old(self).policy())) {
                (Ok(v), Ok(ts)) => tokens_view(v@) == ts,
                (Err(e), Err(f)) => e == f,
                _ => false,
            },
    {
        proof {
            use_type_invariant(&*self);
        }
        let mut out: Vec<Token<'a>> = Vec::new();
        let ghost s = self.text();
        let ghost all = rest_spec(s, self.position(), self.policy());
        assert(tokens_view(out@) =~= Seq::<TokenView>::empty());
        loop
            invariant
                s == self.text(),
                s == old(self).text(),
                all == rest_spec(s, old(self).position(), old(self).policy()),
                self.position() <= s.len(),
                all == (match rest_spec(s, self.position(), self.policy()) {
                    Ok(more) => Ok(tokens_view(out@) + more),
                    Err(e) => Err(e),
                }),
            decreases s.len() - self.position(),
        {
            let ghost before = tokens_view(out@);
            match self.next() {
                None => {
                    assert(before + Seq::<TokenView>::empty() =~= before);
                    return Ok(out);
                },
                Some(Err(e)) => {
                    return Err(e);
                },
                Some(Ok(t)) => {
                    proof {
                        use_type_invariant(&*self);
                    }
                    out.push(t);
                    proof {
                        assert(tokens_view(out@) =~= before.push(t@));
                        match rest_spec(s, self.position(), self.policy()) {
                            Ok(more) => {
                                assert(before + (seq![t@] + more) =~= tokens_view(out@) + more);
                            },
                            Err(e) => {},
                        }
                    }
                },
            }
        }
    }

    /// The token that begins with the character `c` at `at`.
    fn token_at(src: &Source<'a>, at: usize, policy: SpaceBehavior, c: char) -> (r: (
        Result<Token<'a>, Error>,
        usize,
        SpaceBehavior,
    ))
        requires
            at < src@.len(),
            c == src@[at as int],
            c != ' ' || policy == SpaceBehavior::Forbidden,
        ensures
            next_spec(src@, at as int, policy) == Some((yield_view(r.0), r.1 as int, r.2)),
            r.0 is Ok ==> at < r.1 <= src@.len(),
            r.0 is Err ==> r.1 == at && r.2 == policy,
    {
        let len = src.len();
        if c == '(' {
            return match try_consume_text(src, at) {
                Ok(Some((word, next, space))) => (Ok(Token::Text(word)), next, space),
                Ok(None) => (Ok(Token::Parens { is_start: true }), at + 1, SpaceBehavior::Maybe),
                Err(e) => (Err(e), at, policy),
            };
        }
        if c == ')' {
            return (Ok(Token::Parens { is_start: false }), at + 1, SpaceBehavior::Maybe);
        }
        if c == '/' {
            return (Ok(Token::Slash), at + 1, SpaceBehavior::Maybe);
        }
        if c == ' ' {
            return (Err(Error::Unexpected(src.offset(at))), at, policy);
        }
        match LiteralMarker::from_start_seq(c) {
            Some(marker) => {
                return match try_consume_literal(src, at + 1, marker) {
                    Ok((value, next, space)) => (Ok(Token::Literal { value, marker }), next, space),
                    Err(e) => match try_consume_text(src, at) {
                        Ok(Some((word, next, space))) => (Ok(Token::Text(word)), next, space),
                        _ => (Err(e), at, policy),
                    },
                };
            },
            None => {},
        }
        if policy == SpaceBehavior::Required {
            return (Err(Error::Unexpected(src.offset(at))), at, policy);
        }
        match consume_quoted(src, at + 1, c) {
            Some((quoted, next, space)) => {
                return (Ok(Token::Quoted(quoted)), next, space);
            },
            None => {},
        }
        match try_consume_text(src, at) {
            Ok(Some((word, next, space))) => (Ok(Token::Text(word)), next, space),
            Ok(None) => (Err(Error::Unexpected(src.offset(at))), at, policy),
            Err(e) => (Err(e), at, policy),
        }
    }
}

} // verus!
