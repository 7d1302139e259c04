//! The arguments of a lookup, read into a query.

use vstd::prelude::*;
use vstd::string::StringExecFns;
use crate::text::{chars_of, lemma_word1, lemma_word2, Source};
use crate::unicode::{
    is_whitespace, lowered, to_lowercase, uppercase, uppercase_of, whitespace,
};

verus! {

/// The language in which a word is looked up.
#[derive(Debug, Clone, Copy, PartialEq, Eq, Hash, Structural)]
pub enum Language {
    German,
    English,
}

/// What is asked of the dictionary.
#[derive(Debug)]
pub enum Query {
    /// The gender of a noun.
    Gender(String),
    /// The meaning of the words in `components`, looked up in `language`.
    Meaning { language: Language, components: Vec<String>, verbose: bool },
    /// A session in which words are asked one after another.
    Interactive { language: Language },
}

/// Why arguments are no query.
#[derive(Debug)]
pub enum QueryError {
    /// There are no arguments.
    Empty,
    /// The word whose gender is asked is empty.
    EmptyWord,
    /// The first of several arguments is none of `g`, `d`, `dv`, `e`, `ev`
    /// and `i`.
    InvalidSpecifier(String),
}

/// The content of a query.
pub enum QueryView {
    Gender(Seq<char>),
    Meaning { language: Language, components: Seq<Seq<char>>, verbose: bool },
    Interactive { language: Language },
}

/// The content of a query error.
pub enum QueryErrorView {
    Empty,
    EmptyWord,
    InvalidSpecifier(Seq<char>),
}

/// The texts of a sequence of strings.
pub open spec fn texts(v: Seq<String>) -> Seq<Seq<char>> {
    Seq::new(v.len(), |i: int| v[i]@)
}

impl View for Query {
    type V = QueryView;

    open spec fn view(&self) -> QueryView {
        match *self {
            Query::Gender(w) => QueryView::Gender(w@),
            Query::Meaning { language, components, verbose } => QueryView::Meaning {
                language,
                components: texts(components@),
                verbose,
            },
            Query::Interactive { language } => QueryView::Interactive { language },
        }
    }
}

impl View for QueryError {
    type V = QueryErrorView;

    open spec fn view(&self) -> QueryErrorView {
        match *self {
            QueryError::Empty => QueryErrorView::Empty,
            QueryError::EmptyWord => QueryErrorView::EmptyWord,
            QueryError::InvalidSpecifier(s) => QueryErrorView::InvalidSpecifier(s@),
        }
    }
}

impl Clone for Query {
    fn clone(&self) -> (out: Self)
        ensures
            out@ == self@,
    {
        match self {
            Query::Gender(w) => Query::Gender(w.clone()),
            Query::Meaning { language, components, verbose } => {
                let mut copy: Vec<String> = Vec::new();
                let mut i: usize = 0;
                while i < components.len()
                    invariant
                        i <= components.len(),
                        copy@.len() == i,
                        forall|j: int| 0 <= j < i ==> copy@[j]@ == components@[j]@,
                    decreases components.len() - i,
                {
                    copy.push(components[i].clone());
                    i += 1;
                }
                assert(texts(copy@) =~= texts(components@));
                Query::Meaning { language: *language, components: copy, verbose: *verbose }
            },
            Query::Interactive { language } => Query::Interactive { language: *language },
        }
    }
}

/// The words of `s[i..]`, where `word` holds the characters of a word
/// that began before `i`: the longest runs of characters that are no
/// whitespace.
pub open spec fn words_from(s: Seq<char>, i: int, word: Seq<char>) -> Seq<Seq<char>>
    decreases s.len() - i,
{
    let done = if word.len() > 0 {
        seq![word]
    } else {
        Seq::empty()
    };
    if i >= s.len() {
        done
    } else if whitespace(s[i]) {
        done + words_from(s, i + 1, Seq::empty())
    } else {
        words_from(s, i + 1, word.push(s[i]))
    }
}

/// The words of `s`.
pub open spec fn words(s: Seq<char>) -> Seq<Seq<char>> {
    words_from(s, 0, Seq::empty())
}

/// The words of the arguments from the second up to the `n`th, in order.
pub open spec fn words_of_args(args: Seq<Seq<char>>, n: nat) -> Seq<Seq<char>>
    decreases n,
{
    if n <= 1 || n > args.len() {
        Seq::empty()
    } else {
        words_of_args(args, (n - 1) as nat) + words(args[n - 1])
    }
}

/// `s` with its first character in upper case, or `None` for the empty
/// text.
pub open spec fn capitalized(s: Seq<char>) -> Option<Seq<char>> {
    if s.len() == 0 {
        None
    } else {
        Some(uppercase_of(s[0]) + s.subrange(1, s.len() as int))
    }
}

/// The language and the verbosity that a specifier asks for.
pub open spec fn meaning_of(low: Seq<char>) -> Option<(Language, bool)> {
    if low == seq!['d'] {
        Some((Language::German, false))
    } else if low == seq!['d', 'v'] {
        Some((Language::German, true))
    } else if low == seq!['e'] {
        Some((Language::English, false))
    } else if low == seq!['e', 'v'] {
        Some((Language::English, true))
    } else {
        None
    }
}

/// The query that arguments stand for. A single argument other than `i`
/// asks for the meaning of its words in German. Otherwise the first
/// argument, without regard to case, says what is asked of the others.
pub open spec fn query_spec(args: Seq<Seq<char>>) -> Result<QueryView, QueryErrorView> {
    if args.len() == 0 {
        Err(QueryErrorView::Empty)
    } else {
        let low = lowered(args[0]);
        if args.len() == 1 && low != seq!['i'] {
            Ok(
                QueryView::Meaning {
                    language: Language::German,
                    components: words(args[0]),
                    verbose: false,
                },
            )
        } else if low == seq!['g'] {
            match capitalized(args[1]) {
                Some(word) => Ok(QueryView::Gender(word)),
                None => Err(QueryErrorView::EmptyWord),
            }
        } else if low == seq!['i'] {
            Ok(QueryView::Interactive { language: Language::German })
        } else {
            match meaning_of(low) {
                Some((language, verbose)) => Ok(
                    QueryView::Meaning {
                        language,
                        components: words_of_args(args, args.len()),
                        verbose,
                    },
                ),
                None => Err(QueryErrorView::InvalidSpecifier(args[0])),
            }
        }
    }
}

/// The content of what reading a query returns.
pub open spec fn read_view(r: Result<Query, QueryError>) -> Result<QueryView, QueryErrorView> {
    match r {
        Ok(q) => Ok(q@),
        Err(e) => Err(e@),
    }
}

/// Appends the words of `s` to `out`.
pub fn push_words(s: &str, out: &mut Vec<String>)
    ensures
        texts(final(out)@) == texts(old(out)@) + words(s@),
{
    let src = Source::new(s);
    let v = src.chars();
    let ghost before = texts(out@);
    let ghost all = words(s@);
    let mut start: usize = 0;
    let mut i: usize = 0;
    assert(v@.subrange(0, 0) =~= Seq::<char>::empty());
    assert(before + Seq::<Seq<char>>::empty() =~= before);
    while i < v.len()
        invariant
            start <= i <= v.len(),
            v@ == src@,
            src@ == s@,
            all == words(s@),
            texts(out@) + words_from(v@, i as int, v@.subrange(start as int, i as int)) == before
                + all,
        decreases v.len() - i,
    {
        let ghost word = v@.subrange(start as int, i as int);
        let ghost shown = texts(out@);
        if is_whitespace(v[i]) {
            if start < i {
                out.push(src.word(start, i));
                assert(texts(out@) =~= shown.push(word));
                assert(shown + (seq![word] + words_from(v@, i + 1, Seq::empty())) =~= shown.push(
                    word,
                ) + words_from(v@, i + 1, Seq::empty()));
            } else {
                assert(Seq::<Seq<char>>::empty() + words_from(v@, i + 1, Seq::empty())
                    =~= words_from(v@, i + 1, Seq::empty()));
            }
            start = i + 1;
            assert(v@.subrange(start as int, i + 1) =~= Seq::<char>::empty());
        } else {
            assert(v@.subrange(start as int, i + 1) =~= word.push(v@[i as int]));
        }
        i += 1;
    }
    let ghost shown = texts(out@);
    let ghost word = v@.subrange(start as int, i as int);
    if start < i {
        out.push(src.word(start, i));
        assert(texts(out@) =~= shown.push(word));
        assert(shown + seq![word] =~= shown.push(word));
    } else {
        assert(shown + Seq::<Seq<char>>::empty() =~= shown);
    }
}

/// `s` with its first character in upper case.
pub fn to_upper(s: &str) -> (r: Option<String>)
    ensures
        match (r, capitalized(s@)) {
            (Some(t), Some(u)) => t@ == u,
            (None, None) => true,
            _ => false,
        },
{
    let src = Source::new(s);
    if src.len() == 0 {
        return None;
    }
    let mut out = uppercase(src.chars()[0]);
    out.append(src.piece(1, src.len()));
    Some(out)
}

impl Query {
    /// Reads the arguments of a lookup.
    pub fn try_from(value: Vec<String>) -> (r: Result<Query, QueryError>)
        ensures
            read_view(r) == query_spec(texts(value@)),
    {
        let ghost args = texts(value@);
        if value.len() == 0 {
            return Err(QueryError::Empty);
        }
        let specifier = &value[0];
        assert(args[0] == specifier@);
        let low = to_lowercase(specifier.as_str());
        let l = chars_of(low.as_str());
        proof {
            lemma_word1(l@, 'i');
            lemma_word1(l@, 'g');
            lemma_word1(l@, 'd');
            lemma_word1(l@, 'e');
            lemma_word2(l@, 'd', 'v');
            lemma_word2(l@, 'e', 'v');
        }
        let is_i = l.len() == 1 && l[0] == 'i';
        if value.len() == 1 && !is_i {
            let mut components: Vec<String> = Vec::new();
            assert(texts(components@) =~= Seq::<Seq<char>>::empty());
            push_words(specifier.as_str(), &mut components);
            assert(Seq::<Seq<char>>::empty() + words(args[0]) =~= words(args[0]));
            return Ok(Query::Meaning { language: Language::German, components, verbose: false });
        }
        if l.len() == 1 && l[0] == 'g' {
            assert(args[1] == value@[1]@);
            return match to_upper(value[1].as_str()) {
                Some(word) => Ok(Query::Gender(word)),
                None => Err(QueryError::EmptyWord),
            };
        }
        if is_i {
            return Ok(Query::Interactive { language: Language::German });
        }
        let second = if l.len() == 2 {
            l[1] == 'v'
        } else {
            false
        };
        let (language, verbose) = if (l.len() == 1 || second) && l[0] == 'd' {
            (Language::German, second)
        } else if (l.len() == 1 || second) && l[0] == 'e' {
            (Language::English, second)
        } else {
            return Err(QueryError::InvalidSpecifier(specifier.clone()));
        };
        let mut components: Vec<String> = Vec::new();
        assert(texts(components@) =~= Seq::<Seq<char>>::empty());
        let mut k: usize = 1;
        while k < value.len()
            invariant
                1 <= k <= value.len(),
                args == texts(value@),
                texts(components@) == words_of_args(args, k as nat),
            decreases value.len() - k,
        {
            assert(args[k as int] == value@[k as int]@);
            push_words(value[k].as_str(), &mut components);
            k += 1;
        }
        Ok(Query::Meaning { language, components, verbose })
    }
}

} // verus!
