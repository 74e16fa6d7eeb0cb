//! Matching catalog entries against the query that the user is typing.
//!
//! A query that holds a pattern character is taken as a regular expression;
//! any other query is looked for as a whole word. A query that does not
//! compile, as happens while the user is still typing, falls back to a
//! case-insensitive search for the query as plain text.

use crate::catalog::{CatalogEntry, CatalogEntryView};
use crate::text::{chars_of, contains, equal, occurs_in};
use regex::Regex;
use vstd::prelude::*;
use vstd::string::*;

verus! {

/// A compiled regular expression of the `regex` crate.
#[verifier::external_type_specification]
#[verifier::external_body]
pub struct ExRegex(Regex);

/// What a compiled regular expression holds: the haystacks in which it
/// finds a match, as `Regex::is_match` tells.
pub uninterp spec fn matches_of(re: Regex) -> Set<Seq<char>>;

/// What `Regex::new` makes of `pattern`: nothing where the pattern does not
/// compile, else the haystacks in which the compiled expression finds a
/// match.
pub uninterp spec fn compiled(pattern: Seq<char>) -> Option<Set<Seq<char>>>;

/// Whether `pattern` compiles.
pub open spec fn pattern_compiles(pattern: Seq<char>) -> bool {
    compiled(pattern) is Some
}

/// Whether `pattern` compiles and finds a match anywhere in `haystack`.
pub open spec fn pattern_matches(pattern: Seq<char>, haystack: Seq<char>) -> bool {
    compiled(pattern) matches Some(found) && found.contains(haystack)
}

/// The lower-case form of a text: the result of `str::to_lowercase`.
pub uninterp spec fn lowercase(text: Seq<char>) -> Seq<char>;

/// A character that has a meaning of its own in a regular expression.
pub open spec fn is_meta(c: char) -> bool {
    c == '\\' || c == '.' || c == '+' || c == '*' || c == '?' || c == '(' || c == ')' || c == '|'
        || c == '[' || c == ']' || c == '{' || c == '}' || c == '^' || c == '$' || c == '#' || c
        == '&' || c == '-' || c == '~'
}

/// `text` with a backslash before each character that has a meaning of its
/// own in a regular expression.
pub open spec fn escaped(text: Seq<char>) -> Seq<char>
    decreases text.len(),
{
    if text.len() == 0 {
        Seq::empty()
    } else if is_meta(text.last()) {
        escaped(text.drop_last()).push('\\').push(text.last())
    } else {
        escaped(text.drop_last()).push(text.last())
    }
}

/// Compiles `pattern` with `regex::Regex::new`, an error turned into `None`.
/// Trusted: whether the call succeeds, and what the expression it returns
/// matches, depend only on `pattern`.
#[verifier::external_body]
fn compile(pattern: &str) -> (r: Option<Regex>)
    ensures
        r is Some <==> compiled(pattern@) is Some,
        r matches Some(re) ==> compiled(pattern@) == Some(matches_of(re)),
{
    Regex::new(pattern).ok()
}

/// Calls `regex::Regex::is_match`. Trusted: the result depends only on the
/// expression and on `haystack`.
#[verifier::external_body]
fn is_match(re: &Regex, haystack: &str) -> (r: bool)
    ensures
        r == matches_of(*re).contains(haystack@),
{
    re.is_match(haystack)
}

/// Calls `regex::escape`. Trusted: the result is `text` with a backslash put
/// before each of the crate's meta characters and nothing else changed.
#[verifier::external_body]
fn escape(text: &str) -> (r: String)
    ensures
        r@ == escaped(text@),
{
    regex::escape(text)
}

/// Calls `str::to_lowercase`. Trusted: the result depends only on `text`.
#[verifier::external_body]
fn to_lowercase(text: &str) -> (r: String)
    ensures
        r@ == lowercase(text@),
{
    text.to_lowercase()
}

/// A character that makes a query a regular expression.
pub open spec fn is_pattern_char(c: char) -> bool {
    c == '^' || c == '$' || c == '.' || c == '*' || c == '+' || c == '?' || c == '(' || c == ')'
        || c == '[' || c == ']' || c == '{' || c == '}' || c == '|'
}

/// Whether `query` holds a character that makes it a regular expression.
pub open spec fn has_pattern_char(query: Seq<char>) -> bool {
    exists|i: int| 0 <= i < query.len() && is_pattern_char(query[i])
}

/// The pattern that stands for `query`: the query itself where it holds a
/// pattern character, else the escaped query between two word boundaries.
pub open spec fn query_pattern(query: Seq<char>) -> Seq<char> {
    if has_pattern_char(query) {
        query
    } else {
        "\\b"@ + escaped(query) + "\\b"@
    }
}

/// The text in which a query is looked for: the golden text of the entry in
/// content-search mode, else its path.
pub open spec fn haystack_of(entry: CatalogEntryView, in_file: bool) -> Seq<char> {
    if in_file {
        entry.preloaded_content
    } else {
        entry.path
    }
}

/// Whether `query` matches `haystack`. The empty query matches everything.
/// A query whose pattern compiles matches where the pattern does. Any other
/// query matches where its lower-case form occurs in the lower-case form of
/// the haystack.
pub open spec fn query_matches(query: Seq<char>, haystack: Seq<char>) -> bool {
    if query.len() == 0 {
        true
    } else if pattern_compiles(query_pattern(query)) {
        pattern_matches(query_pattern(query), haystack)
    } else {
        occurs_in(lowercase(query), lowercase(haystack))
    }
}

/// Whether `matches` is the verdict on `query` and `haystack`, given whether
/// the query's pattern compiles and, if so, whether it matches, and given
/// the lower-case forms of both.
pub open spec fn verdict(
    query: Seq<char>,
    compiled: Option<bool>,
    lower_query: Seq<char>,
    lower_haystack: Seq<char>,
) -> bool {
    if query.len() == 0 {
        true
    } else {
        match compiled {
            Some(pattern_hit) => pattern_hit,
            None => occurs_in(lower_query, lower_haystack),
        }
    }
}

/// Whether `query` holds a character that makes it a regular expression.
pub fn holds_pattern_char(query: &str) -> (r: bool)
    ensures
        r == has_pattern_char(query@),
{
    let chars = chars_of(query);
    let mut i: usize = 0;
    while i < chars.len()
        invariant
            i <= chars.len(),
            chars@ == query@,
            forall|j: int| 0 <= j < i ==> !is_pattern_char(query@[j]),
        decreases chars.len() - i,
    {
        let c = chars[i];
        if c == '^' || c == '$' || c == '.' || c == '*' || c == '+' || c == '?' || c == '(' || c
            == ')' || c == '[' || c == ']' || c == '{' || c == '}' || c == '|' {
            return true;
        }
        i = i + 1;
    }
    false
}

/// The pattern that stands for `query`.
pub fn pattern_for(query: &str) -> (pattern: String)
    ensures
        pattern@ == query_pattern(query@),
{
    if holds_pattern_char(query) {
        String::from_str(query)
    } else {
        let escaped_query = escape(query);
        String::from_str("\\b").concat(escaped_query.as_str()).concat("\\b")
    }
}

/// The verdict on a query once the outside answers are in: `compiled` says
/// whether the query's pattern compiled and, if so, whether it matched;
/// `lower_query` and `lower_haystack` are the lower-case forms that the
/// fallback search compares.
pub fn decide(query: &str, compiled: Option<bool>, lower_query: &str, lower_haystack: &str) -> (r:
    bool)
    ensures
        r == verdict(query@, compiled, lower_query@, lower_haystack@),
{
    if query.is_empty() {
        true
    } else {
        match compiled {
            Some(pattern_hit) => pattern_hit,
            None => contains(lower_haystack, lower_query),
        }
    }
}

/// The compiled pattern of the query last seen, kept so that one query is
/// compiled once however many entries it is matched against.
#[derive(Debug)]
pub struct QueryMemo {
    query: String,
    regex: Option<Regex>,
    compilations: u64,
}

impl QueryMemo {
    #[verifier::type_invariant]
    spec fn consistent(self) -> bool {
        match self.regex {
            Some(re) => self.query@.len() > 0 && compiled(query_pattern(self.query@)) == Some(
                matches_of(re),
            ),
            None => self.query@.len() > 0 ==> compiled(query_pattern(self.query@)) is None,
        }
    }

    /// The query whose pattern is kept.
    pub closed spec fn query(&self) -> Seq<char> {
        self.query@
    }

    /// How often a pattern was compiled; the count stops at `u64::MAX`.
    pub closed spec fn compilations(&self) -> nat {
        self.compilations as nat
    }

    /// A memo that has seen no query.
    pub fn new() -> (memo: QueryMemo)
        ensures
            memo.query() == Seq::<char>::empty(),
            memo.compilations() == 0,
    {
        QueryMemo { query: String::new(), regex: None, compilations: 0 }
    }

    /// The query whose pattern is kept.
    pub fn cached_query(&self) -> (q: &str)
        ensures
            q@ == self.query(),
    {
        self.query.as_str()
    }

    /// How often a pattern was compiled.
    pub fn compile_count(&self) -> (n: u64)
        ensures
            n == self.compilations(),
    {
        self.compilations
    }

    /// Makes `query` the query whose pattern is kept. The pattern is compiled
    /// only if `query` is not the query already kept; the empty query is
    /// never kept.
    pub fn prepare(&mut self, query: &str)
        ensures
            query@ == old(self).query() || query@.len() == 0 ==> *final(self) == *old(self),
            query@ != old(self).query() && query@.len() > 0 ==> final(self).query() == query@
                && final(self).compilations() == if old(self).compilations() < u64::MAX {
                old(self).compilations() + 1
            } else {
                old(self).compilations()
            },
    {
        if query.is_empty() || equal(self.query.as_str(), query) {
            return ;
        }
        let pattern = pattern_for(query);
        let regex = compile(pattern.as_str());
        let compilations = if self.compilations < u64::MAX {
            self.compilations + 1
        } else {
            self.compilations
        };
        *self = QueryMemo { query: String::from_str(query), regex, compilations };
    }

    /// Whether the kept pattern matches `haystack`: `None` where the kept
    /// query did not compile, or where no query is kept.
    pub fn pattern_hit(&self, haystack: &str) -> (r: Option<bool>)
        ensures
            r == if self.query().len() > 0 && pattern_compiles(query_pattern(self.query())) {
                Some(pattern_matches(query_pattern(self.query()), haystack@))
            } else {
                None
            },
    {
        proof {
            use_type_invariant(self);
        }
        match &self.regex {
            Some(re) => Some(is_match(re, haystack)),
            None => None,
        }
    }
}

/// Scores `entry` against `query`: `Some(0)` where the query matches the
/// entry's path, or its golden text in content-search mode, else `None`.
/// Every match scores alike. The pattern is compiled only when `query` is
/// not the query that `memo` has kept from the call before.
pub fn score(memo: &mut QueryMemo, query: &str, entry: &CatalogEntry, in_file: bool) -> (r: Option<
    i64,
>)
    ensures
        r == if query_matches(query@, haystack_of(entry@, in_file)) {
            Some(0i64)
        } else {
            None
        },
        query@ == old(memo).query() || query@.len() == 0 ==> *final(memo) == *old(memo),
        query@ != old(memo).query() && query@.len() > 0 ==> final(memo).query() == query@
            && final(memo).compilations() == if old(memo).compilations() < u64::MAX {
            old(memo).compilations() + 1
        } else {
            old(memo).compilations()
        },
{
    if query.is_empty() {
        return Some(0);
    }
    memo.prepare(query);
    let haystack = if in_file {
        entry.preloaded_content.as_str()
    } else {
        entry.path.as_str()
    };
    let compiled = memo.pattern_hit(haystack);
    let hit = match compiled {
        Some(_) => decide(query, compiled, "", ""),
        None => {
            let lower_query = to_lowercase(query);
            let lower_haystack = to_lowercase(haystack);
            decide(query, compiled, lower_query.as_str(), lower_haystack.as_str())
        },
    };
    if hit {
        Some(0)
    } else {
        None
    }
}

/// The empty query matches every haystack.
pub proof fn lemma_empty_query_matches(haystack: Seq<char>)
    ensures
        query_matches(Seq::empty(), haystack),
{
}

/// A query that holds a pattern character is compiled as it stands, and
/// where it compiles it matches what the pattern matches.
pub proof fn lemma_pattern_query_verbatim(query: Seq<char>, haystack: Seq<char>)
    requires
        has_pattern_char(query),
    ensures
        query_pattern(query) == query,
        pattern_compiles(query) ==> query_matches(query, haystack) == pattern_matches(
            query,
            haystack,
        ),
{
}

/// Escaping leaves a text without meta characters as it is.
pub proof fn lemma_escaped_plain(text: Seq<char>)
    requires
        forall|i: int| 0 <= i < text.len() ==> !is_meta(text[i]),
    ensures
        escaped(text) == text,
    decreases text.len(),
{
    if text.len() > 0 {
        lemma_escaped_plain(text.drop_last());
        assert(text.drop_last().push(text.last()) =~= text);
    }
}

/// A query without pattern characters is searched between two word
/// boundaries; where it holds no meta character either, as letters, digits
/// and underscores do not, the pattern is the query itself between the two
/// boundaries.
pub proof fn lemma_word_query(query: Seq<char>)
    requires
        !has_pattern_char(query),
    ensures
        query_pattern(query) == "\\b"@ + escaped(query) + "\\b"@,
        (forall|i: int| 0 <= i < query.len() ==> !is_meta(query[i])) ==> query_pattern(query)
            == "\\b"@ + query + "\\b"@,
{
    if forall|i: int| 0 <= i < query.len() ==> !is_meta(query[i]) {
        lemma_escaped_plain(query);
    }
}

/// A query that is not empty and whose pattern does not compile matches
/// where its lower-case form occurs in the lower-case form of the haystack.
pub proof fn lemma_fallback_ignores_case(query: Seq<char>, haystack: Seq<char>)
    requires
        query.len() > 0,
        !pattern_compiles(query_pattern(query)),
    ensures
        query_matches(query, haystack) == occurs_in(lowercase(query), lowercase(haystack)),
{
}

} // verus!
