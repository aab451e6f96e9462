//! Whether a name fits what the user searches for.

use vstd::prelude::*;
use vstd::string::StringExecFns;

use crate::text::{contains, contains_text};

verus! {

/// The type of compiled regular expressions, `regex::Regex`. Nothing is known of what is inside.
#[verifier::external_type_specification]
#[verifier::external_body]
pub struct ExRegex(regex::Regex);

/// The regular expression that `regex::Regex::new` compiles a pattern to, if it accepts it.
pub uninterp spec fn regex_compiled(pattern: Seq<char>) -> Option<regex::Regex>;

/// Whether `regex::Regex::is_match` finds the expression somewhere in a text.
pub uninterp spec fn regex_found(re: regex::Regex, text: Seq<char>) -> bool;

/// A text in lower case, as `str::to_lowercase` gives it.
pub uninterp spec fn lowercase(text: Seq<char>) -> Seq<char>;

/// Calls `regex::Regex::new`. The result is the one that belongs to the pattern; a pattern that
/// is malformed, or whose program would be too large, has none, and the reason is dropped.
#[verifier::external_body]
pub(crate) fn compile_regex(pattern: &str) -> (res: Option<regex::Regex>)
    ensures
        res == regex_compiled(pattern@),
{
    regex::Regex::new(pattern).ok()
}

/// Calls `regex::Regex::is_match`. The answer is fixed by the expression and the text.
#[verifier::external_body]
pub(crate) fn regex_is_match(re: &regex::Regex, text: &str) -> (res: bool)
    ensures
        res == regex_found(*re, text@),
{
    re.is_match(text)
}

/// Calls `str::to_lowercase`. The result is fixed by the text: Unicode lower case, whatever the
/// language of the machine.
#[verifier::external_body]
pub(crate) fn to_lowercase(text: &str) -> (res: String)
    ensures
        res@ == lowercase(text@),
{
    text.to_lowercase()
}

/// A pattern made to ignore case.
pub open spec fn caseless(pattern: Seq<char>) -> Seq<char> {
    "(?i)"@ + pattern
}

/// The expression that a query stands for: none unless the user asked for one, nor for an empty
/// query or one that is no well-formed pattern.
pub open spec fn query_regex(query: Seq<char>, is_regex: bool) -> Option<regex::Regex> {
    if is_regex && query.len() > 0 {
        regex_compiled(caseless(query))
    } else {
        None
    }
}

/// `name` contains `query`, both in lower case.
pub open spec fn contains_caseless(name: Seq<char>, query: Seq<char>) -> bool {
    contains_text(lowercase(name), lowercase(query))
}

/// `name` fits the query: every name fits the empty one; an expression is to be found in the
/// name; any other query, an expression that is not well-formed among them, is to be contained
/// in the name without regard to case.
pub open spec fn fits_query(name: Seq<char>, query: Seq<char>, is_regex: bool) -> bool {
    if query.len() == 0 {
        true
    } else {
        match query_regex(query, is_regex) {
            Some(re) => regex_found(re, name),
            None => contains_caseless(name, query),
        }
    }
}

/// Whether a name fits a query, given whether the query is empty, whether the expression that it
/// stands for was found, if it stands for one, and the name and the query in lower case.
pub fn fits_given(
    empty: bool,
    found: Option<bool>,
    lowered_name: &str,
    lowered_query: &str,
) -> (res: bool)
    ensures
        res == (if empty {
            true
        } else {
            match found {
                Some(hit) => hit,
                None => contains_text(lowered_name@, lowered_query@),
            }
        }),
{
    if empty {
        true
    } else {
        match found {
            Some(hit) => hit,
            None => contains(lowered_name, lowered_query),
        }
    }
}

/// A query made ready for many names.
pub struct Query {
    regex: Option<regex::Regex>,
    lowered: String,
    empty: bool,
    text: Ghost<Seq<char>>,
    is_regex: Ghost<bool>,
}

impl Query {
    /// What the user typed.
    pub closed spec fn text(self) -> Seq<char> {
        self.text@
    }

    /// Whether the user asked for a regular expression.
    pub closed spec fn is_regex(self) -> bool {
        self.is_regex@
    }

    #[verifier::type_invariant]
    closed spec fn well_formed(self) -> bool {
        &&& self.regex == query_regex(self.text@, self.is_regex@)
        &&& self.lowered@ == lowercase(self.text@)
        &&& self.empty == (self.text@.len() == 0)
    }

    /// Makes a query ready.
    pub fn new(query: &str, is_regex: bool) -> (res: Query)
        ensures
            res.text() == query@,
            res.is_regex() == is_regex,
    {
        let empty = query.is_empty();
        let regex = if is_regex && !empty {
            let mut pattern = "(?i)".to_owned();
            pattern.append(query);
            compile_regex(pattern.as_str())
        } else {
            None
        };
        Query {
            regex,
            lowered: to_lowercase(query),
            empty,
            text: Ghost(query@),
            is_regex: Ghost(is_regex),
        }
    }

    /// Whether `name` fits the query.
    pub fn fits(&self, name: &str) -> (res: bool)
        ensures
            res == fits_query(name@, self.text(), self.is_regex()),
    {
        proof {
            use_type_invariant(self);
        }
        match &self.regex {
            Some(re) => {
                let found = regex_is_match(re, name);
                fits_given(self.empty, Some(found), name, self.lowered.as_str())
            },
            None => {
                let lowered = to_lowercase(name);
                fits_given(self.empty, None, lowered.as_str(), self.lowered.as_str())
            },
        }
    }
}

/// Every name fits the empty query, and every text fits itself as a plain query. A plain query
/// is to be contained, both in lower case.
pub proof fn law_plain_query_is_contained(name: Seq<char>, query: Seq<char>, is_regex: bool)
    ensures
        query.len() == 0 ==> fits_query(name, query, is_regex),
        query.len() > 0 ==> (fits_query(name, query, false) <==> contains_text(
            lowercase(name),
            lowercase(query),
        )),
        fits_query(query, query, false),
{
    let lowered = lowercase(query);
    crate::text::law_text_contains_its_parts(Seq::empty(), lowered, Seq::empty());
    assert(Seq::<char>::empty() + lowered + Seq::<char>::empty() == lowered);
}

/// A pattern is searched for without regard to case; one that is not accepted is a plain query.
pub proof fn law_pattern_is_searched_for(name: Seq<char>, query: Seq<char>)
    requires
        query.len() > 0,
    ensures
        match regex_compiled(seq!['(', '?', 'i', ')'] + query) {
            Some(re) => fits_query(name, query, true) == regex_found(re, name),
            None => fits_query(name, query, true) == fits_query(name, query, false),
        },
{
    reveal_strlit("(?i)");
    assert("(?i)"@ =~= seq!['(', '?', 'i', ')']);
}

} // verus!
