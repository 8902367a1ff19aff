//! The query of a run: what is searched for and what it is replaced with.

use vstd::prelude::*;
use vstd::string::*;

verus! {

/// The compiled regex of the regex crate, `regex::Regex`: nothing of its
/// inside is known here.
#[verifier::external_type_specification]
#[verifier::external_body]
pub struct ExRegex(regex::Regex);

/// What `regex::Regex::new` makes of a pattern: the compiled regex, or the
/// text of the error that says why the pattern is none.
pub uninterp spec fn regex_compiled(pattern: Seq<char>) -> Result<regex::Regex, Seq<char>>;

/// Calls `regex::Regex::new`, and `to_string` on the error where there is
/// one; the result is a function of the pattern, named `regex_compiled`.
#[verifier::external_body]
fn compile_regex(pattern: &str) -> (res: Result<regex::Regex, String>)
    ensures
        match res {
            Ok(regex) => regex_compiled(pattern@) == Ok::<regex::Regex, Seq<char>>(regex),
            Err(text) => regex_compiled(pattern@) == Err::<regex::Regex, Seq<char>>(text@),
        },
{
    match regex::Regex::new(pattern) {
        Ok(regex) => Ok(regex),
        Err(error) => Err(error.to_string()),
    }
}

/// A replacement query.
pub enum Query {
    /// Substitute `old` with `new`.
    Simple(String, String),
    /// Replace the parts matching the regex with the replacement template.
    Regex(regex::Regex, String),
    /// Replace each listed pattern with the replacement paired with it. The
    /// pairs are the case variants of one pattern and one replacement, in a
    /// fixed order.
    PreserveCase(Vec<(String, String)>),
}

/// What a query is, as plain values.
pub enum QueryView {
    Simple { old: Seq<char>, new: Seq<char> },
    Regex { regex: regex::Regex, template: Seq<char> },
    PreserveCase { items: Seq<(Seq<char>, Seq<char>)> },
}

/// The pairs of a list of string pairs, each string by its characters.
pub open spec fn pairs_view(items: Seq<(String, String)>) -> Seq<(Seq<char>, Seq<char>)> {
    Seq::new(items.len(), |i: int| (items[i].0@, items[i].1@))
}

impl View for Query {
    type V = QueryView;

    open spec fn view(&self) -> QueryView {
        match self {
            Query::Simple(old, new) => QueryView::Simple { old: old@, new: new@ },
            Query::Regex(regex, template) => QueryView::Regex {
                regex: *regex,
                template: template@,
            },
            Query::PreserveCase(items) => QueryView::PreserveCase { items: pairs_view(items@) },
        }
    }
}

/// What `to_train_case` of the inflector crate makes of a string.
pub uninterp spec fn train_case(s: Seq<char>) -> Seq<char>;

/// What `to_camel_case` of the inflector crate makes of a string.
pub uninterp spec fn camel_case(s: Seq<char>) -> Seq<char>;

/// What `to_kebab_case` of the inflector crate makes of a string.
pub uninterp spec fn kebab_case(s: Seq<char>) -> Seq<char>;

/// What `to_pascal_case` of the inflector crate makes of a string.
pub uninterp spec fn pascal_case(s: Seq<char>) -> Seq<char>;

/// What `to_screaming_snake_case` of the inflector crate makes of a string.
pub uninterp spec fn screaming_snake_case(s: Seq<char>) -> Seq<char>;

/// What `to_snake_case` of the inflector crate makes of a string.
pub uninterp spec fn snake_case(s: Seq<char>) -> Seq<char>;

/// Calls `inflector::cases::traincase::to_train_case`; the result is a
/// function of the argument, named `train_case`.
#[verifier::external_body]
fn to_train_case(s: &str) -> (res: String)
    ensures
        res@ == train_case(s@),
{
    inflector::cases::traincase::to_train_case(s)
}

/// Calls `inflector::cases::camelcase::to_camel_case`; the result is a
/// function of the argument, named `camel_case`.
#[verifier::external_body]
fn to_camel_case(s: &str) -> (res: String)
    ensures
        res@ == camel_case(s@),
{
    inflector::cases::camelcase::to_camel_case(s)
}

/// Calls `inflector::cases::kebabcase::to_kebab_case`; the result is a
/// function of the argument, named `kebab_case`.
#[verifier::external_body]
fn to_kebab_case(s: &str) -> (res: String)
    ensures
        res@ == kebab_case(s@),
{
    inflector::cases::kebabcase::to_kebab_case(s)
}

/// Calls `inflector::cases::pascalcase::to_pascal_case`; the result is a
/// function of the argument, named `pascal_case`.
#[verifier::external_body]
fn to_pascal_case(s: &str) -> (res: String)
    ensures
        res@ == pascal_case(s@),
{
    inflector::cases::pascalcase::to_pascal_case(s)
}

/// Calls `inflector::cases::screamingsnakecase::to_screaming_snake_case`; the
/// result is a function of the argument, named `screaming_snake_case`.
#[verifier::external_body]
fn to_screaming_snake_case(s: &str) -> (res: String)
    ensures
        res@ == screaming_snake_case(s@),
{
    inflector::cases::screamingsnakecase::to_screaming_snake_case(s)
}

/// Calls `inflector::cases::snakecase::to_snake_case`; the result is a
/// function of the argument, named `snake_case`.
#[verifier::external_body]
fn to_snake_case(s: &str) -> (res: String)
    ensures
        res@ == snake_case(s@),
{
    inflector::cases::snakecase::to_snake_case(s)
}

/// A string with every hyphen turned into an underscore.
pub open spec fn underscored(s: Seq<char>) -> Seq<char> {
    Seq::new(s.len(), |i: int| if s[i] == '-' { '_' } else { s[i] })
}

/// Calls `str::replace` with the pattern `'-'` and the replacement `"_"`:
/// every hyphen becomes an underscore, every other character stays.
#[verifier::external_body]
fn hyphens_to_underscores(s: &str) -> (res: String)
    ensures
        res@ == underscored(s@),
{
    s.replace('-', "_")
}

/// Train case with underscores between the words: `Foo_Bar`.
pub fn to_ada_case(input: &str) -> (res: String)
    ensures
        res@ == underscored(train_case(input@)),
{
    let train = to_train_case(input);
    hyphens_to_underscores(train.as_str())
}

/// The case variants of a pattern and a replacement, in the order in which
/// they are tried: underscored train case, camel case, kebab case, Pascal
/// case, screaming snake case, snake case, train case.
pub open spec fn case_variants(pattern: Seq<char>, replacement: Seq<char>) -> Seq<
    (Seq<char>, Seq<char>),
> {
    seq![
        (underscored(train_case(pattern)), underscored(train_case(replacement))),
        (camel_case(pattern), camel_case(replacement)),
        (kebab_case(pattern), kebab_case(replacement)),
        (pascal_case(pattern), pascal_case(replacement)),
        (screaming_snake_case(pattern), screaming_snake_case(replacement)),
        (snake_case(pattern), snake_case(replacement)),
        (train_case(pattern), train_case(replacement)),
    ]
}

/// Expands a pattern and a replacement into their case variants: each pair
/// is one conversion applied to both.
pub fn expand_case_variants(pattern: &str, replacement: &str) -> (items: Vec<(String, String)>)
    ensures
        pairs_view(items@) == case_variants(pattern@, replacement@),
{
    let mut items: Vec<(String, String)> = Vec::new();
    items.push((to_ada_case(pattern), to_ada_case(replacement)));
    items.push((to_camel_case(pattern), to_camel_case(replacement)));
    items.push((to_kebab_case(pattern), to_kebab_case(replacement)));
    items.push((to_pascal_case(pattern), to_pascal_case(replacement)));
    items.push((to_screaming_snake_case(pattern), to_screaming_snake_case(replacement)));
    items.push((to_snake_case(pattern), to_snake_case(replacement)));
    items.push((to_train_case(pattern), to_train_case(replacement)));
    assert(pairs_view(items@) =~= case_variants(pattern@, replacement@));
    items
}

/// The pattern that matches `pattern` as a whole word only.
pub open spec fn word_pattern(pattern: Seq<char>) -> Seq<char> {
    "\\b("@ + pattern + ")\\b"@
}

/// Wraps a pattern so that it matches as a whole word only.
pub fn to_word_pattern(pattern: &str) -> (res: String)
    ensures
        res@ == word_pattern(pattern@),
{
    let mut res = "\\b(".to_owned();
    res.append(pattern);
    res.append(")\\b");
    res
}

/// The pattern that is compiled for a regex query.
pub open spec fn regex_source(pattern: Seq<char>, word: bool) -> Seq<char> {
    if word {
        word_pattern(pattern)
    } else {
        pattern
    }
}

/// What a query is made from: the two texts, and how the pattern is to be
/// read. A literal comes before a case-preserving search, and both before a
/// regex.
pub open spec fn chosen_query(
    pattern: Seq<char>,
    replacement: Seq<char>,
    no_regex: bool,
    preserve_case: bool,
    word_regex: bool,
) -> Result<QueryView, Seq<char>> {
    if no_regex {
        Ok(QueryView::Simple { old: pattern, new: replacement })
    } else if preserve_case {
        Ok(QueryView::PreserveCase { items: case_variants(pattern, replacement) })
    } else {
        match regex_compiled(regex_source(pattern, word_regex)) {
            Ok(regex) => Ok(QueryView::Regex { regex, template: replacement }),
            Err(cause) => Err("Invalid regex: "@ + cause),
        }
    }
}

impl Query {
    /// Builds the query of a run from the two texts and the way the pattern
    /// is to be read. A pattern that is no regex gives an error, which says
    /// why.
    pub fn from_options(
        pattern: &str,
        replacement: &str,
        no_regex: bool,
        preserve_case: bool,
        word_regex: bool,
    ) -> (res: Result<Query, crate::errors::Error>)
        ensures
            match chosen_query(pattern@, replacement@, no_regex, preserve_case, word_regex) {
                Ok(view) => res matches Ok(query) && query@ == view,
                Err(message) => res matches Err(error) && error@ == message,
            },
    {
        if no_regex {
            Ok(Query::simple(pattern, replacement))
        } else if preserve_case {
            Ok(Query::preserve_case(pattern, replacement))
        } else {
            Query::from_pattern(pattern, replacement, word_regex)
        }
    }

    /// Compiles a pattern into a regex query; with `word`, the pattern
    /// matches whole words only. A pattern that is no regex gives an error,
    /// which says why.
    pub fn from_pattern(pattern: &str, replacement: &str, word: bool) -> (res: Result<
        Query,
        crate::errors::Error,
    >)
        ensures
            match regex_compiled(regex_source(pattern@, word)) {
                Ok(regex) => res matches Ok(query) && query@ == (QueryView::Regex {
                    regex,
                    template: replacement@,
                }),
                Err(cause) => res matches Err(error) && error@ == "Invalid regex: "@ + cause,
            },
    {
        let compiled = if word {
            compile_regex(to_word_pattern(pattern).as_str())
        } else {
            compile_regex(pattern)
        };
        match compiled {
            Ok(regex) => Ok(Query::regex(regex, replacement)),
            Err(cause) => {
                let mut message = "Invalid regex: ".to_owned();
                message.append(cause.as_str());
                Err(crate::errors::Error::new(message.as_str()))
            },
        }
    }

    /// Constructor for the literal variant.
    pub fn simple(old: &str, new: &str) -> (query: Query)
        ensures
            query@ == (QueryView::Simple { old: old@, new: new@ }),
    {
        Query::Simple(old.to_owned(), new.to_owned())
    }

    /// Constructor for the regex variant.
    pub fn regex(re: regex::Regex, replacement: &str) -> (query: Query)
        ensures
            query@ == (QueryView::Regex { regex: re, template: replacement@ }),
    {
        Query::Regex(re, replacement.to_owned())
    }

    /// Constructor for the case-preserving variant: the pattern and the
    /// replacement are expanded here, once, into their case variants.
    pub fn preserve_case(pattern: &str, replacement: &str) -> (query: Query)
        ensures
            query@ == (QueryView::PreserveCase {
                items: case_variants(pattern@, replacement@),
            }),
    {
        Query::PreserveCase(expand_case_variants(pattern, replacement))
    }
}

} // verus!
