//! The counters of a run.

use vstd::prelude::*;
use vstd::string::*;
use crate::text::{decimal, decimal_string};

verus! {

/// The sum of two counters as a counter holds it: it wraps around behind the
/// largest `usize`.
pub open spec fn wrapped_sum(a: int, b: int) -> int {
    if a + b > usize::MAX {
        a + b - usize::MAX - 1
    } else {
        a + b
    }
}

/// What `to_plural` of the inflector crate makes of a word.
pub uninterp spec fn plural(word: Seq<char>) -> Seq<char>;

/// Calls `inflector::string::pluralize::to_plural`; the result is a function
/// of the argument, named `plural`.
#[verifier::external_body]
fn to_plural(word: &str) -> (res: String)
    ensures
        res@ == plural(word@),
{
    inflector::string::pluralize::to_plural(word)
}

/// The word for `num` things: its plural where there are more than one.
pub fn pluralize(input: &str, num: usize) -> (word: String)
    ensures
        word@ == if num > 1 {
            plural(input@)
        } else {
            input@
        },
{
    if num > 1 {
        to_plural(input)
    } else {
        input.to_owned()
    }
}

/// The sentence of a summary: both numbers in decimal digits, each followed
/// by the word given for it.
pub open spec fn summary_text(
    replacements: nat,
    replacements_word: Seq<char>,
    files: nat,
    files_word: Seq<char>,
) -> Seq<char> {
    decimal(replacements) + " "@ + replacements_word + " on "@ + decimal(files) + " matching "@
        + files_word
}

/// Writes the sentence of a summary from its two numbers and the words for
/// them.
pub fn summary(replacements: usize, replacements_word: &str, files: usize, files_word: &str) -> (text:
    String)
    ensures
        text@ == summary_text(replacements as nat, replacements_word@, files as nat, files_word@),
{
    let mut text = decimal_string(replacements as u128);
    text.append(" ");
    text.append(replacements_word);
    text.append(" on ");
    text.append(decimal_string(files as u128).as_str());
    text.append(" matching ");
    text.append(files_word);
    text
}

/// Statistics about a run: how many files matched, how many lines were
/// changed and how many fragments were replaced.
#[derive(Debug)]
pub struct Stats {
    matching_files: usize,
    matching_lines: usize,
    total_replacements: usize,
}

impl Default for Stats {
    fn default() -> (stats: Stats)
        ensures
            stats.files() == 0,
            stats.lines() == 0,
            stats.replacements() == 0,
    {
        Stats { matching_files: 0, matching_lines: 0, total_replacements: 0 }
    }
}

impl Stats {
    /// The number of matching files, as a plain value.
    pub closed spec fn files(&self) -> int {
        self.matching_files as int
    }

    /// The number of changed lines, as a plain value.
    pub closed spec fn lines(&self) -> int {
        self.matching_lines as int
    }

    /// The number of replaced fragments, as a plain value.
    pub closed spec fn replacements(&self) -> int {
        self.total_replacements as int
    }

    /// Statistics of a run in which nothing has matched yet.
    pub fn new() -> (stats: Stats)
        ensures
            stats.files() == 0,
            stats.lines() == 0,
            stats.replacements() == 0,
    {
        Stats { matching_files: 0, matching_lines: 0, total_replacements: 0 }
    }

    /// Takes in the counts of one file. A file in which nothing was replaced
    /// changes nothing; any other file counts as one matching file, and its
    /// lines and replacements are added.
    pub fn update(&mut self, lines: usize, replacements: usize)
        ensures
            replacements == 0 ==> *final(self) == *old(self),
            replacements != 0 ==> {
                &&& final(self).files() == wrapped_sum(old(self).files(), 1)
                &&& final(self).lines() == wrapped_sum(old(self).lines(), lines as int)
                &&& final(self).replacements() == wrapped_sum(
                    old(self).replacements(),
                    replacements as int,
                )
            },
    {
        if replacements == 0 {
            return ;
        }
        self.matching_files = self.matching_files.wrapping_add(1);
        self.matching_lines = self.matching_lines.wrapping_add(lines);
        self.total_replacements = self.total_replacements.wrapping_add(replacements);
    }

    /// Number of matching files.
    pub fn matching_files(&self) -> (n: usize)
        ensures
            n == self.files(),
    {
        self.matching_files
    }

    /// Total number of lines that were changed.
    pub fn matching_lines(&self) -> (n: usize)
        ensures
            n == self.lines(),
    {
        self.matching_lines
    }

    /// Total number of fragments that were replaced.
    pub fn total_replacements(&self) -> (n: usize)
        ensures
            n == self.replacements(),
    {
        self.total_replacements
    }

    /// The summary of the run in words, as characters: the number of
    /// replacements and the number of matching files, each with its word,
    /// which stands in the plural where the number is above one.
    pub open spec fn summary_view(&self) -> Seq<char> {
        summary_text(
            self.replacements() as nat,
            if self.replacements() > 1 {
                plural("replacement"@)
            } else {
                "replacement"@
            },
            self.files() as nat,
            if self.files() > 1 {
                plural("file"@)
            } else {
                "file"@
            },
        )
    }

    /// The summary of the run in words, such as
    /// "4 replacements on 2 matching files".
    pub fn to_string(&self) -> (text: String)
        ensures
            text@ == self.summary_view(),
    {
        let file_string = pluralize("file", self.matching_files);
        let replacements_string = pluralize("replacement", self.total_replacements);
        summary(
            self.total_replacements,
            replacements_string.as_str(),
            self.matching_files,
            file_string.as_str(),
        )
    }
}

/// While the counters do not wrap around, an update never lowers one of
/// them, and a file with replacements raises the number of matching files by
/// one.
pub proof fn lemma_update_grows(before: Stats, after: Stats, lines: usize, replacements: usize)
    requires
        replacements != 0,
        after.files() == wrapped_sum(before.files(), 1),
        after.lines() == wrapped_sum(before.lines(), lines as int),
        after.replacements() == wrapped_sum(before.replacements(), replacements as int),
        before.files() + 1 <= usize::MAX,
        before.lines() + lines <= usize::MAX,
        before.replacements() + replacements <= usize::MAX,
    ensures
        after.files() == before.files() + 1,
        after.lines() == before.lines() + lines,
        after.replacements() == before.replacements() + replacements,
        after.replacements() > before.replacements(),
{
}

} // verus!
