//! Patching the files of a walk: what to do with each file, the counters of
//! the run, and the file-type rules that the walk is built with.

use vstd::prelude::*;
use vstd::string::*;
use vstd::utf8::*;
use crate::file_patcher::{is_text, FilePatcher};
use crate::query::Query;
use crate::settings::Settings;
use crate::stats::{wrapped_sum, Stats};
use crate::text::{decimal, decimal_string};

pub mod path_deduplicator;

verus! {

/// What is to be done with a file after the query ran over its contents.
#[derive(Debug)]
pub enum PatchAction {
    /// The file is no text: it is left alone and not counted.
    Skip,
    /// A dry run: the new contents are known and are not written.
    Keep(FilePatcher),
    /// The new contents are to be written over the file.
    Write(FilePatcher),
}

/// One step in building the file-type matcher of a walk.
#[derive(Debug)]
pub enum TypeRule {
    /// Define a file type of this name, with this glob.
    Add { name: String, glob: String },
    /// Visit the files of this type.
    Select(String),
    /// Leave out the files of this type.
    Negate(String),
}

/// A type rule as plain values.
pub enum TypeRuleView {
    Add { name: Seq<char>, glob: Seq<char> },
    Select(Seq<char>),
    Negate(Seq<char>),
}

impl View for TypeRule {
    type V = TypeRuleView;

    open spec fn view(&self) -> TypeRuleView {
        match self {
            TypeRule::Add { name, glob } => TypeRuleView::Add { name: name@, glob: glob@ },
            TypeRule::Select(name) => TypeRuleView::Select(name@),
            TypeRule::Negate(name) => TypeRuleView::Negate(name@),
        }
    }
}

/// The rules of a list, each as plain values.
pub open spec fn rules_view(rules: Seq<TypeRule>) -> Seq<TypeRuleView> {
    Seq::new(rules.len(), |i: int| rules[i]@)
}

/// The strings of a list, each by its characters.
pub open spec fn strings_view(strings: Seq<String>) -> Seq<Seq<char>> {
    Seq::new(strings.len(), |i: int| strings[i]@)
}

/// An entry of a file-type list is a glob where it holds a `*`, which is the
/// byte 42 of its text; else it is the name of a file type.
pub open spec fn is_glob(entry: Seq<char>) -> bool {
    encode_utf8(entry).contains(42u8)
}

/// The number of globs among the first `n` entries.
pub open spec fn glob_count(entries: Seq<Seq<char>>, n: int) -> nat
    decreases n,
{
    if n <= 0 {
        0
    } else if is_glob(entries[n - 1]) {
        glob_count(entries, n - 1) + 1
    } else {
        glob_count(entries, n - 1)
    }
}

/// The name of the file type that is defined for the glob with this number.
pub open spec fn glob_type_name(number: nat) -> Seq<char> {
    "type"@ + decimal(number)
}

/// Selects or negates a file type.
pub open spec fn choice(select: bool, name: Seq<char>) -> TypeRuleView {
    if select {
        TypeRuleView::Select(name)
    } else {
        TypeRuleView::Negate(name)
    }
}

/// The rules for the first `n` entries of a list: a name is selected or
/// negated as it is; for a glob a file type is defined first, named by the
/// number of the glob, where `first` is the number of the first one.
pub open spec fn rules_upto(entries: Seq<Seq<char>>, select: bool, first: nat, n: int) -> Seq<
    TypeRuleView,
>
    decreases n,
{
    if n <= 0 {
        Seq::empty()
    } else {
        let before = rules_upto(entries, select, first, n - 1);
        let entry = entries[n - 1];
        if is_glob(entry) {
            let name = glob_type_name(first + glob_count(entries, n - 1));
            before.push(TypeRuleView::Add { name: name, glob: entry }).push(choice(select, name))
        } else {
            before.push(choice(select, entry))
        }
    }
}

/// The rules of a walk: those of the selected file types, then those of the
/// ignored ones; the globs of both lists are numbered in one row.
pub open spec fn type_rules_of(selected: Seq<Seq<char>>, ignored: Seq<Seq<char>>) -> Seq<
    TypeRuleView,
> {
    rules_upto(selected, true, 0, selected.len() as int) + rules_upto(
        ignored,
        false,
        glob_count(selected, selected.len() as int),
        ignored.len() as int,
    )
}

/// Whether an entry of a file-type list is a glob.
pub fn has_wildcard(entry: &str) -> (res: bool)
    ensures
        res == is_glob(entry@),
{
    let bytes = entry.as_bytes();
    let mut i: usize = 0;
    while i < bytes.len()
        invariant
            i <= bytes@.len(),
            bytes@ == encode_utf8(entry@),
            forall|j: int| 0 <= j < i ==> bytes@[j] != 42u8,
        decreases bytes@.len() - i,
    {
        if bytes[i] == 42u8 {
            return true;
        }
        i += 1;
    }
    false
}

/// Appends the rules of one list of file types to `rules`, and counts its
/// globs on `count`.
pub fn add_type_rules(
    entries: &Vec<String>,
    select: bool,
    count: &mut u128,
    rules: &mut Vec<TypeRule>,
)
    requires
        *old(count) + entries@.len() <= u128::MAX,
    ensures
        *final(count) == *old(count) + glob_count(
            strings_view(entries@),
            entries@.len() as int,
        ),
        rules_view(final(rules)@) == rules_view(old(rules)@) + rules_upto(
            strings_view(entries@),
            select,
            *old(count) as nat,
            entries@.len() as int,
        ),
{
    let ghost names = strings_view(entries@);
    let ghost first = *count as nat;
    let ghost start = rules_view(rules@);
    let mut i: usize = 0;
    proof {
        assert(rules_view(rules@) =~= start + rules_upto(names, select, first, 0));
    }
    while i < entries.len()
        invariant
            i <= entries@.len(),
            names == strings_view(entries@),
            first + entries@.len() <= u128::MAX,
            *count == first + glob_count(names, i as int),
            rules_view(rules@) == start + rules_upto(names, select, first, i as int),
        decreases entries@.len() - i,
    {
        let entry = &entries[i];
        let ghost before = rules_view(rules@);
        assert(names[i as int] == entry@);
        let name = if has_wildcard(entry.as_str()) {
            let mut name = "type".to_owned();
            name.append(decimal_string(*count).as_str());
            rules.push(TypeRule::Add { name: name.clone(), glob: entry.clone() });
            proof {
                lemma_glob_count_bound(names, i as int);
            }
            *count = *count + 1;
            name
        } else {
            entry.clone()
        };
        if select {
            rules.push(TypeRule::Select(name));
        } else {
            rules.push(TypeRule::Negate(name));
        }
        i += 1;
        proof {
            let step = rules_upto(names, select, first, i as int);
            let prev = rules_upto(names, select, first, i - 1);
            if is_glob(entry@) {
                let name_view = glob_type_name(first + glob_count(names, i - 1));
                assert(rules_view(rules@) =~= before.push(
                    TypeRuleView::Add { name: name_view, glob: entry@ },
                ).push(choice(select, name_view)));
            } else {
                assert(rules_view(rules@) =~= before.push(choice(select, entry@)));
            }
            assert(rules_view(rules@) =~= start + step);
        }
    }
}

/// There are no more globs among the first `n` entries than entries.
pub proof fn lemma_glob_count_bound(entries: Seq<Seq<char>>, n: int)
    requires
        0 <= n,
    ensures
        glob_count(entries, n) <= n,
    decreases n,
{
    if n > 0 {
        lemma_glob_count_bound(entries, n - 1);
    }
}

/// Runs a query over the files that a walk hands in, and keeps the counters.
#[derive(Debug)]
pub struct DirectoryPatcher<'a> {
    settings: &'a Settings,
    stats: Stats,
}

impl<'a> DirectoryPatcher<'a> {
    /// The settings of the run.
    pub closed spec fn settings_view(&self) -> Settings {
        *self.settings
    }

    /// The counters of the run.
    pub closed spec fn stats_view(&self) -> Stats {
        self.stats
    }

    /// A patcher that has seen no file yet.
    pub fn new(settings: &'a Settings) -> (patcher: DirectoryPatcher<'a>)
        ensures
            patcher.settings_view() == *settings,
            patcher.stats_view().files() == 0,
            patcher.stats_view().lines() == 0,
            patcher.stats_view().replacements() == 0,
    {
        DirectoryPatcher { settings, stats: Stats::new() }
    }

    /// Runs the query over the contents of one file and says what is to be
    /// done with the file. A file that is no text is skipped and not counted.
    /// Any other file is counted where something was replaced in it, and its
    /// new contents are to be written unless this is a dry run.
    pub fn patch_file(&mut self, path: &str, contents: &[u8], query: &Query) -> (action:
        PatchAction)
        ensures
            final(self).settings_view() == old(self).settings_view(),
            match action {
                PatchAction::Skip => {
                    &&& !is_text(contents@)
                    &&& final(self).stats_view() == old(self).stats_view()
                },
                PatchAction::Keep(patch) => {
                    &&& old(self).settings_view().dry_run
                    &&& patch.describes(path@, contents@, query@)
                    &&& counted(old(self).stats_view(), final(self).stats_view(), patch)
                },
                PatchAction::Write(patch) => {
                    &&& !old(self).settings_view().dry_run
                    &&& patch.describes(path@, contents@, query@)
                    &&& counted(old(self).stats_view(), final(self).stats_view(), patch)
                },
            },
    {
        let file_patcher = match FilePatcher::new(path, contents, query) {
            None => {
                return PatchAction::Skip;
            },
            Some(f) => f,
        };
        let num_replacements = file_patcher.num_replacements();
        let num_lines = file_patcher.num_lines();
        self.stats.update(num_lines, num_replacements);
        if self.settings.dry_run {
            return PatchAction::Keep(file_patcher);
        }
        PatchAction::Write(file_patcher)
    }

    /// The counters of the run so far.
    pub fn current_stats(&self) -> (stats: &Stats)
        ensures
            *stats == self.stats_view(),
    {
        &self.stats
    }

    /// The counters of the run.
    pub fn stats(self) -> (stats: Stats)
        ensures
            stats == self.stats_view(),
    {
        self.stats
    }

    /// The rules by which the walk picks files by their type: those of the
    /// selected file types, then those of the ignored ones.
    pub fn type_rules(&self) -> (rules: Vec<TypeRule>)
        ensures
            rules_view(rules@) == type_rules_of(
                strings_view(self.settings_view().selected_file_types@),
                strings_view(self.settings_view().ignored_file_types@),
            ),
    {
        let mut rules: Vec<TypeRule> = Vec::new();
        let mut count: u128 = 0;
        let selected: usize = self.settings.selected_file_types.len();
        let ignored: usize = self.settings.ignored_file_types.len();
        assert(selected + ignored <= u128::MAX);
        add_type_rules(&self.settings.selected_file_types, true, &mut count, &mut rules);
        proof {
            lemma_glob_count_bound(
                strings_view(self.settings.selected_file_types@),
                self.settings.selected_file_types@.len() as int,
            );
            assert(rules_view(rules@) =~= rules_upto(
                strings_view(self.settings.selected_file_types@),
                true,
                0,
                self.settings.selected_file_types@.len() as int,
            ));
        }
        add_type_rules(&self.settings.ignored_file_types, false, &mut count, &mut rules);
        rules
    }

    /// Whether the walk leaves out what the ignore files name.
    pub fn respects_ignore_files(&self) -> (res: bool)
        ensures
            res == !self.settings_view().ignored,
    {
        !self.settings.ignored
    }

    /// Whether the walk leaves out hidden files and directories.
    pub fn skips_hidden(&self) -> (res: bool)
        ensures
            res == !self.settings_view().hidden,
    {
        !self.settings.hidden
    }
}

/// The counters after a file was patched: unchanged where nothing was
/// replaced in it; else one more matching file, and its lines and
/// replacements added.
pub open spec fn counted(before: Stats, after: Stats, patch: FilePatcher) -> bool {
    if patch.replaced() == 0 {
        after == before
    } else {
        &&& after.files() == wrapped_sum(before.files(), 1)
        &&& after.lines() == wrapped_sum(before.lines(), patch.changed())
        &&& after.replacements() == wrapped_sum(before.replacements(), patch.replaced())
    }
}

} // verus!
