//! Filters: which entries of a graph a search asks for.

use vstd::prelude::*;

use crate::graph::{is_directory, is_forest, path_of, raw_ids, subtree_sum, total_allocated, total_size,
    within, EntryFlags, EntryId, EntryView, FileGraph};
use crate::select::{select, select_picks};
use crate::text::{contains, contains_spec, eq_ignore_ascii_case, lower_all, occurs_at, to_lowercase,
    unicode_lowercase};
use crate::totals::an_entry_fits_into_those_above;
use crate::winpath::{an_extension_stands_behind_the_last_dot, extension, extension_spec, is_plain_name,
    no_extension_without_a_dot};

verus! {

/// `regex::Regex`, a compiled pattern.
#[verifier::external_type_specification]
#[verifier::external_body]
pub struct ExRegex(regex::Regex);

/// `regex::Error`, why a pattern was not compiled.
#[verifier::external_type_specification]
#[verifier::external_body]
pub struct ExRegexError(regex::Error);

/// The texts in which a compiled pattern has a match.
pub uninterp spec fn texts_matched(re: regex::Regex) -> Set<Seq<char>>;

/// The texts in which a pattern has a match, in the syntax and with the defaults of `regex::Regex`.
pub uninterp spec fn pattern_texts(pattern: Seq<char>) -> Set<Seq<char>>;

/// `regex::Regex::new`: what it compiles has a match in the texts of the pattern. Whether it
/// compiles a pattern is left open: that depends on the memory that the compiled form takes.
#[verifier::external_body]
fn compile_regex(pattern: &str) -> (r: Result<regex::Regex, regex::Error>)
    ensures
        r matches Ok(re) ==> texts_matched(re) == pattern_texts(pattern@),
{
    regex::Regex::new(pattern)
}

/// `regex::Regex::is_match`: whether the pattern has a match anywhere in the text.
#[verifier::external_body]
fn regex_is_match(re: &regex::Regex, text: &str) -> (r: bool)
    ensures
        r == texts_matched(*re).contains(text@),
{
    re.is_match(text)
}

/// The clone of a `regex::Regex`: it is the same compiled pattern with memory of its own to search
/// with, so it has a match in the same texts.
#[verifier::external_body]
fn clone_regex(re: &regex::Regex) -> (r: regex::Regex)
    ensures
        texts_matched(r) == texts_matched(*re),
{
    re.clone()
}

/// What a name or a path has to hold.
#[derive(Debug)]
pub enum NameMatcher {
    /// This text, in any case.
    Contains(String),
    /// A match of this pattern.
    Regex(regex::Regex),
}

/// Why a filter was not made.
#[derive(Debug)]
pub enum FilterError {
    /// The pattern was not compiled.
    Regex(regex::Error),
}

/// Whether the matcher accepts the text.
pub open spec fn accepts(matcher: NameMatcher, text: Seq<char>) -> bool {
    match matcher {
        NameMatcher::Contains(needle) => contains_spec(
            unicode_lowercase(text),
            unicode_lowercase(needle@),
        ),
        NameMatcher::Regex(re) => texts_matched(re).contains(text),
    }
}

impl NameMatcher {
    /// A matcher for texts that hold `needle`, in any case.
    #[must_use]
    pub fn contains(needle: &str) -> (r: Self)
        ensures
            r matches NameMatcher::Contains(text) && text@ == needle@,
            forall|text: Seq<char>| #[trigger]
                accepts(r, text) == contains_spec(
                    unicode_lowercase(text),
                    unicode_lowercase(needle@),
                ),
    {
        NameMatcher::Contains(needle.to_owned())
    }

    /// A matcher for texts in which the pattern has a match.
    pub fn regex(pattern: &str) -> (r: Result<Self, FilterError>)
        ensures
            r matches Ok(matcher) ==> matcher is Regex && forall|text: Seq<char>| #[trigger]
                accepts(matcher, text) == pattern_texts(pattern@).contains(text),
    {
        Self::from_compiled(compile_regex(pattern))
    }

    /// The matcher for a pattern, from what came of compiling it.
    pub fn from_compiled(compiled: Result<regex::Regex, regex::Error>) -> (r: Result<
        Self,
        FilterError,
    >)
        ensures
            r == match compiled {
                Ok(re) => Ok::<Self, FilterError>(NameMatcher::Regex(re)),
                Err(error) => Err(FilterError::Regex(error)),
            },
    {
        match compiled {
            Ok(re) => Ok(NameMatcher::Regex(re)),
            Err(error) => Err(FilterError::Regex(error)),
        }
    }

    /// Whether the matcher accepts the text.
    #[must_use]
    pub fn matches(&self, text: &str) -> (r: bool)
        ensures
            r == accepts(*self, text@),
    {
        match self {
            NameMatcher::Contains(needle) => {
                let value = to_lowercase(text);
                let part = to_lowercase(needle);
                contains(&value, &part)
            },
            NameMatcher::Regex(re) => regex_is_match(re, text),
        }
    }
}

impl Clone for NameMatcher {
    fn clone(&self) -> (r: Self)
        ensures
            r is Regex == self is Regex,
            forall|text: Seq<char>| #[trigger] accepts(r, text) == accepts(*self, text),
    {
        match self {
            NameMatcher::Contains(needle) => NameMatcher::Contains(needle.clone()),
            NameMatcher::Regex(re) => NameMatcher::Regex(clone_regex(re)),
        }
    }
}

/// What an entry has to be. What is `None` is not asked for; all bounds are inclusive.
#[derive(Debug, Clone)]
pub struct QueryFilter {
    pub name: Option<NameMatcher>,
    /// The extension, whatever the case of its ASCII letters.
    pub extension: Option<String>,
    pub path: Option<NameMatcher>,
    pub min_size: Option<u64>,
    pub max_size: Option<u64>,
    pub min_allocated: Option<u64>,
    pub max_allocated: Option<u64>,
    pub modified_after: Option<i64>,
    pub modified_before: Option<i64>,
    pub include_directories: bool,
}

impl Default for QueryFilter {
    /// A filter that every entry passes.
    fn default() -> (r: Self)
        ensures
            r == (QueryFilter {
                name: None,
                extension: None,
                path: None,
                min_size: None,
                max_size: None,
                min_allocated: None,
                max_allocated: None,
                modified_after: None,
                modified_before: None,
                include_directories: true,
            }),
    {
        QueryFilter {
            name: None,
            extension: None,
            path: None,
            min_size: None,
            max_size: None,
            min_allocated: None,
            max_allocated: None,
            modified_after: None,
            modified_before: None,
            include_directories: true,
        }
    }
}

/// Whether the number lies within the bounds that are given.
pub open spec fn within_bounds(value: int, min: Option<int>, max: Option<int>) -> bool {
    (min matches Some(least) ==> least <= value) && (max matches Some(most) ==> value <= most)
}

/// A bound as a number.
pub open spec fn size_bound(bound: Option<u64>) -> Option<int> {
    match bound {
        Some(n) => Some(n as int),
        None => None,
    }
}

/// A bound as a number.
pub open spec fn time_bound(bound: Option<i64>) -> Option<int> {
    match bound {
        Some(n) => Some(n as int),
        None => None,
    }
}

/// Whether entry `i` passes the filter. Sizes are those with everything below.
pub open spec fn passes(filter: QueryFilter, g: Seq<EntryView>, i: int) -> bool {
    let entry = g[i];
    &&& filter.include_directories || !is_directory(entry.flags)
    &&& within_bounds(
        total_size(g, i) as int,
        size_bound(filter.min_size),
        size_bound(filter.max_size),
    )
    &&& within_bounds(
        total_allocated(g, i) as int,
        size_bound(filter.min_allocated),
        size_bound(filter.max_allocated),
    )
    &&& within_bounds(
        entry.modified as int,
        time_bound(filter.modified_after),
        time_bound(filter.modified_before),
    )
    &&& filter.extension matches Some(wanted) ==> {
        extension_spec(entry.name) matches Some(own) && lower_all(own) == lower_all(wanted@)
    }
    &&& filter.name matches Some(matcher) ==> accepts(matcher, entry.name)
    &&& filter.path matches Some(matcher) ==> accepts(matcher, path_of(g, i))
}

fn is_within_sizes(value: u64, min: Option<u64>, max: Option<u64>) -> (r: bool)
    ensures
        r == within_bounds(value as int, size_bound(min), size_bound(max)),
{
    (match min {
        Some(least) => least <= value,
        None => true,
    }) && (match max {
        Some(most) => value <= most,
        None => true,
    })
}

fn is_within_times(value: i64, min: Option<i64>, max: Option<i64>) -> (r: bool)
    ensures
        r == within_bounds(value as int, time_bound(min), time_bound(max)),
{
    (match min {
        Some(least) => least <= value,
        None => true,
    }) && (match max {
        Some(most) => value <= most,
        None => true,
    })
}

/// A filter that is ready to be asked.
#[derive(Debug, Clone)]
pub struct CompiledFilter {
    filter: QueryFilter,
}

impl View for CompiledFilter {
    type V = QueryFilter;

    closed spec fn view(&self) -> QueryFilter {
        self.filter
    }
}

impl QueryFilter {
    /// Makes the filter ready to be asked.
    pub fn compile(self) -> (r: Result<CompiledFilter, FilterError>)
        ensures
            r matches Ok(compiled) && compiled@ == self,
    {
        Ok(CompiledFilter { filter: self })
    }
}

/// The numbers of the entries that pass the filter, ascending.
pub open spec fn passing(filter: QueryFilter, g: Seq<EntryView>) -> Seq<u32> {
    select(g.len(), |i: int| passes(filter, g, i))
}

impl CompiledFilter {
    /// Whether the entry `id` passes the filter.
    #[must_use]
    pub fn matches(&self, graph: &FileGraph, id: EntryId) -> (r: bool)
        requires
            graph.wf(),
        ensures
            r == (id.0 < graph@.len() && passes(self@, graph@, id.0 as int)),
    {
        let filter = &self.filter;
        match (graph.entry(id), graph.stats(id)) {
            (Some(entry), Some(stats)) => {
                if !filter.include_directories && entry.flags.contains(EntryFlags::DIRECTORY) {
                    return false;
                }
                if !is_within_sizes(stats.total_size.bytes(), filter.min_size, filter.max_size) {
                    return false;
                }
                if !is_within_sizes(
                    stats.total_allocated.bytes(),
                    filter.min_allocated,
                    filter.max_allocated,
                ) {
                    return false;
                }
                if !is_within_times(
                    entry.modified_unix,
                    filter.modified_after,
                    filter.modified_before,
                ) {
                    return false;
                }
            },
            _ => {
                return false;
            },
        }
        self.matches_extension(graph, id) && self.matches_name(graph, id) && self.matches_path(graph, id)
    }

    fn matches_extension(&self, graph: &FileGraph, id: EntryId) -> (r: bool)
        requires
            graph.wf(),
            id.0 < graph@.len(),
        ensures
            r == (self@.extension matches Some(wanted) ==> {
                extension_spec(graph@[id.0 as int].name) matches Some(own) && lower_all(own)
                    == lower_all(wanted@)
            }),
    {
        match (&self.filter.extension, graph.name(id)) {
            (Some(wanted), Some(name)) => match extension(name) {
                Some(own) => eq_ignore_ascii_case(&own, wanted),
                None => false,
            },
            _ => true,
        }
    }

    fn matches_name(&self, graph: &FileGraph, id: EntryId) -> (r: bool)
        requires
            graph.wf(),
            id.0 < graph@.len(),
        ensures
            r == (self@.name matches Some(matcher) ==> accepts(matcher, graph@[id.0 as int].name)),
    {
        match (&self.filter.name, graph.name(id)) {
            (Some(matcher), Some(name)) => matcher.matches(name),
            _ => true,
        }
    }

    fn matches_path(&self, graph: &FileGraph, id: EntryId) -> (r: bool)
        requires
            graph.wf(),
            id.0 < graph@.len(),
        ensures
            r == (self@.path matches Some(matcher) ==> accepts(
                matcher,
                path_of(graph@, id.0 as int),
            )),
    {
        match &self.filter.path {
            Some(matcher) => match graph.reconstruct_path(id) {
                Some(path) => matcher.matches(&path),
                None => false,
            },
            None => true,
        }
    }

    /// The entries that pass the filter, ascending.
    #[must_use]
    pub fn matching_ids(&self, graph: &FileGraph) -> (r: Vec<EntryId>)
        requires
            graph.wf(),
        ensures
            raw_ids(r@) == passing(self@, graph@),
    {
        let ghost g = graph@;
        let ghost pass = |i: int| passes(self@, g, i);
        proof {
            graph.lemma_wf();
        }
        let mut r: Vec<EntryId> = Vec::new();
        let n = graph.len();
        let mut i: usize = 0;
        assert(raw_ids(r@) =~= Seq::<u32>::empty());
        while i < n
            invariant
                graph.wf(),
                g == graph@,
                n == g.len(),
                n <= u32::MAX + 1,
                i <= n,
                pass == (|i: int| passes(self@, g, i)),
                raw_ids(r@) == select(i as nat, pass),
            decreases n - i,
        {
            let ghost shown = r@;
            let id = EntryId(i as u32);
            if self.matches(graph, id) {
                assert(pass(i as int));
                r.push(id);
                assert(raw_ids(r@) =~= raw_ids(shown).push(i as u32));
            }
            i += 1;
        }
        r
    }
}

/// Every entry passes the default filter.
pub proof fn the_default_filter_passes_everything(filter: QueryFilter, g: Seq<EntryView>, i: int)
    requires
        filter == (QueryFilter {
            name: None,
            extension: None,
            path: None,
            min_size: None,
            max_size: None,
            min_allocated: None,
            max_allocated: None,
            modified_after: None,
            modified_before: None,
            include_directories: true,
        }),
        0 <= i < g.len(),
    ensures
        passes(filter, g, i),
{
}

// ---------------------------------------------------------------------------------------------
// Laws
// ---------------------------------------------------------------------------------------------

/// The bounds on the size ask for the sum of the sizes of an entry and all that lies below it, and
/// nothing else that the filter asks for changes with them.
pub proof fn sizes_are_asked_for_with_all_below(filter: QueryFilter, g: Seq<EntryView>, i: int)
    requires
        0 <= i < g.len(),
    ensures
        ({
            let sum = subtree_sum(g, i, |j: int| g[j].size as nat, g.len() as int);
            &&& filter.min_size matches Some(least) ==> (passes(filter, g, i) <==> passes(
                (QueryFilter { min_size: None, ..filter }),
                g,
                i,
            ) && sum >= least)
            &&& filter.max_size matches Some(most) ==> (passes(filter, g, i) <==> passes(
                (QueryFilter { max_size: None, ..filter }),
                g,
                i,
            ) && (sum <= most || most == u64::MAX))
        }),
{
}

/// The bounds on the allocated size ask for the sum of those of an entry and all that lies below it,
/// and nothing else that the filter asks for changes with them.
pub proof fn allocations_are_asked_for_with_all_below(filter: QueryFilter, g: Seq<EntryView>, i: int)
    requires
        0 <= i < g.len(),
    ensures
        ({
            let sum = subtree_sum(g, i, |j: int| g[j].allocated as nat, g.len() as int);
            &&& filter.min_allocated matches Some(least) ==> (passes(filter, g, i) <==> passes(
                (QueryFilter { min_allocated: None, ..filter }),
                g,
                i,
            ) && sum >= least)
            &&& filter.max_allocated matches Some(most) ==> (passes(filter, g, i) <==> passes(
                (QueryFilter { max_allocated: None, ..filter }),
                g,
                i,
            ) && (sum <= most || most == u64::MAX))
        }),
{
}

/// The bounds on the time ask for when the entry itself was changed, both of them inclusive, and
/// directories can be left out, each without a change to what else the filter asks for.
pub proof fn times_and_kinds_are_asked_for(filter: QueryFilter, g: Seq<EntryView>, i: int)
    requires
        0 <= i < g.len(),
    ensures
        filter.modified_after matches Some(first) ==> (passes(filter, g, i) <==> passes(
            (QueryFilter { modified_after: None, ..filter }),
            g,
            i,
        ) && g[i].modified >= first),
        filter.modified_before matches Some(last) ==> (passes(filter, g, i) <==> passes(
            (QueryFilter { modified_before: None, ..filter }),
            g,
            i,
        ) && g[i].modified <= last),
        !filter.include_directories ==> (passes(filter, g, i) <==> passes(
            (QueryFilter { include_directories: true, ..filter }),
            g,
            i,
        ) && g[i].flags % 2 == 0),
{
    let flags = g[i].flags;
    assert((flags & 1 == 1) == (flags % 2 == 1)) by (bit_vector);
    assert(flags % 2 == 0 || flags % 2 == 1) by (bit_vector);
}

/// A matcher for names is asked about the entry's name, and one for paths about its path; what else
/// the filter asks for stays.
pub proof fn names_and_paths_are_asked_for(filter: QueryFilter, g: Seq<EntryView>, i: int)
    requires
        0 <= i < g.len(),
    ensures
        filter.name matches Some(matcher) ==> (passes(filter, g, i) <==> passes(
            (QueryFilter { name: None, ..filter }),
            g,
            i,
        ) && accepts(matcher, g[i].name)),
        filter.path matches Some(matcher) ==> (passes(filter, g, i) <==> passes(
            (QueryFilter { path: None, ..filter }),
            g,
            i,
        ) && accepts(matcher, path_of(g, i))),
{
}

/// An extension is asked for whatever the case of its ASCII letters: it is what stands behind the last
/// dot of the name, which has to have something before that dot.
pub proof fn extensions_are_asked_for(
    filter: QueryFilter,
    g: Seq<EntryView>,
    i: int,
    stem: Seq<char>,
    own: Seq<char>,
)
    requires
        0 <= i < g.len(),
        g[i].name == stem + seq!['.'] + own,
        is_plain_name(g[i].name),
        !own.contains('.'),
    ensures
        filter.extension matches Some(wanted) ==> (passes(filter, g, i) <==> passes(
            (QueryFilter { extension: None, ..filter }),
            g,
            i,
        ) && stem.len() > 0 && own.len() == wanted@.len() && forall|k: int|
            0 <= k < own.len() ==> same_letter(#[trigger] own[k], wanted@[k])),
{
    an_extension_stands_behind_the_last_dot(stem, own);
    if let Some(wanted) = filter.extension {
        assert forall|k: int| 0 <= k < own.len() && own.len() == wanted@.len() implies (lower_all(own)[k]
            == lower_all(wanted@)[k]) == same_letter(#[trigger] own[k], wanted@[k]) by {}
        if lower_all(own) == lower_all(wanted@) {
            assert(lower_all(own).len() == own.len() && lower_all(wanted@).len() == wanted@.len());
            assert forall|k: int| 0 <= k < own.len() implies same_letter(
                #[trigger] own[k],
                wanted@[k],
            ) by {
                assert(lower_all(own)[k] == lower_all(wanted@)[k]);
            }
        }
        if own.len() == wanted@.len() && (forall|k: int|
            0 <= k < own.len() ==> same_letter(#[trigger] own[k], wanted@[k])) {
            assert(lower_all(own) =~= lower_all(wanted@));
        }
    }
}

/// A name without a dot has no extension that could be asked for.
pub proof fn a_name_without_a_dot_has_no_extension(filter: QueryFilter, g: Seq<EntryView>, i: int)
    requires
        0 <= i < g.len(),
        is_plain_name(g[i].name),
        !g[i].name.contains('.'),
        filter.extension is Some,
    ensures
        !passes(filter, g, i),
{
    no_extension_without_a_dot(g[i].name);
}

/// Whether two characters are the same, or a capital ASCII letter and its small one.
pub open spec fn same_letter(a: char, b: char) -> bool {
    a == b || ('A' <= a <= 'Z' && b as u32 == a as u32 + 32) || ('A' <= b <= 'Z' && a as u32 == b as u32
        + 32)
}

/// Where an entry is large enough for a filter that asks for no more than least sizes, so are all the
/// entries above it.
pub proof fn what_holds_a_large_entry_is_large(filter: QueryFilter, g: Seq<EntryView>, i: u32, a: u32)
    requires
        is_forest(g),
        i < g.len(),
        a < g.len(),
        within(g, i as int, a as int),
        filter == (QueryFilter {
            name: None,
            extension: None,
            path: None,
            min_size: filter.min_size,
            max_size: None,
            min_allocated: filter.min_allocated,
            max_allocated: None,
            modified_after: None,
            modified_before: None,
            include_directories: true,
        }),
        passes(filter, g, i as int),
    ensures
        passes(filter, g, a as int),
{
    an_entry_fits_into_those_above(g, i, a);
}

/// A search lists an entry exactly where it passes the filter, and lists each once, in the order of
/// their numbers.
pub proof fn a_search_lists_what_passes(filter: QueryFilter, g: Seq<EntryView>)
    requires
        g.len() <= u32::MAX + 1,
    ensures
        forall|i: u32| #[trigger]
            passing(filter, g).contains(i) <==> i < g.len() && passes(filter, g, i as int),
        forall|j: int, k: int|
            0 <= j < k < passing(filter, g).len() ==> #[trigger] passing(filter, g)[j]
                < #[trigger] passing(filter, g)[k],
{
    let pass = |i: int| passes(filter, g, i);
    select_picks(g.len(), pass);
    assert forall|i: u32| #[trigger] passing(filter, g).contains(i) <==> i < g.len() && passes(
        filter,
        g,
        i as int,
    ) by {
        if passing(filter, g).contains(i) {
            let k = choose|k: int| 0 <= k < passing(filter, g).len() && passing(filter, g)[k] == i;
            assert(pass(passing(filter, g)[k] as int));
        }
        if i < g.len() && passes(filter, g, i as int) {
            assert(pass(i as int));
        }
    }
}

/// A matcher for a text accepts what holds the text in any case, whatever stands around it.
pub proof fn a_text_is_found_wherever_it_stands(
    needle: String,
    text: Seq<char>,
    before: Seq<char>,
    behind: Seq<char>,
)
    requires
        unicode_lowercase(text) == before + unicode_lowercase(needle@) + behind,
    ensures
        accepts(NameMatcher::Contains(needle), text),
{
    let low = unicode_lowercase(needle@);
    let whole = unicode_lowercase(text);
    let at = before.len() as int;
    assert(whole.subrange(at, at + low.len()) =~= low);
    assert(occurs_at(whole, low, at));
}

/// A matcher for a text accepts nothing whose small letters do not hold those of the text.
pub proof fn what_is_found_holds_the_text(needle: String, text: Seq<char>)
    requires
        accepts(NameMatcher::Contains(needle), text),
    ensures
        exists|before: Seq<char>, behind: Seq<char>|
            unicode_lowercase(text) == #[trigger] (before + unicode_lowercase(needle@) + behind),
{
    let low = unicode_lowercase(needle@);
    let whole = unicode_lowercase(text);
    let at = choose|at: int| occurs_at(whole, low, at);
    let before = whole.take(at);
    let behind = whole.skip(at + low.len());
    assert(whole =~= before + low + behind);
}

} // verus!
