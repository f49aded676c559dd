use vstd::prelude::*;
use crate::tokens::spec_tokenize;

verus! {

/// How strongly title hits outrank body hits. The multiplier is kept in
/// half-units: Minimal is 1, Moderate 1.5, Large 2, Ridiculous 3.
#[derive(Clone, Copy, PartialEq, Eq, Structural, Debug)]
pub enum TitleBoost {
    Minimal,
    Moderate,
    Large,
    Ridiculous,
}

/// The title-boost multiplier in half-units: a body word weighs 2.
pub open spec fn spec_boost_halves(b: TitleBoost) -> u32 {
    match b {
        TitleBoost::Minimal => 2,
        TitleBoost::Moderate => 3,
        TitleBoost::Large => 4,
        TitleBoost::Ridiculous => 6,
    }
}

/// The title-boost multiplier in half-units.
pub fn boost_halves(b: TitleBoost) -> (r: u32)
    ensures
        r == spec_boost_halves(b),
{
    match b {
        TitleBoost::Minimal => 2,
        TitleBoost::Moderate => 3,
        TitleBoost::Large => 4,
        TitleBoost::Ridiculous => 6,
    }
}

/// One word hit inside a document: which word of the title or body word list
/// it is, the character offset of the raw word in its source text, and its
/// importance weight in half-units.
#[derive(Clone, Copy, PartialEq, Eq, Structural, Debug)]
pub struct Excerpt {
    pub word_index: usize,
    pub offset: usize,
    pub importance: u32,
    pub in_title: bool,
}

/// The hits of one entry within one container, with the 8-bit secondary score.
#[derive(Debug, PartialEq)]
pub struct SearchResult {
    pub excerpts: Vec<Excerpt>,
    pub score: u8,
}

/// The mathematical shape of a `SearchResult`.
pub struct SearchResultV {
    pub excerpts: Seq<Excerpt>,
    pub score: u8,
}

impl View for SearchResult {
    type V = SearchResultV;

    open spec fn view(&self) -> SearchResultV {
        SearchResultV { excerpts: self.excerpts@, score: self.score }
    }
}

/// The inverted-index value for one term: the entries that contain it, and
/// aliases to related terms with a similarity weight in 1/1024 units.
#[derive(Debug, PartialEq)]
pub struct Container {
    pub results: Vec<(usize, SearchResult)>,
    pub aliases: Vec<(String, u32)>,
}

/// The mathematical shape of a `Container`.
pub struct ContainerV {
    pub results: Seq<(usize, SearchResultV)>,
    pub aliases: Seq<(Seq<char>, u32)>,
}

/// The views of a result list.
pub open spec fn results_view(s: Seq<(usize, SearchResult)>) -> Seq<(usize, SearchResultV)> {
    s.map_values(|p: (usize, SearchResult)| (p.0, p.1@))
}

/// The views of an alias list.
pub open spec fn aliases_view(s: Seq<(String, u32)>) -> Seq<(Seq<char>, u32)> {
    s.map_values(|p: (String, u32)| (p.0@, p.1))
}

impl View for Container {
    type V = ContainerV;

    open spec fn view(&self) -> ContainerV {
        ContainerV { results: results_view(self.results@), aliases: aliases_view(self.aliases@) }
    }
}

/// One indexed document, frozen after the build.
#[derive(Debug, PartialEq)]
pub struct Entry {
    pub title: String,
    pub url: String,
    pub contents: String,
    pub fields: Vec<(String, String)>,
}

/// The mathematical shape of an `Entry`.
pub struct EntryV {
    pub title: Seq<char>,
    pub url: Seq<char>,
    pub contents: Seq<char>,
    pub fields: Seq<(Seq<char>, Seq<char>)>,
}

/// The views of a label-to-text field list.
pub open spec fn fields_view(s: Seq<(String, String)>) -> Seq<(Seq<char>, Seq<char>)> {
    s.map_values(|p: (String, String)| (p.0@, p.1@))
}

impl View for Entry {
    type V = EntryV;

    open spec fn view(&self) -> EntryV {
        EntryV {
            title: self.title@,
            url: self.url@,
            contents: self.contents@,
            fields: fields_view(self.fields@),
        }
    }
}

/// The slice of the build configuration that the query engine needs.
#[derive(Debug, PartialEq)]
pub struct PassthroughConfig {
    pub url_prefix: String,
    pub title_boost: TitleBoost,
    pub excerpt_buffer: usize,
    pub excerpts_per_result: usize,
    pub displayed_results_count: usize,
}

/// The mathematical shape of a `PassthroughConfig`.
pub struct PassthroughConfigV {
    pub url_prefix: Seq<char>,
    pub title_boost: TitleBoost,
    pub excerpt_buffer: usize,
    pub excerpts_per_result: usize,
    pub displayed_results_count: usize,
}

impl View for PassthroughConfig {
    type V = PassthroughConfigV;

    open spec fn view(&self) -> PassthroughConfigV {
        PassthroughConfigV {
            url_prefix: self.url_prefix@,
            title_boost: self.title_boost,
            excerpt_buffer: self.excerpt_buffer,
            excerpts_per_result: self.excerpts_per_result,
            displayed_results_count: self.displayed_results_count,
        }
    }
}

/// The root of a built index: the entry table, the inverted containers keyed
/// by term, and the passed-through configuration.
#[derive(Debug, PartialEq)]
pub struct Index {
    pub entries: Vec<Entry>,
    pub containers: Vec<(String, Container)>,
    pub config: PassthroughConfig,
}

/// The mathematical shape of an `Index`.
pub struct IndexV {
    pub entries: Seq<EntryV>,
    pub containers: Seq<(Seq<char>, ContainerV)>,
    pub config: PassthroughConfigV,
}

/// The views of an entry table.
pub open spec fn entries_view(s: Seq<Entry>) -> Seq<EntryV> {
    s.map_values(|e: Entry| e@)
}

/// The views of a keyed container list.
pub open spec fn containers_view(s: Seq<(String, Container)>) -> Seq<(Seq<char>, ContainerV)> {
    s.map_values(|p: (String, Container)| (p.0@, p.1@))
}

impl View for Index {
    type V = IndexV;

    open spec fn view(&self) -> IndexV {
        IndexV {
            entries: entries_view(self.entries@),
            containers: containers_view(self.containers@),
            config: self.config@,
        }
    }
}

/// The position of the first pair keyed `key`, or -1 when none is.
pub open spec fn spec_find_pair<K, T>(s: Seq<(K, T)>, key: K) -> int
    decreases s.len(),
{
    if s.len() == 0 {
        -1
    } else if s[0].0 == key {
        0
    } else {
        let r = spec_find_pair(s.drop_first(), key);
        if r < 0 {
            -1
        } else {
            r + 1
        }
    }
}

/// What `spec_find_pair` returns: -1 and no match anywhere, or the first
/// matching position.
pub proof fn lemma_find_pair<K, T>(s: Seq<(K, T)>, key: K)
    ensures
        spec_find_pair(s, key) == -1 ==> forall|j: int| 0 <= j < s.len() ==> s[j].0 != key,
        spec_find_pair(s, key) >= 0 ==> spec_find_pair(s, key) < s.len() && s[
            spec_find_pair(s, key)
        ].0 == key && forall|j: int| 0 <= j < spec_find_pair(s, key) ==> s[j].0 != key,
    decreases s.len(),
{
    if s.len() > 0 && s[0].0 != key {
        lemma_find_pair(s.drop_first(), key);
        assert forall|j: int| 1 <= j < s.len() implies s.drop_first()[j - 1] == s[j] by {}
    }
}

/// The position where the first match sits pins `spec_find_pair` down.
pub proof fn lemma_find_pair_is<K, T>(s: Seq<(K, T)>, key: K, i: int)
    requires
        0 <= i < s.len(),
        s[i].0 == key,
        forall|j: int| 0 <= j < i ==> s[j].0 != key,
    ensures
        spec_find_pair(s, key) == i,
    decreases i,
{
    if i > 0 {
        assert forall|j: int| 1 <= j < s.len() implies s.drop_first()[j - 1] == s[j] by {}
        lemma_find_pair_is(s.drop_first(), key, i - 1);
    }
}

/// With no match anywhere, `spec_find_pair` is -1.
pub proof fn lemma_find_pair_none<K, T>(s: Seq<(K, T)>, key: K)
    requires
        forall|j: int| 0 <= j < s.len() ==> s[j].0 != key,
    ensures
        spec_find_pair(s, key) == -1,
    decreases s.len(),
{
    if s.len() > 0 {
        assert forall|j: int| 1 <= j < s.len() implies s.drop_first()[j - 1] == s[j] by {}
        lemma_find_pair_none(s.drop_first(), key);
    }
}

/// The position of the first container keyed `key`, or -1 when none is.
pub open spec fn spec_find_container(cs: Seq<(Seq<char>, ContainerV)>, key: Seq<char>) -> int {
    spec_find_pair(cs, key)
}

/// The number of indexed words of an entry on one side: its title words or
/// its body words.
pub open spec fn spec_word_count(e: EntryV, in_title: bool) -> nat {
    if in_title {
        spec_tokenize(e.title).len()
    } else {
        spec_tokenize(e.contents).len()
    }
}

/// Every excerpt of the container points into the entry table, and its word
/// index lies within the word count of the entry's side it names.
pub open spec fn wf_container_results(entries: Seq<EntryV>, c: ContainerV) -> bool {
    forall|j: int, k: int|
        0 <= j < c.results.len() && 0 <= k < c.results[j].1.excerpts.len() ==> c.results[j].0
            < entries.len() && c.results[j].1.excerpts[k].word_index < spec_word_count(
            entries[c.results[j].0 as int],
            c.results[j].1.excerpts[k].in_title,
        )
}

/// Every alias of the container points at a container that exists and has at
/// least one result.
pub open spec fn wf_container_aliases(
    cs: Seq<(Seq<char>, ContainerV)>,
    c: ContainerV,
) -> bool {
    forall|j: int|
        0 <= j < c.aliases.len() ==> {
            let t = spec_find_container(cs, #[trigger] c.aliases[j].0);
            t >= 0 && cs[t].1.results.len() > 0
        }
}

/// Well-formedness of a built index: every excerpt is in bounds and every
/// alias target exists with non-empty results.
pub open spec fn wf_index(iv: IndexV) -> bool {
    forall|i: int|
        0 <= i < iv.containers.len() ==> wf_container_results(iv.entries, iv.containers[i].1)
            && wf_container_aliases(iv.containers, iv.containers[i].1)
}

} // verus!
