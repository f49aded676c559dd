use vstd::prelude::*;
use vstd::string::StringExecFns;
use vstd::string::StrSliceExecFns;
use crate::tokens::AnnotatedWord;
use crate::tokens::AnnotatedWordV;
use crate::tokens::words_view;
use crate::tokens::spec_tokenize;
use crate::tokens::chars_of;
use crate::tokens::tokenize;
use crate::config::Config;
use crate::config::ConfigV;
use crate::config::File;
use crate::config::FileV;
use crate::config::DataSource;
use crate::config::DataSourceV;
use crate::config::Filetype;
use crate::config::StemAlgorithm;
use crate::config::StemmingConfig;
use crate::errors::DocumentError;
use crate::errors::DocumentErrorV;
use crate::errors::DocumentProblem;
use crate::errors::DocumentProblemV;
use crate::errors::IndexGenerationError;
use crate::model::Container;
use crate::model::ContainerV;
use crate::model::Entry;
use crate::model::EntryV;
use crate::model::Excerpt;
use crate::model::Index;
use crate::model::IndexV;
use crate::model::PassthroughConfig;
use crate::model::PassthroughConfigV;
use crate::model::SearchResult;
use crate::model::SearchResultV;
use crate::model::aliases_view;
use crate::model::containers_view;
use crate::model::entries_view;
use crate::model::fields_view;
use crate::model::results_view;
use crate::model::spec_boost_halves;
use crate::model::boost_halves;
use crate::model::spec_find_pair;
use crate::model::lemma_find_pair;
use crate::model::lemma_find_pair_is;
use crate::model::lemma_find_pair_none;
use crate::stems::spec_lang_id;
use crate::stems::stem_of;
use crate::stems::stem_word;

verus! {

/// The needle occurs in the haystack starting at position `i`.
pub open spec fn spec_contains_at(hay: Seq<char>, needle: Seq<char>, i: int) -> bool {
    0 <= i && i + needle.len() <= hay.len() && hay.subrange(i, i + needle.len()) == needle
}

/// The needle occurs somewhere in the haystack.
pub open spec fn spec_contains(hay: Seq<char>, needle: Seq<char>) -> bool {
    exists|i: int| spec_contains_at(hay, needle, i)
}

/// Decides whether one character sequence occurs inside another.
pub fn contains_sub(hay: &Vec<char>, needle: &Vec<char>) -> (r: bool)
    ensures
        r == spec_contains(hay@, needle@),
{
    let n = needle.len();
    let h = hay.len();
    if n > h {
        proof {
            assert(forall|i: int| !spec_contains_at(hay@, needle@, i));
        }
        return false;
    }
    if n == 0 {
        proof {
            assert(hay@.subrange(0, 0) =~= needle@);
            assert(spec_contains_at(hay@, needle@, 0));
        }
        return true;
    }
    let mut i: usize = 0;
    while i <= h - n
        invariant
            0 < n <= h,
            h == hay@.len(),
            n == needle@.len(),
            i <= h - n + 1,
            forall|ii: int| 0 <= ii < i ==> !spec_contains_at(hay@, needle@, ii),
        decreases h + 1 - n - i,
    {
        let mut j: usize = 0;
        let mut mismatch: bool = false;
        while j < n
            invariant
                n <= h,
                h == hay@.len(),
                n == needle@.len(),
                i + n <= h,
                j <= n,
                !mismatch ==> forall|jj: int| 0 <= jj < j ==> hay@[i + jj] == needle@[jj],
                mismatch ==> hay@.subrange(i as int, i + n) != needle@,
            decreases n - j,
        {
            if hay[i + j] != needle[j] {
                proof {
                    assert(hay@.subrange(i as int, i + n)[j as int] != needle@[j as int]);
                }
                mismatch = true;
            }
            j = j + 1;
        }
        if !mismatch {
            proof {
                assert(hay@.subrange(i as int, i + n) =~= needle@);
                assert(spec_contains_at(hay@, needle@, i as int));
            }
            return true;
        }
        i = i + 1;
    }
    proof {
        assert(forall|ii: int| i <= ii ==> !spec_contains_at(hay@, needle@, ii));
    }
    false
}

/// The text that must occur for a selector to count as present: a class
/// selector `.name` looks for `class="name"`, any other selector is looked
/// for literally.
pub open spec fn spec_selector_needle(sel: Seq<char>) -> Seq<char> {
    if sel.len() > 0 && sel[0] == '.' {
        "class=\""@ + sel.subrange(1, sel.len() as int) + "\""@
    } else {
        sel
    }
}

/// Decides whether the configured selector is present in a document's text.
pub fn selector_present(text: &String, sel: &String) -> (r: bool)
    ensures
        r == spec_contains(text@, spec_selector_needle(sel@)),
{
    let selc = chars_of(sel.as_str());
    let needle: Vec<char> = if selc.len() > 0 && selc[0] == '.' {
        let mut nd = chars_of("class=\"");
        let mut i: usize = 1;
        while i < selc.len()
            invariant
                1 <= i <= selc@.len(),
                nd@ =~= "class=\""@ + selc@.subrange(1, i as int),
            decreases selc@.len() - i,
        {
            nd.push(selc[i]);
            i = i + 1;
            proof {
                assert(nd@ =~= "class=\""@ + selc@.subrange(1, i as int));
            }
        }
        let mut quote = chars_of("\"");
        nd.append(&mut quote);
        proof {
            assert(nd@ =~= spec_selector_needle(sel@));
        }
        nd
    } else {
        selc
    };
    let textc = chars_of(text.as_str());
    contains_sub(&textc, &needle)
}

/// One document after its source was resolved and tokenized, before assembly.
pub struct IntermediateEntry {
    pub title: String,
    pub url: String,
    pub contents: String,
    pub title_words: Vec<AnnotatedWord>,
    pub body_words: Vec<AnnotatedWord>,
    pub fields: Vec<(String, String)>,
}

/// The mathematical shape of an `IntermediateEntry`.
pub struct IntermediateEntryV {
    pub title: Seq<char>,
    pub url: Seq<char>,
    pub contents: Seq<char>,
    pub title_words: Seq<AnnotatedWordV>,
    pub body_words: Seq<AnnotatedWordV>,
    pub fields: Seq<(Seq<char>, Seq<char>)>,
}

impl View for IntermediateEntry {
    type V = IntermediateEntryV;

    open spec fn view(&self) -> IntermediateEntryV {
        IntermediateEntryV {
            title: self.title@,
            url: self.url@,
            contents: self.contents@,
            title_words: words_view(self.title_words@),
            body_words: words_view(self.body_words@),
            fields: fields_view(self.fields@),
        }
    }
}

/// The views of a list of intermediate entries.
pub open spec fn ie_view(s: Seq<IntermediateEntry>) -> Seq<IntermediateEntryV> {
    s.map_values(|e: IntermediateEntry| e@)
}

/// Resolves one configured file to its indexable text. Paths and URLs must
/// have been resolved to inline contents by the caller; an HTML document with
/// a configured selector counts only when the selector is present.
pub open spec fn spec_extract(f: FileV, default_selector: Option<Seq<char>>) -> Result<
    Seq<char>,
    DocumentProblemV,
> {
    match f.source {
        DataSourceV::Contents(text) => match f.filetype {
            Option::None => Result::Err(DocumentProblemV::UnsupportedFiletype),
            Option::Some(Filetype::HTML) => {
                let sel = if f.html_selector_override is Some {
                    Option::Some(f.html_selector_override->0)
                } else {
                    default_selector
                };
                match sel {
                    Option::None => Result::Ok(text),
                    Option::Some(s) => if spec_contains(text, spec_selector_needle(s)) {
                        Result::Ok(text)
                    } else {
                        Result::Err(DocumentProblemV::HtmlSelectorNotPresent(s))
                    },
                }
            },
            Option::Some(_) => Result::Ok(text),
        },
        DataSourceV::FilePath(_) => Result::Err(
            DocumentProblemV::CannotReadSource("file not resolved to contents"@),
        ),
        DataSourceV::URL(_) => Result::Err(
            DocumentProblemV::CannotReadSource("URL not resolved to contents"@),
        ),
    }
}

/// The view of an optional selector string.
pub open spec fn sel_view(o: Option<String>) -> Option<Seq<char>> {
    match o {
        Option::Some(s) => Option::Some(s@),
        Option::None => Option::None,
    }
}

/// Resolves one configured file to its text, as `spec_extract` says.
fn extract_text(f: &File, default_selector: &Option<String>) -> (r: Result<
    String,
    DocumentProblem,
>)
    ensures
        match r {
            Result::Ok(s) => spec_extract(f@, sel_view(*default_selector)) == Result::Ok::<
                Seq<char>,
                DocumentProblemV,
            >(s@),
            Result::Err(p) => spec_extract(f@, sel_view(*default_selector)) == Result::Err::<
                Seq<char>,
                DocumentProblemV,
            >(p@),
        },
{
    match &f.source {
        DataSource::Contents(text) => match f.filetype {
            Option::None => Result::Err(DocumentProblem::UnsupportedFiletype),
            Option::Some(Filetype::HTML) => {
                let sel: Option<&String> = match &f.html_selector_override {
                    Option::Some(s) => Option::Some(s),
                    Option::None => match default_selector {
                        Option::Some(s) => Option::Some(s),
                        Option::None => Option::None,
                    },
                };
                match sel {
                    Option::None => Result::Ok(text.clone()),
                    Option::Some(s) => {
                        if selector_present(text, s) {
                            Result::Ok(text.clone())
                        } else {
                            Result::Err(DocumentProblem::HtmlSelectorNotPresent(s.clone()))
                        }
                    },
                }
            },
            Option::Some(_) => Result::Ok(text.clone()),
        },
        DataSource::FilePath(_) => Result::Err(
            DocumentProblem::CannotReadSource(String::from_str("file not resolved to contents")),
        ),
        DataSource::URL(_) => Result::Err(
            DocumentProblem::CannotReadSource(String::from_str("URL not resolved to contents")),
        ),
    }
}

/// Turns one configured file into an intermediate entry, or the document
/// error that stops it: an unreadable or unsupported source, a missing HTML
/// selector, or a body that tokenizes to no words at all.
pub open spec fn spec_make_intermediate(f: FileV, default_selector: Option<Seq<char>>) -> Result<
    IntermediateEntryV,
    DocumentErrorV,
> {
    match spec_extract(f, default_selector) {
        Result::Err(p) => Result::Err(DocumentErrorV { file_title: f.title, problem: p }),
        Result::Ok(text) => {
            let body = spec_tokenize(text);
            if body.len() == 0 {
                Result::Err(
                    DocumentErrorV { file_title: f.title, problem: DocumentProblemV::EmptyWordList },
                )
            } else {
                Result::Ok(
                    IntermediateEntryV {
                        title: f.title,
                        url: f.url,
                        contents: text,
                        title_words: spec_tokenize(f.title),
                        body_words: body,
                        fields: f.fields,
                    },
                )
            }
        },
    }
}

/// Clones a field list.
pub fn clone_fields_pub(fields: &Vec<(String, String)>) -> (r: Vec<(String, String)>)
    ensures
        fields_view(r@) == fields_view(fields@),
{
    clone_fields(fields)
}

/// Clones a field list.
fn clone_fields(fields: &Vec<(String, String)>) -> (r: Vec<(String, String)>)
    ensures
        fields_view(r@) == fields_view(fields@),
{
    let mut out: Vec<(String, String)> = Vec::new();
    let mut i: usize = 0;
    while i < fields.len()
        invariant
            i <= fields@.len(),
            out@.len() == i,
            forall|k: int|
                0 <= k < i ==> out@[k].0@ == fields@[k].0@ && out@[k].1@ == fields@[k].1@,
        decreases fields@.len() - i,
    {
        let p = (fields[i].0.clone(), fields[i].1.clone());
        out.push(p);
        i = i + 1;
    }
    proof {
        assert forall|k: int| 0 <= k < fields@.len() implies fields_view(out@)[k] == fields_view(
            fields@,
        )[k] by {
            assert(fields_view(out@)[k] == (out@[k].0@, out@[k].1@));
            assert(fields_view(fields@)[k] == (fields@[k].0@, fields@[k].1@));
        }
        assert(fields_view(out@) =~= fields_view(fields@));
    }
    out
}

/// Turns one configured file into an intermediate entry, as
/// `spec_make_intermediate` says.
fn make_intermediate(f: &File, default_selector: &Option<String>) -> (r: Result<
    IntermediateEntry,
    DocumentError,
>)
    ensures
        match r {
            Result::Ok(e) => spec_make_intermediate(f@, sel_view(*default_selector))
                == Result::Ok::<IntermediateEntryV, DocumentErrorV>(e@),
            Result::Err(d) => spec_make_intermediate(f@, sel_view(*default_selector))
                == Result::Err::<IntermediateEntryV, DocumentErrorV>(d@),
        },
{
    match extract_text(f, default_selector) {
        Result::Err(p) => Result::Err(
            DocumentError { file_title: f.title.clone(), problem: p },
        ),
        Result::Ok(text) => {
            let body_chars = chars_of(text.as_str());
            let body_words = tokenize(&body_chars);
            if body_words.len() == 0 {
                proof {
                    assert(words_view(body_words@).len() == 0);
                }
                Result::Err(
                    DocumentError {
                        file_title: f.title.clone(),
                        problem: DocumentProblem::EmptyWordList,
                    },
                )
            } else {
                let title_chars = chars_of(f.title.as_str());
                let title_words = tokenize(&title_chars);
                Result::Ok(
                    IntermediateEntry {
                        title: f.title.clone(),
                        url: f.url.clone(),
                        contents: text,
                        title_words,
                        body_words,
                        fields: clone_fields(&f.fields),
                    },
                )
            }
        },
    }
}

/// The intermediate entries and collected per-document errors of the first
/// `i` configured files.
pub open spec fn spec_fill_intermediate(
    files: Seq<FileV>,
    default_selector: Option<Seq<char>>,
    i: int,
) -> (Seq<IntermediateEntryV>, Seq<DocumentErrorV>)
    decreases i,
{
    if i <= 0 {
        (Seq::empty(), Seq::empty())
    } else {
        let (es, errs) = spec_fill_intermediate(files, default_selector, i - 1);
        match spec_make_intermediate(files[i - 1], default_selector) {
            Result::Ok(e) => (es.push(e), errs),
            Result::Err(d) => (es, errs.push(d)),
        }
    }
}

/// The views of a list of document errors.
pub open spec fn errors_view(s: Seq<DocumentError>) -> Seq<DocumentErrorV> {
    s.map_values(|d: DocumentError| d@)
}

/// Resolves every configured file, collecting the entries that could be
/// indexed and the per-document errors of those that could not.
pub fn fill_intermediate_entries(
    config: &Config,
    intermediate_entries: &mut Vec<IntermediateEntry>,
    document_errors: &mut Vec<DocumentError>,
)
    requires
        old(intermediate_entries)@.len() == 0,
        old(document_errors)@.len() == 0,
    ensures
        (ie_view(final(intermediate_entries)@), errors_view(final(document_errors)@))
            == spec_fill_intermediate(
            config@.input.files,
            config@.input.html_selector,
            config@.input.files.len() as int,
        ),
{
    let n = config.input.files.len();
    let mut i: usize = 0;
    proof {
        assert(ie_view(intermediate_entries@) =~= Seq::<IntermediateEntryV>::empty());
        assert(errors_view(document_errors@) =~= Seq::<DocumentErrorV>::empty());
    }
    while i < n
        invariant
            n == config@.input.files.len(),
            i <= n,
            (ie_view(intermediate_entries@), errors_view(document_errors@))
                == spec_fill_intermediate(
                config@.input.files,
                config@.input.html_selector,
                i as int,
            ),
        decreases n - i,
    {
        match make_intermediate(&config.input.files[i], &config.input.html_selector) {
            Result::Ok(e) => {
                intermediate_entries.push(e);
                proof {
                    assert(ie_view(intermediate_entries@) =~= spec_fill_intermediate(
                        config@.input.files,
                        config@.input.html_selector,
                        i + 1,
                    ).0);
                }
            },
            Result::Err(d) => {
                document_errors.push(d);
                proof {
                    assert(errors_view(document_errors@) =~= spec_fill_intermediate(
                        config@.input.files,
                        config@.input.html_selector,
                        i + 1,
                    ).1);
                }
            },
        }
        i = i + 1;
    }
}


/// Saturating addition on the 8-bit secondary score.
pub open spec fn spec_sat_add(a: u8, b: u8) -> u8 {
    if a + b > 255 {
        255u8
    } else {
        (a + b) as u8
    }
}

/// Saturating addition on the 8-bit secondary score.
pub fn sat_add(a: u8, b: u8) -> (r: u8)
    ensures
        r == spec_sat_add(a, b),
{
    if (a as u16) + (b as u16) > 255 {
        255
    } else {
        a + b
    }
}

/// Appends one excerpt to the result list of entry `e`, opening the result at
/// the base score 128 when the entry had none in this container, and adding
/// `pts` to the 8-bit score, capped at 255.
pub open spec fn spec_upd_result(
    rs: Seq<(usize, SearchResultV)>,
    e: usize,
    exc: Excerpt,
    pts: u8,
) -> Seq<(usize, SearchResultV)> {
    let t = spec_find_pair(rs, e);
    if t < 0 {
        rs.push((e, SearchResultV { excerpts: seq![exc], score: spec_sat_add(128, pts) }))
    } else {
        rs.update(
            t,
            (
                e,
                SearchResultV {
                    excerpts: rs[t].1.excerpts.push(exc),
                    score: spec_sat_add(rs[t].1.score, pts),
                },
            ),
        )
    }
}

/// Sets the similarity of alias `term`, adding the alias when it is new.
pub open spec fn spec_upd_alias(al: Seq<(Seq<char>, u32)>, term: Seq<char>, sim: u32) -> Seq<
    (Seq<char>, u32),
> {
    let t = spec_find_pair(al, term);
    if t < 0 {
        al.push((term, sim))
    } else {
        al.update(t, (term, sim))
    }
}

/// Makes sure a container keyed `key` exists, appending an empty one when not.
pub open spec fn spec_cs_ensure(cs: Seq<(Seq<char>, ContainerV)>, key: Seq<char>) -> Seq<
    (Seq<char>, ContainerV),
> {
    if spec_find_pair(cs, key) >= 0 {
        cs
    } else {
        cs.push((key, ContainerV { results: Seq::empty(), aliases: Seq::empty() }))
    }
}

/// Records one word hit of entry `e` in the container keyed `key`.
pub open spec fn spec_cs_add_excerpt(
    cs: Seq<(Seq<char>, ContainerV)>,
    key: Seq<char>,
    e: usize,
    exc: Excerpt,
    pts: u8,
) -> Seq<(Seq<char>, ContainerV)> {
    let cs1 = spec_cs_ensure(cs, key);
    let t = spec_find_pair(cs1, key);
    cs1.update(
        t,
        (
            key,
            ContainerV {
                results: spec_upd_result(cs1[t].1.results, e, exc, pts),
                aliases: cs1[t].1.aliases,
            },
        ),
    )
}

/// Registers the alias `term -> sim` in the container keyed `key`.
pub open spec fn spec_cs_add_alias(
    cs: Seq<(Seq<char>, ContainerV)>,
    key: Seq<char>,
    term: Seq<char>,
    sim: u32,
) -> Seq<(Seq<char>, ContainerV)> {
    let cs1 = spec_cs_ensure(cs, key);
    let t = spec_find_pair(cs1, key);
    cs1.update(
        t,
        (
            key,
            ContainerV {
                results: cs1[t].1.results,
                aliases: spec_upd_alias(cs1[t].1.aliases, term, sim),
            },
        ),
    )
}

/// Makes sure a container keyed `key` exists and hands back its position.
fn ensure_container(cs: &mut Vec<(String, Container)>, key: &String) -> (t: usize)
    ensures
        containers_view(final(cs)@) == spec_cs_ensure(containers_view(old(cs)@), key@),
        t as int == spec_find_pair(containers_view(final(cs)@), key@),
        t < final(cs)@.len(),
{
    let n = cs.len();
    let mut i: usize = 0;
    while i < n
        invariant
            n == cs@.len(),
            i <= n,
            cs@ == old(cs)@,
            forall|j: int| 0 <= j < i ==> containers_view(cs@)[j].0 != key@,
        decreases n - i,
    {
        if cs[i].0 == *key {
            proof {
                assert(containers_view(cs@)[i as int].0 == key@);
                lemma_find_pair_is(containers_view(cs@), key@, i as int);
            }
            return i;
        }
        i = i + 1;
    }
    proof {
        lemma_find_pair_none(containers_view(cs@), key@);
    }
    let empty = Container { results: Vec::new(), aliases: Vec::new() };
    proof {
        assert(empty@.results =~= Seq::<(usize, SearchResultV)>::empty());
        assert(empty@.aliases =~= Seq::<(Seq<char>, u32)>::empty());
    }
    cs.push((key.clone(), empty));
    proof {
        assert(containers_view(cs@) =~= containers_view(old(cs)@).push(
            (key@, ContainerV { results: Seq::empty(), aliases: Seq::empty() }),
        ));
        lemma_find_pair_is(containers_view(cs@), key@, containers_view(cs@).len() - 1);
    }
    cs.len() - 1
}

/// Records one word hit in the container keyed `key`, as
/// `spec_cs_add_excerpt` says.
fn add_excerpt(cs: &mut Vec<(String, Container)>, key: &String, e: usize, exc: Excerpt, pts: u8)
    ensures
        containers_view(final(cs)@) == spec_cs_add_excerpt(
            containers_view(old(cs)@),
            key@,
            e,
            exc,
            pts,
        ),
{
    let ghost cv0 = containers_view(old(cs)@);
    let t = ensure_container(cs, key);
    let ghost cv1 = containers_view(cs@);
    proof {
        lemma_find_pair(cv1, key@);
        assert(cv1[t as int].0 == key@);
    }
    let (k, mut c) = cs.remove(t);
    proof {
        assert(k@ == cv1[t as int].0);
        assert(c@ == cv1[t as int].1);
    }
    let ghost rs0 = c@.results;
    let n = c.results.len();
    let mut ri: usize = 0;
    let mut found: bool = false;
    while ri < n && !found
        invariant
            n == c.results@.len(),
            ri <= n,
            rs0 == results_view(c.results@),
            !found ==> forall|j: int| 0 <= j < ri ==> rs0[j].0 != e,
            found ==> ri < n && rs0[ri as int].0 == e && forall|j: int|
                0 <= j < ri ==> rs0[j].0 != e,
        decreases n - ri, if found { 0int } else { 1int },
    {
        if c.results[ri].0 == e {
            found = true;
        } else {
            ri = ri + 1;
        }
    }
    if found {
        proof {
            lemma_find_pair_is(rs0, e, ri as int);
        }
        let (ek, mut sr) = c.results.remove(ri);
        sr.excerpts.push(exc);
        let new_score = sat_add(sr.score, pts);
        sr.score = new_score;
        c.results.insert(ri, (ek, sr));
        proof {
            assert(results_view(c.results@) =~= spec_upd_result(rs0, e, exc, pts));
        }
    } else {
        proof {
            lemma_find_pair_none(rs0, e);
        }
        let mut excs: Vec<Excerpt> = Vec::new();
        excs.push(exc);
        proof {
            assert(excs@ =~= seq![exc]);
        }
        c.results.push((e, SearchResult { excerpts: excs, score: sat_add(128, pts) }));
        proof {
            assert(results_view(c.results@) =~= spec_upd_result(rs0, e, exc, pts));
        }
    }
    cs.insert(t, (k, c));
    proof {
        assert(containers_view(cs@) =~= cv1.update(
            t as int,
            (
                key@,
                ContainerV {
                    results: spec_upd_result(cv1[t as int].1.results, e, exc, pts),
                    aliases: cv1[t as int].1.aliases,
                },
            ),
        ));
    }
}

/// Registers an alias in the container keyed `key`, as `spec_cs_add_alias`
/// says.
fn add_alias(cs: &mut Vec<(String, Container)>, key: &String, term: &String, sim: u32)
    ensures
        containers_view(final(cs)@) == spec_cs_add_alias(
            containers_view(old(cs)@),
            key@,
            term@,
            sim,
        ),
{
    let t = ensure_container(cs, key);
    let ghost cv1 = containers_view(cs@);
    proof {
        lemma_find_pair(cv1, key@);
        assert(cv1[t as int].0 == key@);
    }
    let (k, mut c) = cs.remove(t);
    proof {
        assert(k@ == cv1[t as int].0);
        assert(c@ == cv1[t as int].1);
    }
    let ghost al0 = c@.aliases;
    let n = c.aliases.len();
    let mut ai: usize = 0;
    let mut found: bool = false;
    while ai < n && !found
        invariant
            n == c.aliases@.len(),
            ai <= n,
            al0 == aliases_view(c.aliases@),
            !found ==> forall|j: int| 0 <= j < ai ==> al0[j].0 != term@,
            found ==> ai < n && al0[ai as int].0 == term@ && forall|j: int|
                0 <= j < ai ==> al0[j].0 != term@,
        decreases n - ai, if found { 0int } else { 1int },
    {
        if c.aliases[ai].0 == *term {
            found = true;
        } else {
            ai = ai + 1;
        }
    }
    if found {
        proof {
            lemma_find_pair_is(al0, term@, ai as int);
        }
        let (_tk, _old_sim) = c.aliases.remove(ai);
        c.aliases.insert(ai, (term.clone(), sim));
        proof {
            assert(aliases_view(c.aliases@) =~= spec_upd_alias(al0, term@, sim));
        }
    } else {
        proof {
            lemma_find_pair_none(al0, term@);
        }
        c.aliases.push((term.clone(), sim));
        proof {
            assert(aliases_view(c.aliases@) =~= spec_upd_alias(al0, term@, sim));
        }
    }
    cs.insert(t, (k, c));
    proof {
        assert(containers_view(cs@) =~= cv1.update(
            t as int,
            (
                key@,
                ContainerV {
                    results: cv1[t as int].1.results,
                    aliases: spec_upd_alias(cv1[t as int].1.aliases, term@, sim),
                },
            ),
        ));
    }
}

/// The similarity of a prefix of length `plen` of a word of length `wlen`, in
/// 1/1024 units: 1024 less 32 per missing character, never below 512.
pub open spec fn spec_prefix_sim(plen: int, wlen: int) -> u32 {
    if wlen - plen >= 16 {
        512u32
    } else {
        (1024 - (wlen - plen) * 32) as u32
    }
}

/// The containers after registering the prefix aliases of `word` for prefix
/// lengths in `[minl, p)`.
pub open spec fn spec_prefix_fold(
    cs: Seq<(Seq<char>, ContainerV)>,
    word: Seq<char>,
    minl: int,
    p: int,
) -> Seq<(Seq<char>, ContainerV)>
    decreases p - minl,
{
    if p <= minl {
        cs
    } else {
        spec_cs_add_alias(
            spec_prefix_fold(cs, word, minl, p - 1),
            word.subrange(0, p - 1),
            word,
            spec_prefix_sim(p - 1, word.len() as int),
        )
    }
}

/// The containers after indexing one word of entry `i` at position `j`: the
/// primary hit, then the aliases of every prefix of length at least `minl`
/// and shorter than the word.
pub open spec fn spec_word_step(
    cs: Seq<(Seq<char>, ContainerV)>,
    i: usize,
    j: usize,
    w: AnnotatedWordV,
    in_title: bool,
    boost: u32,
    minl: int,
) -> Seq<(Seq<char>, ContainerV)> {
    let imp: u32 = if in_title {
        boost
    } else {
        2
    };
    let pts: u8 = if in_title {
        16
    } else {
        8
    };
    let cs1 = spec_cs_add_excerpt(
        cs,
        w.word,
        i,
        Excerpt { word_index: j, offset: w.offset, importance: imp, in_title },
        pts,
    );
    spec_prefix_fold(cs1, w.word, minl, w.word.len() as int)
}

/// The containers after indexing the first `j` words of one word list.
pub open spec fn spec_words_fold(
    cs: Seq<(Seq<char>, ContainerV)>,
    i: usize,
    words: Seq<AnnotatedWordV>,
    in_title: bool,
    boost: u32,
    minl: int,
    j: int,
) -> Seq<(Seq<char>, ContainerV)>
    decreases j,
{
    if j <= 0 {
        cs
    } else {
        spec_word_step(
            spec_words_fold(cs, i, words, in_title, boost, minl, j - 1),
            i,
            (j - 1) as usize,
            words[j - 1],
            in_title,
            boost,
            minl,
        )
    }
}

/// The containers after indexing one whole entry: its title words, then its
/// body words.
pub open spec fn spec_entry_fold(
    cs: Seq<(Seq<char>, ContainerV)>,
    i: usize,
    e: IntermediateEntryV,
    boost: u32,
    minl: int,
) -> Seq<(Seq<char>, ContainerV)> {
    spec_words_fold(
        spec_words_fold(cs, i, e.title_words, true, boost, minl, e.title_words.len() as int),
        i,
        e.body_words,
        false,
        boost,
        minl,
        e.body_words.len() as int,
    )
}

/// The containers after indexing the first `i` entries.
pub open spec fn spec_entries_fold(
    cs: Seq<(Seq<char>, ContainerV)>,
    entries: Seq<IntermediateEntryV>,
    boost: u32,
    minl: int,
    i: int,
) -> Seq<(Seq<char>, ContainerV)>
    decreases i,
{
    if i <= 0 {
        cs
    } else {
        spec_entry_fold(
            spec_entries_fold(cs, entries, boost, minl, i - 1),
            (i - 1) as usize,
            entries[i - 1],
            boost,
            minl,
        )
    }
}

/// The views of one stem's word list.
pub open spec fn word_list_view(s: Seq<String>) -> Seq<Seq<char>> {
    s.map_values(|w: String| w@)
}

/// The views of a stem map.
pub open spec fn stems_view(s: Seq<(String, Vec<String>)>) -> Seq<(Seq<char>, Seq<Seq<char>>)> {
    s.map_values(|p: (String, Vec<String>)| (p.0@, word_list_view(p.1@)))
}

/// Appends `word` to the word list of `stem`, creating the list when the stem
/// is new and keeping each list free of repeats.
pub open spec fn spec_add_stem(
    ss: Seq<(Seq<char>, Seq<Seq<char>>)>,
    stem: Seq<char>,
    word: Seq<char>,
) -> Seq<(Seq<char>, Seq<Seq<char>>)> {
    let t = spec_find_pair(ss, stem);
    if t < 0 {
        ss.push((stem, seq![word]))
    } else if ss[t].1.contains(word) {
        ss
    } else {
        ss.update(t, (stem, ss[t].1.push(word)))
    }
}

/// The stem map after folding in the first `j` words of one word list.
pub open spec fn spec_stems_words(
    ss: Seq<(Seq<char>, Seq<Seq<char>>)>,
    words: Seq<AnnotatedWordV>,
    lang: int,
    j: int,
) -> Seq<(Seq<char>, Seq<Seq<char>>)>
    decreases j,
{
    if j <= 0 {
        ss
    } else {
        spec_add_stem(
            spec_stems_words(ss, words, lang, j - 1),
            stem_of(lang, words[j - 1].word),
            words[j - 1].word,
        )
    }
}

/// The stem map after folding in one whole entry: title words, then body
/// words.
pub open spec fn spec_stems_entry(
    ss: Seq<(Seq<char>, Seq<Seq<char>>)>,
    e: IntermediateEntryV,
    lang: int,
) -> Seq<(Seq<char>, Seq<Seq<char>>)> {
    spec_stems_words(
        spec_stems_words(ss, e.title_words, lang, e.title_words.len() as int),
        e.body_words,
        lang,
        e.body_words.len() as int,
    )
}

/// The stem map of the first `i` entries.
pub open spec fn spec_fill_stems(
    entries: Seq<IntermediateEntryV>,
    lang: int,
    i: int,
) -> Seq<(Seq<char>, Seq<Seq<char>>)>
    decreases i,
{
    if i <= 0 {
        Seq::empty()
    } else {
        spec_stems_entry(spec_fill_stems(entries, lang, i - 1), entries[i - 1], lang)
    }
}

/// Appends `word` under `stem`, as `spec_add_stem` says.
fn add_stem(ss: &mut Vec<(String, Vec<String>)>, stem: String, word: &String)
    ensures
        stems_view(final(ss)@) == spec_add_stem(stems_view(old(ss)@), stem@, word@),
{
    let n = ss.len();
    let mut i: usize = 0;
    while i < n
        invariant
            n == ss@.len(),
            i <= n,
            ss@ == old(ss)@,
            forall|j: int| 0 <= j < i ==> stems_view(ss@)[j].0 != stem@,
        decreases n - i,
    {
        if ss[i].0 == stem {
            proof {
                assert(stems_view(ss@)[i as int].0 == stem@);
                lemma_find_pair_is(stems_view(ss@), stem@, i as int);
            }
            let ghost sv = stems_view(ss@);
            let (k, mut ws) = ss.remove(i);
            proof {
                assert(k@ == sv[i as int].0);
                assert(word_list_view(ws@) == sv[i as int].1);
            }
            let ghost wl = word_list_view(ws@);
            let m = ws.len();
            let mut wi: usize = 0;
            let mut present: bool = false;
            while wi < m && !present
                invariant
                    m == ws@.len(),
                    wi <= m,
                    wl == word_list_view(ws@),
                    !present ==> forall|j: int| 0 <= j < wi ==> wl[j] != word@,
                    present ==> wi < m && wl[wi as int] == word@,
                decreases m - wi, if present { 0int } else { 1int },
            {
                if ws[wi] == *word {
                    present = true;
                } else {
                    wi = wi + 1;
                }
            }
            if present {
                ss.insert(i, (k, ws));
                proof {
                    assert(wl.contains(word@));
                    assert(stems_view(ss@) =~= sv);
                }
            } else {
                proof {
                    assert(!wl.contains(word@));
                }
                ws.push(word.clone());
                ss.insert(i, (k, ws));
                proof {
                    assert(word_list_view(ws@) =~= wl.push(word@));
                    assert(stems_view(ss@) =~= sv.update(i as int, (stem@, wl.push(word@))));
                }
            }
            return ;
        }
        i = i + 1;
    }
    proof {
        lemma_find_pair_none(stems_view(ss@), stem@);
    }
    let mut ws: Vec<String> = Vec::new();
    ws.push(word.clone());
    proof {
        assert(word_list_view(ws@) =~= seq![word@]);
    }
    ss.push((stem, ws));
    proof {
        assert(stems_view(ss@) =~= stems_view(old(ss)@).push((stem@, seq![word@])));
    }
}

/// Folds one word list of entry words into the stem map.
fn stems_of_words(
    ss: &mut Vec<(String, Vec<String>)>,
    words: &Vec<AnnotatedWord>,
    algo: StemAlgorithm,
)
    ensures
        stems_view(final(ss)@) == spec_stems_words(
            stems_view(old(ss)@),
            words_view(words@),
            spec_lang_id(algo),
            words@.len() as int,
        ),
{
    let n = words.len();
    let mut j: usize = 0;
    while j < n
        invariant
            n == words@.len(),
            j <= n,
            stems_view(ss@) == spec_stems_words(
                stems_view(old(ss)@),
                words_view(words@),
                spec_lang_id(algo),
                j as int,
            ),
        decreases n - j,
    {
        let stem = stem_word(algo, words[j].word.as_str());
        add_stem(ss, stem, &words[j].word);
        j = j + 1;
    }
}

/// Builds the stem map: for every indexed word, its Snowball stem points back
/// at the words it came from, each word listed once per stem.
pub fn fill_stems(
    entries: &Vec<IntermediateEntry>,
    algo: StemAlgorithm,
    ss: &mut Vec<(String, Vec<String>)>,
)
    requires
        old(ss)@.len() == 0,
    ensures
        stems_view(final(ss)@) == spec_fill_stems(
            ie_view(entries@),
            spec_lang_id(algo),
            entries@.len() as int,
        ),
{
    proof {
        assert(stems_view(ss@) =~= Seq::<(Seq<char>, Seq<Seq<char>>)>::empty());
    }
    let n = entries.len();
    let mut i: usize = 0;
    while i < n
        invariant
            n == entries@.len(),
            i <= n,
            stems_view(ss@) == spec_fill_stems(ie_view(entries@), spec_lang_id(algo), i as int),
        decreases n - i,
    {
        proof {
            assert(ie_view(entries@)[i as int] == entries@[i as int]@);
        }
        stems_of_words(ss, &entries[i].title_words, algo);
        stems_of_words(ss, &entries[i].body_words, algo);
        i = i + 1;
    }
}


/// Indexes one word of entry `i`, as `spec_word_step` says.
fn word_step(
    cs: &mut Vec<(String, Container)>,
    i: usize,
    j: usize,
    w: &AnnotatedWord,
    in_title: bool,
    boost: u32,
    minl: usize,
)
    ensures
        containers_view(final(cs)@) == spec_word_step(
            containers_view(old(cs)@),
            i,
            j,
            w@,
            in_title,
            boost,
            minl as int,
        ),
{
    let imp: u32 = if in_title {
        boost
    } else {
        2
    };
    let pts: u8 = if in_title {
        16
    } else {
        8
    };
    add_excerpt(
        cs,
        &w.word,
        i,
        Excerpt { word_index: j, offset: w.offset, importance: imp, in_title },
        pts,
    );
    let ghost cs1 = containers_view(cs@);
    let wlen = w.word.as_str().unicode_len();
    if minl >= wlen {
        return ;
    }
    let mut pl: usize = minl;
    while pl < wlen
        invariant
            minl <= pl <= wlen,
            wlen == w@.word.len(),
            containers_view(cs@) == spec_prefix_fold(cs1, w@.word, minl as int, pl as int),
        decreases wlen - pl,
    {
        let prefix = w.word.as_str().substring_char(0, pl).to_owned();
        let d = wlen - pl;
        let sim: u32 = if d >= 16 {
            512
        } else {
            1024 - (d as u32) * 32
        };
        add_alias(cs, &prefix, &w.word, sim);
        pl = pl + 1;
    }
}

/// Indexes one word list of entry `i`, as `spec_words_fold` says.
fn index_words(
    cs: &mut Vec<(String, Container)>,
    i: usize,
    words: &Vec<AnnotatedWord>,
    in_title: bool,
    boost: u32,
    minl: usize,
)
    ensures
        containers_view(final(cs)@) == spec_words_fold(
            containers_view(old(cs)@),
            i,
            words_view(words@),
            in_title,
            boost,
            minl as int,
            words@.len() as int,
        ),
{
    let n = words.len();
    let mut j: usize = 0;
    while j < n
        invariant
            n == words@.len(),
            j <= n,
            containers_view(cs@) == spec_words_fold(
                containers_view(old(cs)@),
                i,
                words_view(words@),
                in_title,
                boost,
                minl as int,
                j as int,
            ),
        decreases n - j,
    {
        proof {
            assert(words_view(words@)[j as int] == words@[j as int]@);
        }
        word_step(cs, i, j, &words[j], in_title, boost, minl);
        j = j + 1;
    }
}

/// The containers after registering the aliases of one stem's word list: each
/// listed word that differs from the stem gets the alias `word -> 1/2`.
pub open spec fn spec_stem_words_fold(
    cs: Seq<(Seq<char>, ContainerV)>,
    stem: Seq<char>,
    ws: Seq<Seq<char>>,
    k: int,
) -> Seq<(Seq<char>, ContainerV)>
    decreases k,
{
    if k <= 0 {
        cs
    } else {
        let prev = spec_stem_words_fold(cs, stem, ws, k - 1);
        if ws[k - 1] == stem {
            prev
        } else {
            spec_cs_add_alias(prev, stem, ws[k - 1], 512)
        }
    }
}

/// The containers after registering the aliases of the first `t` stems.
pub open spec fn spec_stems_fold(
    cs: Seq<(Seq<char>, ContainerV)>,
    ss: Seq<(Seq<char>, Seq<Seq<char>>)>,
    t: int,
) -> Seq<(Seq<char>, ContainerV)>
    decreases t,
{
    if t <= 0 {
        cs
    } else {
        spec_stem_words_fold(
            spec_stems_fold(cs, ss, t - 1),
            ss[t - 1].0,
            ss[t - 1].1,
            ss[t - 1].1.len() as int,
        )
    }
}

/// The shortest prefix length that is indexed: the configured minimum, and
/// never below one, so that container keys stay non-empty.
pub open spec fn spec_minl(cfg: ConfigV) -> int {
    if cfg.input.minimum_indexed_substring_length < 1 {
        1
    } else {
        cfg.input.minimum_indexed_substring_length as int
    }
}

/// The stem map of a build: empty when stemming is off.
pub open spec fn spec_stems(cfg: ConfigV, ies: Seq<IntermediateEntryV>) -> Seq<
    (Seq<char>, Seq<Seq<char>>),
> {
    match cfg.input.stemming {
        StemmingConfig::Off => Seq::empty(),
        StemmingConfig::Language(a) => spec_fill_stems(ies, spec_lang_id(a), ies.len() as int),
    }
}

/// The whole container table of a build: every entry's title and body words
/// indexed in order, with prefix aliases, then the stem aliases.
pub open spec fn spec_fill_containers(
    cfg: ConfigV,
    ies: Seq<IntermediateEntryV>,
    ss: Seq<(Seq<char>, Seq<Seq<char>>)>,
) -> Seq<(Seq<char>, ContainerV)> {
    spec_stems_fold(
        spec_entries_fold(
            Seq::empty(),
            ies,
            spec_boost_halves(cfg.input.title_boost),
            spec_minl(cfg),
            ies.len() as int,
        ),
        ss,
        ss.len() as int,
    )
}

/// Builds the container table, as `spec_fill_containers` says.
pub fn fill_containers(
    config: &Config,
    entries: &Vec<IntermediateEntry>,
    stems: &Vec<(String, Vec<String>)>,
) -> (r: Vec<(String, Container)>)
    ensures
        containers_view(r@) == spec_fill_containers(
            config@,
            ie_view(entries@),
            stems_view(stems@),
        ),
{
    let boost = boost_halves(config.input.title_boost);
    let minl: usize = if config.input.minimum_indexed_substring_length < 1 {
        1
    } else {
        config.input.minimum_indexed_substring_length
    };
    let mut cs: Vec<(String, Container)> = Vec::new();
    proof {
        assert(containers_view(cs@) =~= Seq::<(Seq<char>, ContainerV)>::empty());
    }
    let n = entries.len();
    let mut i: usize = 0;
    while i < n
        invariant
            n == entries@.len(),
            i <= n,
            boost == spec_boost_halves(config@.input.title_boost),
            minl as int == spec_minl(config@),
            containers_view(cs@) == spec_entries_fold(
                Seq::empty(),
                ie_view(entries@),
                boost,
                minl as int,
                i as int,
            ),
        decreases n - i,
    {
        proof {
            assert(ie_view(entries@)[i as int] == entries@[i as int]@);
        }
        index_words(&mut cs, i, &entries[i].title_words, true, boost, minl);
        index_words(&mut cs, i, &entries[i].body_words, false, boost, minl);
        i = i + 1;
    }
    let m = stems.len();
    let mut t: usize = 0;
    while t < m
        invariant
            m == stems@.len(),
            t <= m,
            containers_view(cs@) == spec_stems_fold(
                spec_entries_fold(
                    Seq::empty(),
                    ie_view(entries@),
                    spec_boost_halves(config@.input.title_boost),
                    spec_minl(config@),
                    entries@.len() as int,
                ),
                stems_view(stems@),
                t as int,
            ),
        decreases m - t,
    {
        proof {
            assert(stems_view(stems@)[t as int] == (stems@[t as int].0@, word_list_view(
                stems@[t as int].1@,
            )));
        }
        let wn = stems[t].1.len();
        let mut k: usize = 0;
        while k < wn
            invariant
                t < m,
                m == stems@.len(),
                wn == stems@[t as int].1@.len(),
                k <= wn,
                containers_view(cs@) == spec_stem_words_fold(
                    spec_stems_fold(
                        spec_entries_fold(
                            Seq::empty(),
                            ie_view(entries@),
                            spec_boost_halves(config@.input.title_boost),
                            spec_minl(config@),
                            entries@.len() as int,
                        ),
                        stems_view(stems@),
                        t as int,
                    ),
                    stems@[t as int].0@,
                    word_list_view(stems@[t as int].1@),
                    k as int,
                ),
            decreases wn - k,
        {
            proof {
                assert(word_list_view(stems@[t as int].1@)[k as int] == stems@[t as int].1@[
                    k as int
                ]@);
            }
            if !(stems[t].1[k] == stems[t].0) {
                add_alias(&mut cs, &stems[t].0, &stems[t].1[k], 512);
            }
            k = k + 1;
        }
        t = t + 1;
        proof {
            assert(stems_view(stems@)[t - 1].1.len() == wn);
        }
    }
    cs
}

/// The frozen entry a finished intermediate entry becomes.
pub open spec fn spec_entry_of(e: IntermediateEntryV) -> EntryV {
    EntryV { title: e.title, url: e.url, contents: e.contents, fields: e.fields }
}

/// The entry table of a build.
pub open spec fn spec_entries_of(ies: Seq<IntermediateEntryV>) -> Seq<EntryV> {
    ies.map_values(|e: IntermediateEntryV| spec_entry_of(e))
}

/// Freezes one intermediate entry into an entry of the index.
fn entry_of(e: &IntermediateEntry) -> (r: Entry)
    ensures
        r@ == spec_entry_of(e@),
{
    Entry {
        title: e.title.clone(),
        url: e.url.clone(),
        contents: e.contents.clone(),
        fields: clone_fields(&e.fields),
    }
}

/// Freezes the whole entry table.
fn entries_of(ies: &Vec<IntermediateEntry>) -> (r: Vec<Entry>)
    ensures
        entries_view(r@) == spec_entries_of(ie_view(ies@)),
{
    let mut out: Vec<Entry> = Vec::new();
    let mut i: usize = 0;
    while i < ies.len()
        invariant
            i <= ies@.len(),
            out@.len() == i,
            forall|k: int| 0 <= k < i ==> out@[k]@ == spec_entry_of(ies@[k]@),
        decreases ies@.len() - i,
    {
        let e = entry_of(&ies[i]);
        out.push(e);
        i = i + 1;
    }
    proof {
        assert forall|k: int| 0 <= k < ies@.len() implies entries_view(out@)[k]
            == spec_entries_of(ie_view(ies@))[k] by {
            assert(entries_view(out@)[k] == out@[k]@);
            assert(ie_view(ies@)[k] == ies@[k]@);
        }
        assert(entries_view(out@) =~= spec_entries_of(ie_view(ies@)));
    }
    out
}

/// The slice of the configuration the query engine keeps.
pub open spec fn spec_pass(cfg: ConfigV) -> PassthroughConfigV {
    PassthroughConfigV {
        url_prefix: cfg.input.url_prefix,
        title_boost: cfg.input.title_boost,
        excerpt_buffer: cfg.output.excerpt_buffer,
        excerpts_per_result: cfg.output.excerpts_per_result,
        displayed_results_count: cfg.output.displayed_results_count,
    }
}

/// What a build returns: the index and the collected per-document errors, or
/// `NoValidFiles` when not one configured file could be indexed.
pub open spec fn spec_build(cfg: ConfigV) -> Result<
    (IndexV, Seq<DocumentErrorV>),
    IndexGenerationError,
> {
    let pair = spec_fill_intermediate(
        cfg.input.files,
        cfg.input.html_selector,
        cfg.input.files.len() as int,
    );
    if pair.0.len() == 0 {
        Result::Err(IndexGenerationError::NoValidFiles)
    } else {
        Result::Ok(
            (
                IndexV {
                    entries: spec_entries_of(pair.0),
                    containers: spec_fill_containers(cfg, pair.0, spec_stems(cfg, pair.0)),
                    config: spec_pass(cfg),
                },
                pair.1,
            ),
        )
    }
}

/// Builds a search index from a configuration whose sources are inline
/// contents. Per-document failures are collected beside the index; the build
/// fails only when every configured file fails.
pub fn build(config: &Config) -> (r: Result<(Index, Vec<DocumentError>), IndexGenerationError>)
    ensures
        (r is Ok) == (spec_build(config@) is Ok),
        r is Ok ==> r->Ok_0.0@ == spec_build(config@)->Ok_0.0 && errors_view(r->Ok_0.1@)
            == spec_build(config@)->Ok_0.1,
        r is Err ==> r->Err_0 == spec_build(config@)->Err_0,
{
    let mut intermediate_entries: Vec<IntermediateEntry> = Vec::new();
    let mut document_errors: Vec<DocumentError> = Vec::new();
    fill_intermediate_entries(config, &mut intermediate_entries, &mut document_errors);
    if intermediate_entries.len() == 0 {
        return Result::Err(IndexGenerationError::NoValidFiles);
    }
    let mut stems: Vec<(String, Vec<String>)> = Vec::new();
    match config.input.stemming {
        StemmingConfig::Off => {
            proof {
                assert(stems_view(stems@) =~= Seq::<(Seq<char>, Seq<Seq<char>>)>::empty());
            }
        },
        StemmingConfig::Language(a) => {
            fill_stems(&intermediate_entries, a, &mut stems);
        },
    }
    let containers = fill_containers(config, &intermediate_entries, &stems);
    let entries = entries_of(&intermediate_entries);
    let passc = PassthroughConfig {
        url_prefix: config.input.url_prefix.clone(),
        title_boost: config.input.title_boost,
        excerpt_buffer: config.output.excerpt_buffer,
        excerpts_per_result: config.output.excerpts_per_result,
        displayed_results_count: config.output.displayed_results_count,
    };
    Result::Ok((Index { entries, containers, config: passc }, document_errors))
}


/// One build configuration determines the serialized index byte for byte:
/// two indexes built from the same configuration encode identically.
pub proof fn lemma_build_deterministic(cfg: ConfigV, i1: IndexV, i2: IndexV)
    requires
        spec_build(cfg) is Ok,
        i1 == (spec_build(cfg)->Ok_0).0,
        i2 == (spec_build(cfg)->Ok_0).0,
    ensures
        crate::codec::spec_enc_index(i1) == crate::codec::spec_enc_index(i2),
{
}

/// The decision of the test subcommand: which optional configuration
/// argument to build from. Serving the demo page is I/O and stays with the
/// caller.
pub fn test_handler(args: &Vec<String>) -> (r: Option<String>)
    ensures
        match r {
            Option::Some(s) => args@.len() > 2 && s@ == args@[2]@,
            Option::None => args@.len() <= 2,
        },
{
    if args.len() > 2 {
        Option::Some(args[2].clone())
    } else {
        Option::None
    }
}

} // verus!
