use vstd::prelude::*;
use crate::model::TitleBoost;
use crate::model::fields_view;

verus! {

/// Where a document's text comes from. Paths and URLs are resolved to inline
/// contents by the caller before the build; the builder itself reads nothing.
pub enum DataSource {
    Contents(String),
    FilePath(String),
    URL(String),
}

/// The mathematical shape of a `DataSource`.
pub enum DataSourceV {
    Contents(Seq<char>),
    FilePath(Seq<char>),
    URL(Seq<char>),
}

impl View for DataSource {
    type V = DataSourceV;

    open spec fn view(&self) -> DataSourceV {
        match self {
            DataSource::Contents(s) => DataSourceV::Contents(s@),
            DataSource::FilePath(s) => DataSourceV::FilePath(s@),
            DataSource::URL(s) => DataSourceV::URL(s@),
        }
    }
}

/// The declared or inferred kind of a document.
#[derive(Clone, Copy, PartialEq, Eq, Structural, Debug)]
pub enum Filetype {
    PlainText,
    HTML,
    Markdown,
    SRTSubtitle,
}

/// The stemming languages the builder knows. Codes outside this set fall back
/// to no stemming.
#[derive(Clone, Copy, PartialEq, Eq, Structural, Debug)]
pub enum StemAlgorithm {
    English,
    German,
    French,
    Spanish,
}

/// Whether and how words are stemmed during the build.
#[derive(Clone, Copy, PartialEq, Eq, Structural, Debug)]
pub enum StemmingConfig {
    Off,
    Language(StemAlgorithm),
}

/// One configured document.
pub struct File {
    pub source: DataSource,
    pub title: String,
    pub url: String,
    pub filetype: Option<Filetype>,
    pub html_selector_override: Option<String>,
    pub fields: Vec<(String, String)>,
}

/// The mathematical shape of a `File`.
pub struct FileV {
    pub source: DataSourceV,
    pub title: Seq<char>,
    pub url: Seq<char>,
    pub filetype: Option<Filetype>,
    pub html_selector_override: Option<Seq<char>>,
    pub fields: Seq<(Seq<char>, Seq<char>)>,
}

impl View for File {
    type V = FileV;

    open spec fn view(&self) -> FileV {
        FileV {
            source: self.source@,
            title: self.title@,
            url: self.url@,
            filetype: self.filetype,
            html_selector_override: match self.html_selector_override {
                Option::Some(ref s) => Option::Some(s@),
                Option::None => Option::None,
            },
            fields: fields_view(self.fields@),
        }
    }
}

impl Default for File {
    /// An inline, empty plain-text document with no title.
    fn default() -> (r: Self)
        ensures
            r@.source == DataSourceV::Contents(Seq::<char>::empty()),
            r@.title == Seq::<char>::empty(),
            r@.url == Seq::<char>::empty(),
            r@.filetype == Option::Some(Filetype::PlainText),
            r@.html_selector_override is None,
            r@.fields == Seq::<(Seq<char>, Seq<char>)>::empty(),
    {
        let r = File {
            source: DataSource::Contents(String::new()),
            title: String::new(),
            url: String::new(),
            filetype: Option::Some(Filetype::PlainText),
            html_selector_override: Option::None,
            fields: Vec::new(),
        };
        proof {
            assert(r@.fields =~= Seq::<(Seq<char>, Seq<char>)>::empty());
        }
        r
    }
}

/// The `[input]` half of a build configuration.
pub struct InputConfig {
    pub files: Vec<File>,
    pub url_prefix: String,
    pub title_boost: TitleBoost,
    pub stemming: StemmingConfig,
    pub html_selector: Option<String>,
    pub minimum_indexed_substring_length: usize,
}

/// The mathematical shape of an `InputConfig`.
pub struct InputConfigV {
    pub files: Seq<FileV>,
    pub url_prefix: Seq<char>,
    pub title_boost: TitleBoost,
    pub stemming: StemmingConfig,
    pub html_selector: Option<Seq<char>>,
    pub minimum_indexed_substring_length: usize,
}

impl View for InputConfig {
    type V = InputConfigV;

    open spec fn view(&self) -> InputConfigV {
        InputConfigV {
            files: self.files@.map_values(|f: File| f@),
            url_prefix: self.url_prefix@,
            title_boost: self.title_boost,
            stemming: self.stemming,
            html_selector: match self.html_selector {
                Option::Some(ref s) => Option::Some(s@),
                Option::None => Option::None,
            },
            minimum_indexed_substring_length: self.minimum_indexed_substring_length,
        }
    }
}

impl Default for InputConfig {
    /// No files, no URL prefix, moderate title boost, English stemming, no
    /// HTML selector, substrings indexed from length 3 on.
    fn default() -> (r: Self)
        ensures
            r@.files == Seq::<FileV>::empty(),
            r@.url_prefix == Seq::<char>::empty(),
            r@.title_boost == TitleBoost::Moderate,
            r@.stemming == StemmingConfig::Language(StemAlgorithm::English),
            r@.html_selector is None,
            r@.minimum_indexed_substring_length == 3,
    {
        let r = InputConfig {
            files: Vec::new(),
            url_prefix: String::new(),
            title_boost: TitleBoost::Moderate,
            stemming: StemmingConfig::Language(StemAlgorithm::English),
            html_selector: Option::None,
            minimum_indexed_substring_length: 3,
        };
        proof {
            assert(r@.files =~= Seq::<FileV>::empty());
        }
        r
    }
}

/// The `[output]` half of a build configuration.
pub struct OutputConfig {
    pub filename: String,
    pub debug: bool,
    pub excerpt_buffer: usize,
    pub excerpts_per_result: usize,
    pub displayed_results_count: usize,
}

/// The mathematical shape of an `OutputConfig`.
pub struct OutputConfigV {
    pub filename: Seq<char>,
    pub debug: bool,
    pub excerpt_buffer: usize,
    pub excerpts_per_result: usize,
    pub displayed_results_count: usize,
}

impl View for OutputConfig {
    type V = OutputConfigV;

    open spec fn view(&self) -> OutputConfigV {
        OutputConfigV {
            filename: self.filename@,
            debug: self.debug,
            excerpt_buffer: self.excerpt_buffer,
            excerpts_per_result: self.excerpts_per_result,
            displayed_results_count: self.displayed_results_count,
        }
    }
}

impl Default for OutputConfig {
    /// No filename, a window of 8 words around each hit, up to 5 excerpts per
    /// result, and up to 10 displayed results.
    fn default() -> (r: Self)
        ensures
            r@.filename == Seq::<char>::empty(),
            r@.debug == false,
            r@.excerpt_buffer == 8,
            r@.excerpts_per_result == 5,
            r@.displayed_results_count == 10,
    {
        OutputConfig {
            filename: String::new(),
            debug: false,
            excerpt_buffer: 8,
            excerpts_per_result: 5,
            displayed_results_count: 10,
        }
    }
}

/// A whole build configuration.
pub struct Config {
    pub input: InputConfig,
    pub output: OutputConfig,
}

/// The mathematical shape of a `Config`.
pub struct ConfigV {
    pub input: InputConfigV,
    pub output: OutputConfigV,
}

impl View for Config {
    type V = ConfigV;

    open spec fn view(&self) -> ConfigV {
        ConfigV { input: self.input@, output: self.output@ }
    }
}

impl Default for Config {
    /// The default input and output halves together.
    fn default() -> (r: Self)
        ensures
            r@.input.files == Seq::<FileV>::empty(),
            r@.input.url_prefix == Seq::<char>::empty(),
            r@.input.title_boost == TitleBoost::Moderate,
            r@.input.stemming == StemmingConfig::Language(StemAlgorithm::English),
            r@.input.html_selector is None,
            r@.input.minimum_indexed_substring_length == 3,
            r@.output.filename == Seq::<char>::empty(),
            r@.output.debug == false,
            r@.output.excerpt_buffer == 8,
            r@.output.excerpts_per_result == 5,
            r@.output.displayed_results_count == 10,
    {
        Config { input: InputConfig::default(), output: OutputConfig::default() }
    }
}

} // verus!
