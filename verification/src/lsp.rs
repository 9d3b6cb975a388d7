//! Optional, user-installed LSP enrichment.
//!
//! CodeFacts never installs or configures a language server. This module
//! decides which supported provider serves a language, reports provider
//! status, classifies version probes, locates a symbol's identifier in
//! UTF-16 units, converts file URIs and frames LSP messages. Starting
//! processes and exchanging bytes with them happens outside the library.
use vstd::prelude::*;

use crate::text::{
    append_chars, char_is_alphanumeric, chars_of, chars_utf16_len, copy_range, decimal,
    decimal_chars, string_from_chars, unicode_alphanumeric, utf16_len, trim_chars, trim,
};
use crate::types::{language_name, opt_view, CodeNode, Language};
use crate::text::{find_char, find_char_from, lemma_find_char_from_bounds};
use vstd::utf8::{decode_utf8, encode_utf8, is_ascii_chars, is_ascii_chars_encode_utf8, valid_utf8};
use crate::json::{
    array1, json_get, json_text, object1, object2, object3, object4, object5, object_of, JsonNumber, JsonValue,
    JsonView, NumberView,
};
use crate::indexer::markdown::{lines_of, seqs_view};

verus! {

/// Budget of a provider's version probe, in milliseconds.
pub const PROBE_TIMEOUT_MS: u64 = 200;

/// Budget of one LSP request, in milliseconds.
pub const REQUEST_TIMEOUT_MS: u64 = 4000;

/// Whether optional LSP enrichment may run.
#[derive(Debug, Clone, Copy, PartialEq, Eq, Structural, Default)]
pub enum LspMode {
    #[default]
    Auto,
    Off,
}

pub open spec fn lsp_mode_name(mode: LspMode) -> Seq<char> {
    match mode {
        LspMode::Auto => "auto"@,
        LspMode::Off => "off"@,
    }
}

impl LspMode {
    /// Parses `auto` or `off`; every other spelling is refused.
    pub fn parse(value: &str) -> (r: Option<Self>)
        ensures
            r == (if value@ == "auto"@ {
                Some(LspMode::Auto)
            } else if value@ == "off"@ {
                Some(LspMode::Off)
            } else {
                None
            }),
    {
        let v = chars_of(value);
        let auto = chars_of("auto");
        let off = chars_of("off");
        if crate::text::chars_equal(v.as_slice(), auto.as_slice()) {
            Some(LspMode::Auto)
        } else if crate::text::chars_equal(v.as_slice(), off.as_slice()) {
            Some(LspMode::Off)
        } else {
            None
        }
    }

    /// The spelling that [`LspMode::parse`] accepts.
    pub fn as_str(self) -> (r: &'static str)
        ensures
            r@ == lsp_mode_name(self),
    {
        match self {
            LspMode::Auto => "auto",
            LspMode::Off => "off",
        }
    }
}

/// A supported language server.
#[derive(Debug, Clone, Copy, PartialEq, Eq, Structural)]
pub enum LspProvider {
    RustAnalyzer,
    TypeScriptLanguageServer,
}

/// Providers in the order in which they are considered.
pub open spec fn provider_order() -> Seq<LspProvider> {
    seq![LspProvider::RustAnalyzer, LspProvider::TypeScriptLanguageServer]
}

pub open spec fn provider_id(p: LspProvider) -> Seq<char> {
    match p {
        LspProvider::RustAnalyzer => "rust-analyzer"@,
        LspProvider::TypeScriptLanguageServer => "typescript-language-server"@,
    }
}

pub open spec fn provider_languages(p: LspProvider) -> Seq<Language> {
    match p {
        LspProvider::RustAnalyzer => seq![Language::Rust],
        LspProvider::TypeScriptLanguageServer => seq![
            Language::TypeScript,
            Language::Tsx,
            Language::JavaScript,
            Language::Jsx,
        ],
    }
}

/// The first provider that serves `language`.
pub open spec fn provider_for_spec(language: Language) -> Option<LspProvider> {
    if provider_languages(LspProvider::RustAnalyzer).contains(language) {
        Some(LspProvider::RustAnalyzer)
    } else if provider_languages(LspProvider::TypeScriptLanguageServer).contains(language) {
        Some(LspProvider::TypeScriptLanguageServer)
    } else {
        None
    }
}

/// The executable that starts a provider; npm installs the TypeScript
/// server's Windows launcher as a `.cmd` file.
pub open spec fn provider_command_spec(p: LspProvider, windows: bool) -> Seq<char> {
    match p {
        LspProvider::RustAnalyzer => "rust-analyzer"@,
        LspProvider::TypeScriptLanguageServer => if windows {
            "typescript-language-server.cmd"@
        } else {
            "typescript-language-server"@
        },
    }
}

impl LspProvider {
    /// Stable identifier of the provider.
    pub fn id(self) -> (r: &'static str)
        ensures
            r@ == provider_id(self),
    {
        match self {
            LspProvider::RustAnalyzer => "rust-analyzer",
            LspProvider::TypeScriptLanguageServer => "typescript-language-server",
        }
    }

    /// Arguments that start a stdio session.
    pub fn start_args(self) -> (r: Vec<&'static str>)
        ensures
            self == LspProvider::RustAnalyzer ==> r@.len() == 0,
            self == LspProvider::TypeScriptLanguageServer ==> r@.len() == 1 && r@[0]@ == "--stdio"@,
    {
        match self {
            LspProvider::RustAnalyzer => Vec::new(),
            LspProvider::TypeScriptLanguageServer => {
                let mut v: Vec<&'static str> = Vec::new();
                v.push("--stdio");
                v
            },
        }
    }

    /// Arguments of the availability probe.
    pub fn probe_args(self) -> (r: Vec<&'static str>)
        ensures
            r@.len() == 1 && r@[0]@ == "--version"@,
    {
        let mut v: Vec<&'static str> = Vec::new();
        v.push("--version");
        v
    }

    /// Languages that the provider serves.
    pub fn languages(self) -> (r: Vec<Language>)
        ensures
            r@ == provider_languages(self),
    {
        match self {
            LspProvider::RustAnalyzer => vec![Language::Rust],
            LspProvider::TypeScriptLanguageServer => vec![
                Language::TypeScript,
                Language::Tsx,
                Language::JavaScript,
                Language::Jsx,
            ],
        }
    }
}

/// The supported provider for a language, if any.
pub fn provider_for(language: Language) -> (r: Option<LspProvider>)
    ensures
        r == provider_for_spec(language),
{
    match language {
        Language::Rust => {
            assert(provider_languages(LspProvider::RustAnalyzer)[0] == Language::Rust);
            Some(LspProvider::RustAnalyzer)
        },
        Language::TypeScript | Language::Tsx | Language::JavaScript | Language::Jsx => {
            let ghost ts = provider_languages(LspProvider::TypeScriptLanguageServer);
            assert(ts[0] == Language::TypeScript && ts[1] == Language::Tsx && ts[2]
                == Language::JavaScript && ts[3] == Language::Jsx);
            assert(!provider_languages(LspProvider::RustAnalyzer).contains(language)) by {
                assert(provider_languages(LspProvider::RustAnalyzer)[0] == Language::Rust);
            }
            Some(LspProvider::TypeScriptLanguageServer)
        },
        _ => {
            assert(!provider_languages(LspProvider::RustAnalyzer).contains(language)) by {
                assert(provider_languages(LspProvider::RustAnalyzer)[0] == Language::Rust);
            }
            assert(!provider_languages(LspProvider::TypeScriptLanguageServer).contains(language))
                by {
                let ts = provider_languages(LspProvider::TypeScriptLanguageServer);
                assert(ts[0] == Language::TypeScript && ts[1] == Language::Tsx && ts[2]
                    == Language::JavaScript && ts[3] == Language::Jsx);
            }
            None
        },
    }
}

/// The executable that starts `provider` on this platform.
pub fn provider_command(provider: LspProvider, windows: bool) -> (r: &'static str)
    ensures
        r@ == provider_command_spec(provider, windows),
{
    match provider {
        LspProvider::RustAnalyzer => "rust-analyzer",
        LspProvider::TypeScriptLanguageServer => if windows {
            "typescript-language-server.cmd"
        } else {
            "typescript-language-server"
        },
    }
}

/// The LSP `languageId` of a language.
pub open spec fn language_id_spec(language: Language) -> Seq<char> {
    match language {
        Language::TypeScript => "typescript"@,
        Language::Tsx => "typescriptreact"@,
        Language::JavaScript => "javascript"@,
        Language::Jsx => "javascriptreact"@,
        Language::Rust => "rust"@,
        _ => language_name(language),
    }
}

/// The LSP `languageId` of a language.
pub fn language_id(language: Language) -> (r: &'static str)
    ensures
        r@ == language_id_spec(language),
{
    match language {
        Language::TypeScript => "typescript",
        Language::Tsx => "typescriptreact",
        Language::JavaScript => "javascript",
        Language::Jsx => "javascriptreact",
        Language::Rust => "rust",
        _ => language.as_str(),
    }
}

/// Cached result of a provider's version probe.
#[derive(Debug, Clone, PartialEq, Eq)]
pub enum LspAvailability {
    Available,
    NotInstalled,
    Unusable(String),
}

/// The mathematical value of an availability.
pub enum AvailabilityView {
    Available,
    NotInstalled,
    Unusable(Seq<char>),
}

pub open spec fn availability_view(a: LspAvailability) -> AvailabilityView {
    match a {
        LspAvailability::Available => AvailabilityView::Available,
        LspAvailability::NotInstalled => AvailabilityView::NotInstalled,
        LspAvailability::Unusable(d) => AvailabilityView::Unusable(d@),
    }
}

impl LspAvailability {
    /// A copy of the availability.
    pub fn duplicate(&self) -> (r: LspAvailability)
        ensures
            availability_view(r) == availability_view(*self),
    {
        match self {
            LspAvailability::Available => LspAvailability::Available,
            LspAvailability::NotInstalled => LspAvailability::NotInstalled,
            LspAvailability::Unusable(d) => LspAvailability::Unusable(d.clone()),
        }
    }
}

/// What a version probe observed.
#[derive(Debug, Clone, Copy, PartialEq, Eq, Structural)]
pub enum ProbeOutcome {
    /// The command does not exist.
    NotFound,
    /// The process could not be started for another reason.
    StartFailed,
    /// The process exited with a success status.
    Succeeded,
    /// The process exited with a failure status.
    Failed,
    /// The process did not exit within the probe budget.
    TimedOut,
    /// The process state could not be observed.
    Unobservable,
}

/// The availability that a probe outcome establishes.
pub open spec fn probe_availability(outcome: ProbeOutcome) -> AvailabilityView {
    match outcome {
        ProbeOutcome::NotFound => AvailabilityView::NotInstalled,
        ProbeOutcome::StartFailed => AvailabilityView::Unusable(
            "the version probe could not start"@,
        ),
        ProbeOutcome::Succeeded => AvailabilityView::Available,
        ProbeOutcome::Failed => AvailabilityView::Unusable(
            "the version probe exited unsuccessfully"@,
        ),
        ProbeOutcome::TimedOut => AvailabilityView::Unusable(
            "the version probe exceeded the "@ + decimal(PROBE_TIMEOUT_MS as nat) + " ms budget"@,
        ),
        ProbeOutcome::Unobservable => AvailabilityView::Unusable(
            "the version probe could not be observed"@,
        ),
    }
}

/// Classifies a version probe.
pub fn availability_from_probe(outcome: ProbeOutcome) -> (r: LspAvailability)
    ensures
        availability_view(r) == probe_availability(outcome),
{
    match outcome {
        ProbeOutcome::NotFound => LspAvailability::NotInstalled,
        ProbeOutcome::StartFailed => LspAvailability::Unusable(
            "the version probe could not start".to_owned(),
        ),
        ProbeOutcome::Succeeded => LspAvailability::Available,
        ProbeOutcome::Failed => LspAvailability::Unusable(
            "the version probe exited unsuccessfully".to_owned(),
        ),
        ProbeOutcome::TimedOut => {
            let mut v = chars_of("the version probe exceeded the ");
            append_chars(&mut v, decimal_chars(PROBE_TIMEOUT_MS).as_slice());
            append_chars(&mut v, chars_of(" ms budget").as_slice());
            LspAvailability::Unusable(string_from_chars(v.as_slice()))
        },
        ProbeOutcome::Unobservable => LspAvailability::Unusable(
            "the version probe could not be observed".to_owned(),
        ),
    }
}

/// Status of one provider in a report.
#[derive(Debug)]
pub struct LspServerReport {
    pub provider: &'static str,
    pub command: &'static str,
    pub languages: Vec<&'static str>,
    pub status: &'static str,
    pub detail: Option<String>,
}

/// Providers relevant to the indexed languages, and languages no provider serves.
#[derive(Debug)]
pub struct LspReport {
    pub mode: &'static str,
    pub servers: Vec<LspServerReport>,
    pub unsupported_languages: Vec<String>,
}

/// The mathematical value of an [`LspServerReport`].
pub struct ServerReportView {
    pub provider: Seq<char>,
    pub command: Seq<char>,
    pub languages: Seq<Seq<char>>,
    pub status: Seq<char>,
    pub detail: Option<Seq<char>>,
}

pub open spec fn strs_view(v: Seq<&'static str>) -> Seq<Seq<char>> {
    v.map_values(|s: &'static str| s@)
}

pub open spec fn server_report_view(r: LspServerReport) -> ServerReportView {
    ServerReportView {
        provider: r.provider@,
        command: r.command@,
        languages: strs_view(r.languages@),
        status: r.status@,
        detail: opt_view(r.detail),
    }
}

pub open spec fn provider_language_names(p: LspProvider) -> Seq<Seq<char>> {
    provider_languages(p).map_values(|l: Language| language_name(l))
}

/// Report of a provider whose availability has not been probed.
pub open spec fn deferred_report(p: LspProvider, windows: bool) -> ServerReportView {
    ServerReportView {
        provider: provider_id(p),
        command: provider_command_spec(p, windows),
        languages: provider_language_names(p),
        status: "deferred"@,
        detail: None,
    }
}

/// Report of a provider with a known availability.
pub open spec fn probed_report(
    p: LspProvider,
    windows: bool,
    a: AvailabilityView,
) -> ServerReportView {
    ServerReportView {
        provider: provider_id(p),
        command: provider_command_spec(p, windows),
        languages: provider_language_names(p),
        status: match a {
            AvailabilityView::Available => "available"@,
            AvailabilityView::NotInstalled => "not_installed"@,
            AvailabilityView::Unusable(_) => "unavailable"@,
        },
        detail: match a {
            AvailabilityView::Available => None,
            AvailabilityView::NotInstalled => Some("not found on PATH"@),
            AvailabilityView::Unusable(d) => Some(d),
        },
    }
}

/// Every language, in the alphabetical order of its name.
pub open spec fn languages_by_name() -> Seq<Language> {
    seq![
        Language::C,
        Language::Cpp,
        Language::CSharp,
        Language::Go,
        Language::Java,
        Language::JavaScript,
        Language::Jsx,
        Language::Markdown,
        Language::Php,
        Language::Python,
        Language::Ruby,
        Language::Rust,
        Language::Tsx,
        Language::TypeScript,
    ]
}

fn all_languages_by_name() -> (r: Vec<Language>)
    ensures
        r@ == languages_by_name(),
{
    vec![
        Language::C,
        Language::Cpp,
        Language::CSharp,
        Language::Go,
        Language::Java,
        Language::JavaScript,
        Language::Jsx,
        Language::Markdown,
        Language::Php,
        Language::Python,
        Language::Ruby,
        Language::Rust,
        Language::Tsx,
        Language::TypeScript,
    ]
}

/// Whether some indexed language is served by `p`.
pub open spec fn provider_relevant(p: LspProvider, languages: Seq<Language>) -> bool {
    exists|i: int| 0 <= i < languages.len() && provider_for_spec(#[trigger] languages[i]) == Some(p)
}

/// Names of the indexed languages without a provider, sorted and distinct.
pub open spec fn unsupported_language_names(languages: Seq<Language>) -> Seq<Seq<char>> {
    languages_by_name().filter(
        |l: Language| languages.contains(l) && provider_for_spec(l) is None,
    ).map_values(|l: Language| language_name(l))
}

/// The optional-provider manager: its mode and the cached probe results.
#[derive(Debug)]
pub struct LspManager {
    mode: LspMode,
    availability: Vec<(LspProvider, LspAvailability)>,
}

/// The cached availability of `p` (the first cache entry for it).
pub open spec fn cached_in(cache: Seq<(LspProvider, LspAvailability)>, p: LspProvider) -> Option<
    AvailabilityView,
>
    decreases cache.len(),
{
    if cache.len() == 0 {
        None
    } else if cache[0].0 == p {
        Some(availability_view(cache[0].1))
    } else {
        cached_in(cache.drop_first(), p)
    }
}

impl LspManager {
    pub closed spec fn spec_mode(&self) -> LspMode {
        self.mode
    }

    pub closed spec fn cached(&self, p: LspProvider) -> Option<AvailabilityView> {
        cached_in(self.availability@, p)
    }

    /// A manager that has probed nothing yet.
    pub fn new(mode: LspMode) -> (r: Self)
        ensures
            r.spec_mode() == mode,
            forall|p: LspProvider| #[trigger] r.cached(p) is None,
    {
        LspManager { mode, availability: Vec::new() }
    }

    /// The configured mode.
    pub fn mode(&self) -> (r: LspMode)
        ensures
            r == self.spec_mode(),
    {
        self.mode
    }

    /// The cached availability of a provider, if it was probed.
    pub fn availability_for(&self, provider: LspProvider) -> (r: Option<LspAvailability>)
        ensures
            match r {
                Some(a) => self.cached(provider) == Some(availability_view(a)),
                None => self.cached(provider) is None,
            },
    {
        let mut i: usize = 0;
        assert(self.availability@.skip(0) =~= self.availability@);
        while i < self.availability.len()
            invariant
                i <= self.availability@.len(),
                cached_in(self.availability@, provider) == cached_in(
                    self.availability@.skip(i as int),
                    provider,
                ),
            decreases self.availability@.len() - i,
        {
            assert(self.availability@.skip(i as int).drop_first() =~= self.availability@.skip(
                i + 1,
            ));
            assert(self.availability@.skip(i as int)[0] == self.availability@[i as int]);
            if self.availability[i].0 == provider {
                return Some(self.availability[i].1.duplicate());
            }
            i = i + 1;
        }
        None
    }

    /// Records the result of probing a provider; the first probe is kept.
    pub fn record_availability(&mut self, provider: LspProvider, availability: LspAvailability)
        ensures
            final(self).spec_mode() == old(self).spec_mode(),
            final(self).cached(provider) == match old(self).cached(provider) {
                Some(a) => Some(a),
                None => Some(availability_view(availability)),
            },
            forall|q: LspProvider| q != provider ==> #[trigger] final(self).cached(q) == old(self).cached(q),
    {
        let ghost before = self.availability@;
        self.availability.push((provider, availability));
        proof {
            lemma_cached_in_push(before, (provider, availability));
        }
    }

    /// Providers relevant to `languages` that still need a probe.
    pub fn providers_to_probe(&self, languages: &[Language]) -> (r: Vec<LspProvider>)
        ensures
            forall|p: LspProvider|
                r@.contains(p) <==> (self.spec_mode() == LspMode::Auto && provider_relevant(
                    p,
                    languages@,
                ) && self.cached(p) is None),
    {
        let mut r: Vec<LspProvider> = Vec::new();
        if self.mode == LspMode::Off {
            return r;
        }
        let order = vec![LspProvider::RustAnalyzer, LspProvider::TypeScriptLanguageServer];
        let mut k: usize = 0;
        while k < order.len()
            invariant
                k <= order@.len() == 2,
                order@ == provider_order(),
                self.spec_mode() == LspMode::Auto,
                forall|p: LspProvider|
                    #[trigger] r@.contains(p) <==> order@.take(k as int).contains(p) && provider_relevant(
                        p,
                        languages@,
                    ) && self.cached(p) is None,
            decreases order@.len() - k,
        {
            let p = order[k];
            let ghost old_r = r@;
            assert(order@.take(k + 1) =~= order@.take(k as int).push(p));
            if relevant(p, languages) && self.availability_for(p).is_none() {
                r.push(p);
                assert(r@ =~= old_r.push(p));
            }
            proof {
                assert forall|q: LspProvider| #[trigger] order@.take(k + 1).contains(q) <==> (
                order@.take(k as int).contains(q) || q == p) by {
                    if order@.take(k + 1).contains(q) && q != p {
                        let j = choose|j: int| 0 <= j < k + 1 && #[trigger] order@.take(k + 1)[j] == q;
                        assert(order@.take(k as int)[j] == q);
                    }
                    if q == p {
                        assert(order@.take(k + 1)[k as int] == q);
                    }
                    if order@.take(k as int).contains(q) {
                        let j = choose|j: int| 0 <= j < k && #[trigger] order@.take(k as int)[j] == q;
                        assert(order@.take(k + 1)[j] == q);
                    }
                }
                assert forall|q: LspProvider| #[trigger] r@.contains(q) <==> (old_r.contains(q)
                    || (q == p && r@.len() > old_r.len())) by {
                    if r@.len() > old_r.len() {
                        if r@.contains(q) && q != p {
                            let j = choose|j: int| 0 <= j < r@.len() && #[trigger] r@[j] == q;
                            assert(old_r[j] == q);
                        }
                        if old_r.contains(q) {
                            let j = choose|j: int| 0 <= j < old_r.len() && #[trigger] old_r[j] == q;
                            assert(r@[j] == q);
                        }
                        if q == p {
                            assert(r@[r@.len() - 1] == q);
                        }
                    }
                }
            }
            k = k + 1;
        }
        proof {
            assert(order@.take(2) =~= order@);
            assert forall|p: LspProvider| #[trigger] order@.contains(p) by {
                match p {
                    LspProvider::RustAnalyzer => assert(order@[0] == p),
                    LspProvider::TypeScriptLanguageServer => assert(order@[1] == p),
                }
            }
        }
        r
    }

    /// Describes the relevant providers without starting processes when
    /// `probe` is false; with `probe`, reports each provider's cached probe.
    pub fn report(&self, languages: &[Language], probe: bool, windows: bool) -> (r: LspReport)
        requires
            probe ==> forall|p: LspProvider|
                provider_relevant(p, languages@) ==> #[trigger] self.cached(p) is Some,
        ensures
            r.mode@ == lsp_mode_name(self.spec_mode()),
            r.servers@.map_values(|s: LspServerReport| server_report_view(s)) == if self.spec_mode()
                == LspMode::Off {
                Seq::<ServerReportView>::empty()
            } else {
                provider_order().filter(|p: LspProvider| provider_relevant(p, languages@)).map_values(
                    |p: LspProvider|
                        if probe {
                            probed_report(p, windows, self.cached(p).unwrap())
                        } else {
                            deferred_report(p, windows)
                        },
                )
            },
            r.unsupported_languages@.map_values(|s: String| s@) == unsupported_language_names(
                languages@,
            ),
    {
        let mut servers: Vec<LspServerReport> = Vec::new();
        let ghost expected = provider_order().filter(
            |p: LspProvider| provider_relevant(p, languages@),
        ).map_values(
            |p: LspProvider|
                if probe {
                    probed_report(p, windows, self.cached(p).unwrap())
                } else {
                    deferred_report(p, windows)
                },
        );
        if self.mode != LspMode::Off {
            let order = vec![LspProvider::RustAnalyzer, LspProvider::TypeScriptLanguageServer];
            let mut k: usize = 0;
            assert(provider_order().take(0).filter(|p: LspProvider| provider_relevant(p, languages@))
                =~= Seq::<LspProvider>::empty());
            while k < order.len()
                invariant
                    k <= order@.len() == 2,
                    order@ == provider_order(),
                    probe ==> forall|p: LspProvider|
                        provider_relevant(p, languages@) ==> #[trigger] self.cached(p) is Some,
                    servers@.map_values(|s: LspServerReport| server_report_view(s))
                        == provider_order().take(k as int).filter(
                        |p: LspProvider| provider_relevant(p, languages@),
                    ).map_values(
                        |p: LspProvider|
                            if probe {
                                probed_report(p, windows, self.cached(p).unwrap())
                            } else {
                                deferred_report(p, windows)
                            },
                    ),
                decreases order@.len() - k,
            {
                let p = order[k];
                let ghost before = servers@.map_values(|s: LspServerReport| server_report_view(s));
                proof {
                    assert(provider_order().take(k + 1).drop_last() =~= provider_order().take(
                        k as int,
                    ));
                    lemma_filter_push(
                        provider_order().take(k as int),
                        |p: LspProvider| provider_relevant(p, languages@),
                        p,
                    );
                    assert(provider_order().take(k as int).push(p) =~= provider_order().take(
                        k + 1,
                    ));
                }
                if relevant(p, languages) {
                    let report = if probe {
                        match self.availability_for(p) {
                            Some(a) => server_report(p, &a, windows),
                            None => {
                                // Unreachable: every relevant provider was probed.
                                assert(false);
                                deferred_server_report(p, windows)
                            },
                        }
                    } else {
                        deferred_server_report(p, windows)
                    };
                    servers.push(report);
                    assert(servers@.map_values(|s: LspServerReport| server_report_view(s))
                        =~= before.push(server_report_view(report)));
                } else {
                    assert(servers@.map_values(|s: LspServerReport| server_report_view(s))
                        =~= before);
                }
                k = k + 1;
            }
            assert(provider_order().take(2) =~= provider_order());
        }
        let unsupported = unsupported_languages(languages);
        LspReport { mode: self.mode.as_str(), servers, unsupported_languages: unsupported }
    }

    /// The provider that serves `language`, or the result that explains why
    /// no semantic references can be requested.
    pub fn reference_provider(&self, language: Language) -> (r: Result<LspProvider, SemanticReferenceResult>)
        requires
            self.spec_mode() != LspMode::Off ==> (provider_for_spec(language) matches Some(p) ==> self.cached(
                p,
            ) is Some),
        ensures
            self.spec_mode() == LspMode::Off ==> r == Err::<LspProvider, SemanticReferenceResult>(
                SemanticReferenceResult::Disabled,
            ),
            self.spec_mode() == LspMode::Auto ==> match provider_for_spec(language) {
                None => r matches Err(SemanticReferenceResult::Unsupported { language: l }) && l@
                    == language_name(language),
                Some(p) => match self.cached(p).unwrap() {
                    AvailabilityView::Available => r == Ok::<LspProvider, SemanticReferenceResult>(p),
                    AvailabilityView::NotInstalled => r matches Err(
                        SemanticReferenceResult::Unavailable { provider, message },
                    ) && provider@ == provider_id(p) && message@ == "'"@ + provider_command_spec(
                        p,
                        false,
                    ) + "' was not found on PATH"@,
                    AvailabilityView::Unusable(d) => r matches Err(
                        SemanticReferenceResult::Unavailable { provider, message },
                    ) && provider@ == provider_id(p) && message@ == d,
                },
            },
    {
        if self.mode == LspMode::Off {
            return Err(SemanticReferenceResult::Disabled);
        }
        let provider = match provider_for(language) {
            None => {
                return Err(
                    SemanticReferenceResult::Unsupported { language: language.as_str().to_owned() },
                );
            },
            Some(p) => p,
        };
        match self.availability_for(provider) {
            Some(LspAvailability::Available) => Ok(provider),
            Some(LspAvailability::NotInstalled) => {
                let mut m = chars_of("'");
                append_chars(&mut m, chars_of(provider_command(provider, false)).as_slice());
                append_chars(&mut m, chars_of("' was not found on PATH").as_slice());
                Err(
                    SemanticReferenceResult::Unavailable {
                        provider: provider.id(),
                        message: string_from_chars(m.as_slice()),
                    },
                )
            },
            Some(LspAvailability::Unusable(detail)) => Err(
                SemanticReferenceResult::Unavailable { provider: provider.id(), message: detail },
            ),
            None => {
                assert(false);
                Err(SemanticReferenceResult::Disabled)
            },
        }
    }
}

proof fn lemma_cached_in_push(
    cache: Seq<(LspProvider, LspAvailability)>,
    e: (LspProvider, LspAvailability),
)
    ensures
        forall|q: LspProvider| #[trigger]
            cached_in(cache.push(e), q) == match cached_in(cache, q) {
                Some(a) => Some(a),
                None => if e.0 == q {
                    Some(availability_view(e.1))
                } else {
                    None
                },
            },
    decreases cache.len(),
{
    if cache.len() > 0 {
        lemma_cached_in_push(cache.drop_first(), e);
        assert(cache.push(e).drop_first() =~= cache.drop_first().push(e));
        assert(cache.push(e)[0] == cache[0]);
        assert forall|q: LspProvider| #[trigger]
            cached_in(cache.push(e), q) == match cached_in(cache, q) {
                Some(a) => Some(a),
                None => if e.0 == q {
                    Some(availability_view(e.1))
                } else {
                    None
                },
            } by {
            if cache[0].0 != q {
                assert(cached_in(cache.push(e), q) == cached_in(cache.push(e).drop_first(), q));
            }
        }
    } else {
        assert(cache.push(e).drop_first() =~= Seq::<(LspProvider, LspAvailability)>::empty());
        assert(cache.push(e)[0] == e);
        assert forall|q: LspProvider| #[trigger]
            cached_in(cache.push(e), q) == match cached_in(cache, q) {
                Some(a) => Some(a),
                None => if e.0 == q {
                    Some(availability_view(e.1))
                } else {
                    None
                },
            } by {
            if e.0 != q {
                assert(cached_in(cache.push(e), q) == cached_in(cache.push(e).drop_first(), q));
            }
        }
    }
}

proof fn lemma_filter_push<A>(s: Seq<A>, pred: spec_fn(A) -> bool, x: A)
    ensures
        s.push(x).filter(pred) == if pred(x) {
            s.filter(pred).push(x)
        } else {
            s.filter(pred)
        },
{
    reveal(Seq::filter);
    assert(s.push(x).drop_last() =~= s);
}

/// Whether some language in `languages` is served by `provider`.
fn relevant(provider: LspProvider, languages: &[Language]) -> (r: bool)
    ensures
        r == provider_relevant(provider, languages@),
{
    let mut i: usize = 0;
    while i < languages.len()
        invariant
            i <= languages@.len(),
            forall|j: int| 0 <= j < i ==> provider_for_spec(#[trigger] languages@[j]) != Some(
                provider,
            ),
        decreases languages@.len() - i,
    {
        if provider_for(languages[i]) == Some(provider) {
            return true;
        }
        i = i + 1;
    }
    false
}

/// Names of the provider's languages.
fn language_names(provider: LspProvider) -> (r: Vec<&'static str>)
    ensures
        strs_view(r@) == provider_language_names(provider),
{
    let langs = provider.languages();
    let mut names: Vec<&'static str> = Vec::new();
    let mut i: usize = 0;
    while i < langs.len()
        invariant
            i <= langs@.len(),
            langs@ == provider_languages(provider),
            strs_view(names@) == provider_language_names(provider).take(i as int),
        decreases langs@.len() - i,
    {
        let name = langs[i].as_str();
        let ghost before = strs_view(names@);
        names.push(name);
        assert(strs_view(names@) =~= before.push(name@));
        assert(provider_language_names(provider).take(i + 1) =~= provider_language_names(
            provider,
        ).take(i as int).push(language_name(langs@[i as int])));
        i = i + 1;
    }
    assert(provider_language_names(provider).take(langs@.len() as int) =~= provider_language_names(
        provider,
    ));
    names
}

/// Report of a provider that has not been probed.
fn deferred_server_report(provider: LspProvider, windows: bool) -> (r: LspServerReport)
    ensures
        server_report_view(r) == deferred_report(provider, windows),
{
    LspServerReport {
        provider: provider.id(),
        command: provider_command(provider, windows),
        languages: language_names(provider),
        status: "deferred",
        detail: None,
    }
}

/// Report of a probed provider.
fn server_report(provider: LspProvider, availability: &LspAvailability, windows: bool) -> (r:
    LspServerReport)
    ensures
        server_report_view(r) == probed_report(provider, windows, availability_view(*availability)),
{
    let (status, detail) = match availability {
        LspAvailability::Available => ("available", None),
        LspAvailability::NotInstalled => ("not_installed", Some("not found on PATH".to_owned())),
        LspAvailability::Unusable(d) => ("unavailable", Some(d.clone())),
    };
    LspServerReport {
        provider: provider.id(),
        command: provider_command(provider, windows),
        languages: language_names(provider),
        status,
        detail,
    }
}

/// Sorted, distinct names of the languages in `languages` that no provider serves.
fn unsupported_languages(languages: &[Language]) -> (r: Vec<String>)
    ensures
        r@.map_values(|s: String| s@) == unsupported_language_names(languages@),
{
    let all = all_languages_by_name();
    let ghost pred = |l: Language| languages@.contains(l) && provider_for_spec(l) is None;
    let mut names: Vec<String> = Vec::new();
    let mut k: usize = 0;
    assert(languages_by_name().take(0).filter(pred) =~= Seq::<Language>::empty());
    while k < all.len()
        invariant
            k <= all@.len(),
            all@ == languages_by_name(),
            pred == (|l: Language| languages@.contains(l) && provider_for_spec(l) is None),
            names@.map_values(|s: String| s@) == languages_by_name().take(k as int).filter(
                pred,
            ).map_values(|l: Language| language_name(l)),
        decreases all@.len() - k,
    {
        let l = all[k];
        proof {
            lemma_filter_push(languages_by_name().take(k as int), pred, l);
            assert(languages_by_name().take(k as int).push(l) =~= languages_by_name().take(
                k + 1,
            ));
        }
        let ghost before = names@.map_values(|s: String| s@);
        if contains_language(languages, l) && provider_for(l).is_none() {
            let name = l.as_str().to_owned();
            names.push(name);
            assert(names@.map_values(|s: String| s@) =~= before.push(language_name(l)));
        } else {
            assert(names@.map_values(|s: String| s@) =~= before);
        }
        k = k + 1;
    }
    assert(languages_by_name().take(all@.len() as int) =~= languages_by_name());
    names
}

fn contains_language(languages: &[Language], l: Language) -> (r: bool)
    ensures
        r == languages@.contains(l),
{
    let mut i: usize = 0;
    while i < languages.len()
        invariant
            i <= languages@.len(),
            forall|j: int| 0 <= j < i ==> languages@[j] != l,
        decreases languages@.len() - i,
    {
        if languages[i] == l {
            assert(languages@[i as int] == l);
            return true;
        }
        i = i + 1;
    }
    false
}

/// Why semantic references are or are not available for one symbol.
#[derive(Debug)]
pub enum SemanticReferenceResult {
    Disabled,
    Unsupported { language: String },
    Unavailable { provider: &'static str, message: String },
    NotApplicable { provider: &'static str, message: String },
    Failed { provider: &'static str, message: String },
    Success { provider: &'static str, locations: Vec<LspLocation> },
}

/// One location of a semantic reference, 0-based as LSP reports it.
#[derive(Debug, Clone, PartialEq, Eq)]
pub struct LspLocation {
    pub uri: String,
    pub start_line: u32,
    pub start_character: u32,
    pub end_line: u32,
    pub end_character: u32,
}

/// A 0-based line and UTF-16 character position.
#[derive(Debug, Clone, Copy, PartialEq, Eq, Structural)]
pub struct LspPosition {
    pub line: u32,
    pub character: u32,
}

// ---------------------------------------------------------------------------
// Symbol positions
// ---------------------------------------------------------------------------
/// Characters that may continue an identifier.
pub open spec fn identifier_char(c: char) -> bool {
    c == '_' || c == '$' || unicode_alphanumeric(c)
}

/// First occurrence at or after `start` of `name` as a whole identifier.
pub open spec fn ident_from(line: Seq<char>, name: Seq<char>, start: int) -> Option<int>
    decreases line.len() + 1 - start,
{
    if name.len() == 0 || start < 0 {
        None
    } else {
        let f = crate::text::find_seq_from(line, name, start);
        proof {
            crate::text::lemma_find_seq_from_bounds(line, name, start);
        }
        if f < start {
            None
        } else {
            let e = f + name.len();
            if (f == 0 || !identifier_char(line[f - 1])) && (e >= line.len() || !identifier_char(
                line[e],
            )) {
                Some(f)
            } else {
                ident_from(line, name, e)
            }
        }
    }
}

/// Position of the symbol's identifier: the first line of its definition
/// range that contains it as a whole word, in UTF-16 units.
pub open spec fn position_from(
    lines: Seq<Seq<char>>,
    name: Seq<char>,
    start: int,
    end: int,
    i: int,
) -> Option<LspPosition>
    decreases lines.len() - i,
{
    if i < 0 || i >= lines.len() {
        None
    } else if i < start || i >= end {
        position_from(lines, name, start, end, i + 1)
    } else {
        match ident_from(lines[i], name, 0) {
            Some(f) => {
                let c = utf16_len(lines[i].take(f));
                if i <= u32::MAX && c <= u32::MAX {
                    Some(LspPosition { line: i as u32, character: c as u32 })
                } else {
                    None
                }
            },
            None => position_from(lines, name, start, end, i + 1),
        }
    }
}

pub open spec fn symbol_position_spec(source: Seq<char>, start_line: u32, end_line: u32, name: Seq<
    char,
>) -> Option<LspPosition> {
    if start_line == 0 {
        None
    } else {
        position_from(lines_of(source), name, start_line - 1, end_line as int, 0)
    }
}

/// Whether a character may continue an identifier.
fn identifier_character(c: char) -> (r: bool)
    ensures
        r == identifier_char(c),
{
    c == '_' || c == '$' || char_is_alphanumeric(c)
}

/// Offset of the first whole-identifier occurrence of `name` in `line`.
fn identifier_offset(line: &[char], name: &[char]) -> (r: Option<usize>)
    ensures
        match r {
            Some(f) => ident_from(line@, name@, 0) == Some(f as int) && f <= line@.len(),
            None => ident_from(line@, name@, 0) is None,
        },
{
    if name.len() == 0 {
        return None;
    }
    let mut start: usize = 0;
    let len = line.len();
    while start <= len
        invariant
            start <= len + 1,
            len == line@.len(),
            name@.len() > 0,
            ident_from(line@, name@, 0) == ident_from(line@, name@, start as int),
        decreases len + 1 - start,
    {
        proof {
            crate::text::lemma_find_seq_from_bounds(line@, name@, start as int);
        }
        let found = match crate::text::find_seq(line, name, start) {
            None => {
                return None;
            },
            Some(f) => f,
        };
        let end = found + name.len();
        let before_ok = found == 0 || !identifier_character(line[found - 1]);
        let after_ok = end >= len || !identifier_character(line[end]);
        if before_ok && after_ok {
            return Some(found);
        }
        start = end;
    }
    None
}

/// The 0-based line and UTF-16 character of a symbol's identifier within its
/// indexed definition range.
pub fn symbol_position(source: &str, node: &CodeNode) -> (r: Option<LspPosition>)
    ensures
        r == symbol_position_spec(source@, node.start_line, node.end_line, node.name@),
{
    if node.start_line == 0 {
        return None;
    }
    let start = (node.start_line - 1) as usize;
    let end = node.end_line as usize;
    let src = chars_of(source);
    let lines = crate::indexer::markdown::split_lines(src.as_slice());
    let name = chars_of(node.name.as_str());
    let ghost ls = seqs_view(lines@);
    let mut index: usize = 0;
    while index < lines.len()
        invariant
            index <= lines@.len(),
            ls == seqs_view(lines@),
            ls == lines_of(source@),
            name@ == node.name@,
            start as int == node.start_line - 1,
            end as int == node.end_line,
            symbol_position_spec(source@, node.start_line, node.end_line, node.name@)
                == position_from(ls, name@, start as int, end as int, index as int),
        decreases lines@.len() - index,
    {
        assert(ls[index as int] == lines@[index as int]@);
        if index >= start && index < end {
            match identifier_offset(lines[index].as_slice(), name.as_slice()) {
                Some(offset) => {
                    let character = if (offset as u64) <= 0x1000_0000_0000u64 {
                        chars_utf16_len(lines[index].as_slice(), offset)
                    } else {
                        proof {
                            crate::text::lemma_utf16_len_at_least(lines@[index as int]@.take(offset as int));
                        }
                        0x1_0000_0000
                    };
                    if index as u64 <= u32::MAX as u64 && character <= u32::MAX as u64 {
                        return Some(
                            LspPosition { line: index as u32, character: character as u32 },
                        );
                    }
                    return None;
                },
                None => {},
            }
        }
        index = index + 1;
    }
    None
}

/// Where a semantic reference query for `node` starts, from its file's text
/// (`None` when the file could not be read): the symbol's position, or why
/// the provider cannot be asked.
pub fn reference_position(provider: LspProvider, source: Option<&str>, node: &CodeNode) -> (r: Result<
    LspPosition,
    SemanticReferenceResult,
>)
    ensures
        match source {
            None => r matches Err(SemanticReferenceResult::Failed { provider: p, message: m }) && p@ == provider_id(
                provider,
            ) && m@ == "could not read the indexed symbol file"@,
            Some(text) => match symbol_position_spec(text@, node.start_line, node.end_line, node.name@) {
                Some(pos) => r == Ok::<LspPosition, SemanticReferenceResult>(pos),
                None => r matches Err(SemanticReferenceResult::NotApplicable { provider: p, message: m }) && p@
                    == provider_id(provider) && m@
                    == "the indexed definition range did not contain the symbol identifier"@,
            },
        },
{
    let text = match source {
        None => {
            return Err(
                SemanticReferenceResult::Failed {
                    provider: provider.id(),
                    message: "could not read the indexed symbol file".to_owned(),
                },
            );
        },
        Some(t) => t,
    };
    match symbol_position(text, node) {
        Some(pos) => Ok(pos),
        None => Err(
            SemanticReferenceResult::NotApplicable {
                provider: provider.id(),
                message: "the indexed definition range did not contain the symbol identifier".to_owned(),
            },
        ),
    }
}

// ---------------------------------------------------------------------------
// File URIs
// ---------------------------------------------------------------------------
/// Calls `String::from_utf8`: the string of valid UTF-8 bytes, or nothing.
#[verifier::external_body]
pub(crate) fn string_from_utf8(bytes: Vec<u8>) -> (r: Option<String>)
    ensures
        match r {
            Some(s) => valid_utf8(bytes@) && s@ == decode_utf8(bytes@),
            None => !valid_utf8(bytes@),
        },
{
    String::from_utf8(bytes).ok()
}

/// Value of an ASCII hexadecimal digit.
pub open spec fn hex_value(b: u8) -> Option<nat> {
    if 48 <= b <= 57 {
        Some((b - 48) as nat)
    } else if 97 <= b <= 102 {
        Some((b - 87) as nat)
    } else if 65 <= b <= 70 {
        Some((b - 55) as nat)
    } else {
        None
    }
}

/// Bytes of `bytes[i..]` with `%XY` escapes decoded, appended to `acc`;
/// nothing when an escape is cut short or not hexadecimal.
pub open spec fn decode_acc(bytes: Seq<u8>, i: int, acc: Seq<u8>) -> Option<Seq<u8>>
    decreases bytes.len() - i,
{
    if i < 0 || i >= bytes.len() {
        Some(acc)
    } else if bytes[i] == 37 {
        if i + 2 >= bytes.len() {
            None
        } else {
            match (hex_value(bytes[i + 1]), hex_value(bytes[i + 2])) {
                (Some(h), Some(l)) => decode_acc(bytes, i + 3, acc.push((h * 16 + l) as u8)),
                _ => None,
            }
        }
    } else {
        decode_acc(bytes, i + 1, acc.push(bytes[i]))
    }
}

/// Percent-decoding of a string's UTF-8 bytes, when the result is UTF-8.
pub open spec fn percent_decode_spec(s: Seq<char>) -> Option<Seq<char>> {
    match decode_acc(encode_utf8(s), 0, Seq::empty()) {
        Some(b) => if valid_utf8(b) {
            Some(decode_utf8(b))
        } else {
            None
        },
        None => None,
    }
}

pub open spec fn file_scheme() -> Seq<char> {
    seq!['f', 'i', 'l', 'e', ':', '/', '/']
}

/// The local path of a `file:///...` URI; remote hosts are refused.
pub open spec fn path_from_file_uri_spec(uri: Seq<char>) -> Option<Seq<char>> {
    if !crate::text::starts_with(uri, file_scheme()) {
        None
    } else {
        let path = uri.skip(7);
        if path.len() == 0 || path[0] != '/' {
            None
        } else {
            percent_decode_spec(path)
        }
    }
}

fn hex_digit_value(b: u8) -> (r: Option<u8>)
    ensures
        match r {
            Some(v) => hex_value(b) == Some(v as nat) && v < 16,
            None => hex_value(b) is None,
        },
{
    if 48 <= b && b <= 57 {
        Some(b - 48)
    } else if 97 <= b && b <= 102 {
        Some(b - 87)
    } else if 65 <= b && b <= 70 {
        Some(b - 55)
    } else {
        None
    }
}

/// Decodes `%XY` escapes and requires the result to be UTF-8.
fn percent_decode(value: &str) -> (r: Option<String>)
    ensures
        opt_view(r) == percent_decode_spec(value@),
{
    let bytes = value.as_bytes();
    let mut decoded: Vec<u8> = Vec::new();
    let mut index: usize = 0;
    let len = bytes.len();
    while index < len
        invariant
            len == bytes@.len(),
            bytes@ == encode_utf8(value@),
            index <= len,
            decode_acc(bytes@, 0, Seq::empty()) == decode_acc(bytes@, index as int, decoded@),
        decreases len - index,
    {
        if bytes[index] == 37 {
            if len - index <= 2 {
                return None;
            }
            let high = match hex_digit_value(bytes[index + 1]) {
                Some(h) => h,
                None => {
                    return None;
                },
            };
            let low = match hex_digit_value(bytes[index + 2]) {
                Some(l) => l,
                None => {
                    return None;
                },
            };
            decoded.push(high * 16 + low);
            index = index + 3;
        } else {
            decoded.push(bytes[index]);
            index = index + 1;
        }
    }
    string_from_utf8(decoded)
}

/// The local path that a `file://` URI names, without a host.
pub fn path_from_file_uri(uri: &str) -> (r: Option<String>)
    ensures
        opt_view(r) == path_from_file_uri_spec(uri@),
{
    let u = chars_of(uri);
    let scheme = chars_of("file://");
    proof {
        reveal_strlit("file://");
    }
    assert(scheme@ =~= file_scheme());
    if !crate::text::starts_with_chars(u.as_slice(), scheme.as_slice()) {
        return None;
    }
    let path = copy_range(u.as_slice(), 7, u.len());
    if path.len() == 0 || path[0] != '/' {
        return None;
    }
    let text = string_from_chars(path.as_slice());
    percent_decode(text.as_str())
}

/// Bytes that a file URI keeps unescaped.
pub open spec fn uri_unreserved(b: u8) -> bool {
    (48 <= b <= 57) || (65 <= b <= 90) || (97 <= b <= 122) || b == 45 || b == 46 || b == 95 || b
        == 126 || b == 47 || b == 58
}

/// Uppercase hexadecimal digit of `d < 16`.
pub open spec fn hex_upper(d: nat) -> char {
    if d < 10 {
        crate::text::digit_char(d)
    } else if d == 10 {
        'A'
    } else if d == 11 {
        'B'
    } else if d == 12 {
        'C'
    } else if d == 13 {
        'D'
    } else if d == 14 {
        'E'
    } else {
        'F'
    }
}

pub open spec fn encode_byte(b: u8) -> Seq<char> {
    if uri_unreserved(b) {
        seq![b as char]
    } else {
        seq!['%', hex_upper((b / 16) as nat), hex_upper((b % 16) as nat)]
    }
}

/// Percent-encoding of the bytes of a path.
pub open spec fn percent_encoded(bytes: Seq<u8>) -> Seq<char>
    decreases bytes.len(),
{
    if bytes.len() == 0 {
        Seq::empty()
    } else {
        percent_encoded(bytes.drop_last()) + encode_byte(bytes.last())
    }
}

pub open spec fn verbatim_prefix() -> Seq<char> {
    seq!['\\', '\\', '?', '\\']
}

/// The file URI of an absolute, canonical path: on Windows without the
/// `\\?\` verbatim prefix, with `/` separators and a leading `/`.
pub open spec fn file_uri_spec(path: Seq<char>, windows: bool) -> Seq<char> {
    let p1 = if windows && crate::text::starts_with(path, verbatim_prefix()) {
        path.skip(4)
    } else {
        path
    };
    let p2 = p1.map_values(|c: char| if c == '\\' { '/' } else { c });
    let p3 = if p2.len() > 0 && p2[0] == '/' {
        p2
    } else {
        seq!['/'] + p2
    };
    file_scheme() + percent_encoded(encode_utf8(p3))
}

fn hex_upper_char(d: u8) -> (r: char)
    requires
        d < 16,
    ensures
        r == hex_upper(d as nat),
{
    if d < 10 {
        crate::text::digit(d as u64)
    } else if d == 10 {
        'A'
    } else if d == 11 {
        'B'
    } else if d == 12 {
        'C'
    } else if d == 13 {
        'D'
    } else if d == 14 {
        'E'
    } else {
        'F'
    }
}

/// Percent-encodes every byte outside the unreserved path set.
fn percent_encode_path(path: &str) -> (r: Vec<char>)
    ensures
        r@ == percent_encoded(encode_utf8(path@)),
{
    let bytes = path.as_bytes();
    let mut encoded: Vec<char> = Vec::new();
    let mut i: usize = 0;
    while i < bytes.len()
        invariant
            i <= bytes@.len(),
            bytes@ == encode_utf8(path@),
            encoded@ == percent_encoded(bytes@.take(i as int)),
        decreases bytes@.len() - i,
    {
        let b = bytes[i];
        assert(bytes@.take(i + 1).drop_last() =~= bytes@.take(i as int));
        if (48 <= b && b <= 57) || (65 <= b && b <= 90) || (97 <= b && b <= 122) || b == 45 || b
            == 46 || b == 95 || b == 126 || b == 47 || b == 58 {
            encoded.push(b as char);
        } else {
            encoded.push('%');
            encoded.push(hex_upper_char(b / 16));
            encoded.push(hex_upper_char(b % 16));
        }
        i = i + 1;
    }
    assert(bytes@.take(bytes@.len() as int) =~= bytes@);
    encoded
}

/// The `file://` URI of an absolute path (canonicalized by the caller).
pub fn file_uri_from_path(path: &str, windows: bool) -> (r: String)
    ensures
        r@ == file_uri_spec(path@, windows),
{
    let p0 = chars_of(path);
    let prefix = chars_of("\\\\?\\");
    proof {
        reveal_strlit("\\\\?\\");
    }
    assert(prefix@ =~= verbatim_prefix());
    let p1 = if windows && crate::text::starts_with_chars(p0.as_slice(), prefix.as_slice()) {
        copy_range(p0.as_slice(), 4, p0.len())
    } else {
        p0
    };
    let mut p2: Vec<char> = Vec::new();
    let mut i: usize = 0;
    while i < p1.len()
        invariant
            i <= p1@.len(),
            p2@ == p1@.take(i as int).map_values(|c: char| if c == '\\' { '/' } else { c }),
        decreases p1@.len() - i,
    {
        let c = p1[i];
        p2.push(if c == '\\' { '/' } else { c });
        assert(p2@ =~= p1@.take(i + 1).map_values(|c: char| if c == '\\' { '/' } else { c }));
        i = i + 1;
    }
    assert(p1@.take(p1@.len() as int) =~= p1@);
    let p3 = if p2.len() > 0 && p2[0] == '/' {
        p2
    } else {
        let mut v: Vec<char> = Vec::new();
        v.push('/');
        append_chars(&mut v, p2.as_slice());
        v
    };
    let text = string_from_chars(p3.as_slice());
    let mut uri = chars_of("file://");
    proof {
        reveal_strlit("file://");
    }
    append_chars(&mut uri, percent_encode_path(text.as_str()).as_slice());
    assert(uri@ =~= file_scheme() + percent_encoded(encode_utf8(p3@)));
    string_from_chars(uri.as_slice())
}

/// The bytes that `encode_byte(b)` spells.
pub open spec fn encoded_byte_bytes(b: u8) -> Seq<u8> {
    if uri_unreserved(b) {
        seq![b]
    } else {
        seq![37u8, hex_upper((b / 16) as nat) as u8, hex_upper((b % 16) as nat) as u8]
    }
}

/// The bytes that `percent_encoded(bytes)` spells.
pub open spec fn uri_bytes(bytes: Seq<u8>) -> Seq<u8>
    decreases bytes.len(),
{
    if bytes.len() == 0 {
        Seq::empty()
    } else {
        uri_bytes(bytes.drop_last()) + encoded_byte_bytes(bytes.last())
    }
}

/// An uppercase hexadecimal digit is ASCII and reads back as its value.
pub proof fn lemma_hex_upper_reads_back(d: nat)
    requires
        d < 16,
    ensures
        '\0' <= hex_upper(d) <= '\u{7f}',
        hex_value(hex_upper(d) as u8) == Some(d),
{
}

/// Each character of `encode_byte(b)` is ASCII, with the byte of `encoded_byte_bytes(b)`.
pub proof fn lemma_encode_byte_is_ascii(b: u8)
    ensures
        encode_byte(b).len() == encoded_byte_bytes(b).len(),
        forall|i: int|
            0 <= i < encode_byte(b).len() ==> '\0' <= #[trigger] encode_byte(b)[i] <= '\u{7f}'
                && encode_byte(b)[i] as u8 == encoded_byte_bytes(b)[i],
{
    if !uri_unreserved(b) {
        lemma_hex_upper_reads_back((b / 16) as nat);
        lemma_hex_upper_reads_back((b % 16) as nat);
    }
}

/// A percent-encoded byte string is ASCII, and its UTF-8 bytes are `uri_bytes`.
pub proof fn lemma_percent_encoded_bytes(bytes: Seq<u8>)
    ensures
        is_ascii_chars(percent_encoded(bytes)),
        encode_utf8(percent_encoded(bytes)) == uri_bytes(bytes),
    decreases bytes.len(),
{
    let e = percent_encoded(bytes);
    if bytes.len() > 0 {
        lemma_percent_encoded_bytes(bytes.drop_last());
        is_ascii_chars_encode_utf8(percent_encoded(bytes.drop_last()));
        lemma_encode_byte_is_ascii(bytes.last());
        let front = percent_encoded(bytes.drop_last());
        let back = encode_byte(bytes.last());
        assert forall|i: int| 0 <= i < e.len() implies '\0' <= #[trigger] e[i] <= '\u{7f}' && e[i]
            as u8 == uri_bytes(bytes)[i] by {
            if i >= front.len() {
                assert(e[i] == back[i - front.len()]);
            }
        }
    }
    is_ascii_chars_encode_utf8(e);
    assert(encode_utf8(e) =~= uri_bytes(bytes));
}

/// Percent-encoding distributes over concatenation.
pub proof fn lemma_percent_encoded_concat(a: Seq<u8>, b: Seq<u8>)
    ensures
        percent_encoded(a + b) == percent_encoded(a) + percent_encoded(b),
    decreases b.len(),
{
    if b.len() == 0 {
        assert(a + b =~= a);
        assert(percent_encoded(a) + percent_encoded(b) =~= percent_encoded(a));
    } else {
        lemma_percent_encoded_concat(a, b.drop_last());
        assert((a + b).drop_last() =~= a + b.drop_last());
        assert((a + b).last() == b.last());
        assert(percent_encoded(a + b) =~= percent_encoded(a) + percent_encoded(b));
    }
}

/// Decoding the bytes of an encoded string, wherever it stands, appends
/// the string's bytes and moves past them.
pub proof fn lemma_decode_uri_bytes(x: Seq<u8>, b: Seq<u8>, y: Seq<u8>, acc: Seq<u8>)
    ensures
        decode_acc(x + uri_bytes(b) + y, x.len() as int, acc) == decode_acc(
            x + uri_bytes(b) + y,
            (x.len() + uri_bytes(b).len()) as int,
            acc + b,
        ),
    decreases b.len(),
{
    let s = x + uri_bytes(b) + y;
    if b.len() == 0 {
        assert(acc + b =~= acc);
    } else {
        let front = b.drop_last();
        let l = b.last();
        let e = encoded_byte_bytes(l);
        assert(s =~= x + uri_bytes(front) + (e + y));
        lemma_decode_uri_bytes(x, front, e + y, acc);
        let k: int = (x.len() + uri_bytes(front).len()) as int;
        assert(s[k] == e[0]);
        if !uri_unreserved(l) {
            lemma_hex_upper_reads_back((l / 16) as nat);
            lemma_hex_upper_reads_back((l % 16) as nat);
            assert(s[k + 1] == e[1]);
            assert(s[k + 2] == e[2]);
            assert(((l / 16) * 16 + l % 16) as u8 == l);
        }
        assert((acc + front).push(l) =~= acc + b);
    }
}

// ---------------------------------------------------------------------------
// Message framing
// ---------------------------------------------------------------------------
/// The header block that precedes a JSON-RPC body of `len` bytes.
pub fn frame_header(len: usize) -> (r: String)
    ensures
        r@ == "Content-Length: "@ + decimal(len as nat) + seq!['\r', '\n', '\r', '\n'],
{
    let mut v = chars_of("Content-Length: ");
    append_chars(&mut v, decimal_chars(len as u64).as_slice());
    v.push('\r');
    v.push('\n');
    v.push('\r');
    v.push('\n');
    string_from_chars(v.as_slice())
}

/// What one header line of an LSP message means.
#[derive(Debug, Clone, Copy, PartialEq, Eq, Structural)]
pub enum HeaderLine {
    /// The empty line that ends the header block.
    End,
    /// A `Content-Length` header.
    ContentLength(usize),
    /// Any other header.
    Other,
}

/// Length of `s.take(j)` once trailing `\r` and `\n` are removed.
pub open spec fn end_non_crlf(s: Seq<char>, j: int) -> int
    decreases j,
{
    if j <= 0 {
        0
    } else if s[j - 1] == '\r' || s[j - 1] == '\n' {
        end_non_crlf(s, j - 1)
    } else {
        j
    }
}

pub open spec fn content_length_name() -> Seq<char> {
    seq!['c', 'o', 'n', 't', 'e', 'n', 't', '-', 'l', 'e', 'n', 'g', 't', 'h']
}

/// Meaning of a raw header line, or the error for an unparsable length.
pub open spec fn header_line_spec(raw: Seq<char>) -> Result<HeaderLine, Seq<char>> {
    let line = raw.take(end_non_crlf(raw, raw.len() as int));
    if line.len() == 0 {
        Ok(HeaderLine::End)
    } else {
        let k = find_char_from(line, ':', 0);
        if k < 0 {
            Ok(HeaderLine::Other)
        } else if !crate::text::eq_ignore_ascii_case(line.take(k), content_length_name()) {
            Ok(HeaderLine::Other)
        } else {
            match crate::text::parse_usize_spec(trim(line.skip(k + 1))) {
                Some(n) => Ok(HeaderLine::ContentLength(n)),
                None => Err("LSP Content-Length was invalid"@),
            }
        }
    }
}

/// Classifies one raw header line (with its line ending) of an LSP message.
pub fn parse_header_line(raw: &str) -> (r: Result<HeaderLine, String>)
    ensures
        match r {
            Ok(h) => header_line_spec(raw@) == Ok::<HeaderLine, Seq<char>>(h),
            Err(e) => header_line_spec(raw@) == Err::<HeaderLine, Seq<char>>(e@),
        },
{
    let chars = chars_of(raw);
    let mut end = chars.len();
    while end > 0 && (chars[end - 1] == '\r' || chars[end - 1] == '\n')
        invariant
            end <= chars@.len(),
            end_non_crlf(chars@, chars@.len() as int) == end_non_crlf(chars@, end as int),
        decreases end,
    {
        end = end - 1;
    }
    let line = copy_range(chars.as_slice(), 0, end);
    assert(line@ =~= raw@.take(end_non_crlf(raw@, raw@.len() as int)));
    if line.len() == 0 {
        return Ok(HeaderLine::End);
    }
    proof {
        lemma_find_char_from_bounds(line@, ':', 0);
    }
    let k = match find_char(line.as_slice(), ':', 0) {
        None => {
            return Ok(HeaderLine::Other);
        },
        Some(k) => k,
    };
    let name = copy_range(line.as_slice(), 0, k);
    let expected = chars_of("content-length");
    proof {
        reveal_strlit("content-length");
    }
    assert(expected@ =~= content_length_name());
    assert(name@ =~= line@.take(k as int));
    if !crate::text::chars_eq_ignore_ascii_case(name.as_slice(), expected.as_slice()) {
        return Ok(HeaderLine::Other);
    }
    let value = copy_range(line.as_slice(), k + 1, line.len());
    assert(value@ =~= line@.skip(k + 1));
    let trimmed = trim_chars(value.as_slice());
    match crate::text::parse_usize(trimmed.as_slice()) {
        Some(n) => Ok(HeaderLine::ContentLength(n)),
        None => Err("LSP Content-Length was invalid".to_owned()),
    }
}

/// The line `Content-Length: <n>\r\n` names a body of `n` bytes, and the
/// line `\r\n` ends a header block.
pub proof fn lemma_frame_lines(n: usize)
    ensures
        header_line_spec("Content-Length: "@ + decimal(n as nat) + seq!['\r', '\n']) == Ok::<
            HeaderLine,
            Seq<char>,
        >(HeaderLine::ContentLength(n)),
        header_line_spec(seq!['\r', '\n']) == Ok::<HeaderLine, Seq<char>>(HeaderLine::End),
{
    reveal_strlit("Content-Length: ");
    let d = decimal(n as nat);
    crate::text::lemma_decimal_reads_back(n as nat);
    let raw = "Content-Length: "@ + d + seq!['\r', '\n'];
    let len = raw.len() as int;
    assert(raw[len - 1] == '\n' && raw[len - 2] == '\r');
    assert(crate::text::is_ascii_digit(raw[len - 3]));
    assert(end_non_crlf(raw, len - 2) == len - 2);
    assert(end_non_crlf(raw, len - 1) == len - 2);
    assert(end_non_crlf(raw, len) == len - 2);
    let line = raw.take(len - 2);
    assert(line =~= "Content-Length: "@ + d);
    lemma_find_char_from_bounds(line, ':', 0);
    assert(line[14] == ':');
    assert(find_char_from(line, ':', 0) == 14);
    assert(crate::text::eq_ignore_ascii_case(line.take(14), content_length_name()));
    let value = line.skip(15);
    assert(value =~= seq![' '] + d);
    assert(crate::text::first_non_ws_from(value, 1) == 1);
    assert(crate::text::first_non_ws_from(value, 0) == 1);
    assert(crate::text::trim_start(value) =~= d);
    assert(crate::text::end_non_ws(d, d.len() as int) == d.len());
    assert(crate::text::trim(value) =~= d);
    let end = seq!['\r', '\n'];
    assert(end_non_crlf(end, 0) == 0);
    assert(end_non_crlf(end, 1) == 0);
    assert(end_non_crlf(end, 2) == 0);
}

// ---------------------------------------------------------------------------
// Reference answers
// ---------------------------------------------------------------------------
/// The mathematical value of a location.
pub struct LocationView {
    pub uri: Seq<char>,
    pub start_line: u32,
    pub start_character: u32,
    pub end_line: u32,
    pub end_character: u32,
}

pub open spec fn location_view(l: LspLocation) -> LocationView {
    LocationView {
        uri: l.uri@,
        start_line: l.start_line,
        start_character: l.start_character,
        end_line: l.end_line,
        end_character: l.end_character,
    }
}

/// A non-negative integer member that fits `u32`.
pub open spec fn u32_member(v: JsonView, key: Seq<char>) -> Option<u32> {
    match json_get(v, key) {
        Some(JsonView::Number(NumberView::PosInt(u))) => if u <= u32::MAX {
            Some(u as u32)
        } else {
            None
        },
        _ => None,
    }
}

/// A `Location` (`uri`, `range`) or `LocationLink` (`targetUri`,
/// `targetSelectionRange`) of a references answer; the plain member wins
/// when present.
pub open spec fn location_spec(v: JsonView) -> Option<LocationView> {
    let uri = match json_get(v, "uri"@) {
        Some(u) => Some(u),
        None => json_get(v, "targetUri"@),
    };
    let range = match json_get(v, "range"@) {
        Some(r) => Some(r),
        None => json_get(v, "targetSelectionRange"@),
    };
    match (uri, range) {
        (Some(JsonView::String(u)), Some(r)) => match (json_get(r, "start"@), json_get(r, "end"@)) {
            (Some(start), Some(end)) => match (
                u32_member(start, "line"@),
                u32_member(start, "character"@),
                u32_member(end, "line"@),
                u32_member(end, "character"@),
            ) {
                (Some(sl), Some(sc), Some(el), Some(ec)) => Some(
                    LocationView {
                        uri: u,
                        start_line: sl,
                        start_character: sc,
                        end_line: el,
                        end_character: ec,
                    },
                ),
                _ => None,
            },
            _ => None,
        },
        _ => None,
    }
}

/// The locations among the first `k` items of an answer, in order; items
/// that are not locations are skipped.
pub open spec fn locations_upto(items: Seq<JsonView>, k: int) -> Seq<LocationView>
    decreases k,
{
    if k <= 0 || k > items.len() {
        Seq::empty()
    } else {
        let rest = locations_upto(items, k - 1);
        match location_spec(items[k - 1]) {
            Some(l) => rest.push(l),
            None => rest,
        }
    }
}

/// The locations of a references answer (none unless it is an array).
pub open spec fn locations_spec(v: JsonView) -> Seq<LocationView> {
    match v {
        JsonView::Array(items) => locations_upto(items, items.len() as int),
        _ => Seq::empty(),
    }
}

/// A `u32` member of a position.
fn u32_field(v: &JsonValue, key: &str) -> (r: Option<u32>)
    ensures
        r == u32_member(v@, key@),
{
    match v.get(key) {
        Some(x) => match x.as_u64() {
            Some(u) => if u <= 0xffff_ffffu64 {
                Some(u as u32)
            } else {
                None
            },
            None => None,
        },
        None => None,
    }
}

/// Parses one location or location link.
pub fn parse_location(value: &JsonValue) -> (r: Option<LspLocation>)
    ensures
        match r {
            Some(l) => location_spec(value@) == Some(location_view(l)),
            None => location_spec(value@) is None,
        },
{
    let uri = match value.get("uri") {
        Some(u) => u,
        None => match value.get("targetUri") {
            Some(u) => u,
            None => return None,
        },
    };
    let uri = match uri.as_str() {
        Some(u) => u.to_owned(),
        None => return None,
    };
    let range = match value.get("range") {
        Some(r) => r,
        None => match value.get("targetSelectionRange") {
            Some(r) => r,
            None => return None,
        },
    };
    let start = match range.get("start") {
        Some(s) => s,
        None => return None,
    };
    let end = match range.get("end") {
        Some(e) => e,
        None => return None,
    };
    let start_line = match u32_field(start, "line") {
        Some(x) => x,
        None => return None,
    };
    let start_character = match u32_field(start, "character") {
        Some(x) => x,
        None => return None,
    };
    let end_line = match u32_field(end, "line") {
        Some(x) => x,
        None => return None,
    };
    let end_character = match u32_field(end, "character") {
        Some(x) => x,
        None => return None,
    };
    Some(LspLocation { uri, start_line, start_character, end_line, end_character })
}

pub open spec fn locations_view(v: Seq<LspLocation>) -> Seq<LocationView> {
    v.map_values(|l: LspLocation| location_view(l))
}

/// Parses the locations of a references answer.
pub fn parse_locations(value: &JsonValue) -> (r: Vec<LspLocation>)
    ensures
        locations_view(r@) == locations_spec(value@),
{
    let mut out: Vec<LspLocation> = Vec::new();
    match value {
        JsonValue::Array(items) => {
            let ghost iv = crate::json::items_view(items@, items@.len() as int);
            proof {
                crate::json::lemma_items_view(items@, items@.len() as int);
            }
            let mut i: usize = 0;
            while i < items.len()
                invariant
                    i <= items@.len(),
                    iv == crate::json::items_view(items@, items@.len() as int),
                    iv.len() == items@.len(),
                    forall|j: int| 0 <= j < items@.len() ==> #[trigger] iv[j] == items@[j]@,
                    locations_view(out@) == locations_upto(iv, i as int),
                decreases items@.len() - i,
            {
                let ghost before = locations_view(out@);
                match parse_location(&items[i]) {
                    Some(l) => {
                        out.push(l);
                        assert(locations_view(out@) =~= before.push(location_view(l)));
                    },
                    None => {},
                }
                i = i + 1;
            }
        },
        _ => {},
    }
    assert(locations_view(out@) =~= locations_spec(value@)) by {
        if !(value@ is Array) {
            assert(locations_view(out@) =~= Seq::<LocationView>::empty());
        }
    }
    out
}

// ---------------------------------------------------------------------------
// Messages of a reference query
// ---------------------------------------------------------------------------
/// A JSON-RPC request to a language server.
pub fn request_message(id: u64, method: &str, params: JsonValue) -> (r: JsonValue)
    ensures
        r@ == object_of(
            seq![
                ("id"@, JsonView::Number(NumberView::PosInt(id))),
                ("jsonrpc"@, JsonView::String("2.0"@)),
                ("method"@, JsonView::String(method@)),
                ("params"@, params@),
            ],
        ),
{
    object4(
        "id",
        JsonValue::Number(JsonNumber::PosInt(id)),
        "jsonrpc",
        JsonValue::string("2.0"),
        "method",
        JsonValue::string(method),
        "params",
        params,
    )
}

/// A JSON-RPC notification to a language server.
pub fn notification_message(method: &str, params: JsonValue) -> (r: JsonValue)
    ensures
        r@ == object_of(
            seq![("jsonrpc"@, JsonView::String("2.0"@)), ("method"@, JsonView::String(method@)), ("params"@, params@)],
        ),
{
    object3("jsonrpc", JsonValue::string("2.0"), "method", JsonValue::string(method), "params", params)
}

/// The `initialize` parameters: no process, the repository as the only
/// workspace folder, UTF-16 positions and static reference registration.
pub open spec fn initialize_params_view(root_uri: Seq<char>) -> JsonView {
    object_of(
        seq![
            (
                "capabilities"@,
                object_of(
                    seq![
                        (
                            "general"@,
                            object_of(seq![("positionEncodings"@, JsonView::Array(seq![JsonView::String("utf-16"@)]))]),
                        ),
                        (
                            "textDocument"@,
                            object_of(
                                seq![("references"@, object_of(seq![("dynamicRegistration"@, JsonView::Bool(false))]))],
                            ),
                        ),
                    ],
                ),
            ),
            ("clientInfo"@, object_of(seq![("name"@, JsonView::String("codefacts"@))])),
            ("processId"@, JsonView::Null),
            ("rootUri"@, JsonView::String(root_uri)),
            (
                "workspaceFolders"@,
                JsonView::Array(
                    seq![object_of(seq![("name"@, JsonView::String("codefacts"@)), ("uri"@, JsonView::String(root_uri))])],
                ),
            ),
        ],
    )
}

/// The `initialize` parameters of a reference query.
pub fn initialize_params(root_uri: &str) -> (r: JsonValue)
    ensures
        r@ == initialize_params_view(root_uri@),
{
    let encodings = array1(JsonValue::string("utf-16"));
    let general = object1("positionEncodings", encodings);
    let references = object1("dynamicRegistration", JsonValue::Bool(false));
    let text_document = object1("references", references);
    let capabilities = object2("general", general, "textDocument", text_document);
    let client_info = object1("name", JsonValue::string("codefacts"));
    let folder = object2("name", JsonValue::string("codefacts"), "uri", JsonValue::string(root_uri));
    object5(
        "capabilities",
        capabilities,
        "clientInfo",
        client_info,
        "processId",
        JsonValue::Null,
        "rootUri",
        JsonValue::string(root_uri),
        "workspaceFolders",
        array1(folder),
    )
}

/// The `textDocument/didOpen` parameters for the symbol's source file.
pub fn did_open_params(uri: &str, language: Language, text: &str) -> (r: JsonValue)
    ensures
        r@ == object_of(
            seq![
                (
                    "textDocument"@,
                    object_of(
                        seq![
                            ("languageId"@, JsonView::String(language_id_spec(language))),
                            ("text"@, JsonView::String(text@)),
                            ("uri"@, JsonView::String(uri@)),
                            ("version"@, JsonView::Number(NumberView::PosInt(1))),
                        ],
                    ),
                ),
            ],
        ),
{
    let document = object4(
        "languageId",
        JsonValue::string(language_id(language)),
        "text",
        JsonValue::string(text),
        "uri",
        JsonValue::string(uri),
        "version",
        JsonValue::Number(JsonNumber::PosInt(1)),
    );
    object1("textDocument", document)
}

/// The `textDocument/references` parameters at the symbol's position,
/// declaration included.
pub fn references_params(uri: &str, position: LspPosition) -> (r: JsonValue)
    ensures
        r@ == object_of(
            seq![
                ("context"@, object_of(seq![("includeDeclaration"@, JsonView::Bool(true))])),
                (
                    "position"@,
                    object_of(
                        seq![
                            ("character"@, JsonView::Number(NumberView::PosInt(position.character as u64))),
                            ("line"@, JsonView::Number(NumberView::PosInt(position.line as u64))),
                        ],
                    ),
                ),
                ("textDocument"@, object_of(seq![("uri"@, JsonView::String(uri@))])),
            ],
        ),
{
    let context = object1("includeDeclaration", JsonValue::Bool(true));
    let at = object2(
        "character",
        JsonValue::Number(JsonNumber::PosInt(position.character as u64)),
        "line",
        JsonValue::Number(JsonNumber::PosInt(position.line as u64)),
    );
    let document = object1("uri", JsonValue::string(uri));
    object3("context", context, "position", at, "textDocument", document)
}

/// What a message from the server means to a pending request.
#[derive(Debug)]
pub enum ResponseStep {
    /// Not the answer to this request; keep waiting.
    Skip,
    /// The request's result.
    Result(JsonValue),
    /// The request failed.
    Failed(String),
}

/// A message answers request `id` when its `id` is that number: with its
/// error, its result, or the lack of one.
pub open spec fn response_step_spec(message: JsonView, id: u64, method: Seq<char>) -> (bool, Result<
    JsonView,
    Seq<char>,
>) {
    if json_get(message, "id"@) != Some(JsonView::Number(NumberView::PosInt(id))) {
        (false, Err(Seq::empty()))
    } else {
        match json_get(message, "error"@) {
            Some(e) => (true, Err("LSP request '"@ + method + "' returned an error: "@ + json_text(e))),
            None => match json_get(message, "result"@) {
                Some(r) => (true, Ok(r)),
                None => (true, Err("LSP request '"@ + method + "' returned no result"@)),
            },
        }
    }
}

/// Classifies one message from the server for the pending request `id`.
pub fn response_step(message: &JsonValue, id: u64, method: &str) -> (r: ResponseStep)
    ensures
        match r {
            ResponseStep::Skip => !response_step_spec(message@, id, method@).0,
            ResponseStep::Result(v) => response_step_spec(message@, id, method@) == (
                true,
                Ok::<JsonView, Seq<char>>(v@),
            ),
            ResponseStep::Failed(m) => response_step_spec(message@, id, method@) == (
                true,
                Err::<JsonView, Seq<char>>(m@),
            ),
        },
{
    let answers = match message.get("id") {
        Some(v) => match v.as_u64() {
            Some(u) => u == id,
            None => false,
        },
        None => false,
    };
    if !answers {
        return ResponseStep::Skip;
    }
    match message.get("error") {
        Some(e) => {
            let mut m = chars_of("LSP request '");
            append_chars(&mut m, chars_of(method).as_slice());
            append_chars(&mut m, chars_of("' returned an error: ").as_slice());
            append_chars(&mut m, chars_of(e.to_json_string().as_str()).as_slice());
            ResponseStep::Failed(string_from_chars(m.as_slice()))
        },
        None => match message.get("result") {
            Some(r) => ResponseStep::Result(r.copy()),
            None => {
                let mut m = chars_of("LSP request '");
                append_chars(&mut m, chars_of(method).as_slice());
                append_chars(&mut m, chars_of("' returned no result").as_slice());
                ResponseStep::Failed(string_from_chars(m.as_slice()))
            },
        },
    }
}

// ---------------------------------------------------------------------------
// Reading framed messages
// ---------------------------------------------------------------------------
/// The header block of one incoming message, as far as it was read.
pub struct HeaderBlock {
    pub content_length: Option<usize>,
}

/// What the next header line leads to.
#[derive(Debug, PartialEq, Eq)]
pub enum HeaderStep {
    /// Read another header line.
    Continue,
    /// The header block ended; read a body of this many bytes.
    Body(usize),
    /// The message is malformed.
    Failed(String),
}

/// What a step says: `None` to read on, else the body length or the error.
pub open spec fn header_step_view(s: HeaderStep) -> Option<Result<usize, Seq<char>>> {
    match s {
        HeaderStep::Continue => None,
        HeaderStep::Body(n) => Some(Ok(n)),
        HeaderStep::Failed(m) => Some(Err(m@)),
    }
}

/// What one raw header line does to a block that has read the length `cl`:
/// the step it leads to and the length the block keeps. A `Content-Length`
/// is remembered (the last one counts), other headers are ignored, and the
/// empty line ends the block, which must have named a length.
pub open spec fn header_step_spec(cl: Option<usize>, raw: Seq<char>) -> (Option<Result<usize, Seq<char>>>, Option<usize>) {
    match header_line_spec(raw) {
        Err(e) => (Some(Err(e)), cl),
        Ok(HeaderLine::End) => match cl {
            Some(n) => (Some(Ok(n)), cl),
            None => (Some(Err("LSP message omitted Content-Length"@)), cl),
        },
        Ok(HeaderLine::ContentLength(n)) => (None, Some(n)),
        Ok(HeaderLine::Other) => (None, cl),
    }
}

impl HeaderBlock {
    /// A header block before its first line.
    pub fn new() -> (r: Self)
        ensures
            r.content_length is None,
    {
        HeaderBlock { content_length: None }
    }

    /// Takes one raw header line (see `header_step_spec`).
    pub fn line(&mut self, raw: &str) -> (r: HeaderStep)
        ensures
            header_step_view(r) == header_step_spec(old(self).content_length, raw@).0,
            final(self).content_length == header_step_spec(old(self).content_length, raw@).1,
    {
        match parse_header_line(raw) {
            Err(e) => HeaderStep::Failed(e),
            Ok(HeaderLine::End) => match self.content_length {
                Some(n) => HeaderStep::Body(n),
                None => HeaderStep::Failed("LSP message omitted Content-Length".to_owned()),
            },
            Ok(HeaderLine::ContentLength(n)) => {
                self.content_length = Some(n);
                HeaderStep::Continue
            },
            Ok(HeaderLine::Other) => HeaderStep::Continue,
        }
    }

    /// The stream ended before the header block did: no message when no
    /// header was read, else an error.
    pub fn end_of_stream(&self) -> (r: Result<(), String>)
        ensures
            match r {
                Ok(()) => self.content_length is None,
                Err(m) => self.content_length is Some && m@ == "LSP stream ended before its header block finished"@,
            },
    {
        match self.content_length {
            None => Ok(()),
            Some(_) => Err("LSP stream ended before its header block finished".to_owned()),
        }
    }
}

} // verus!
