//! Configuration of the gateway.

use crate::text;
use crate::tier::RouteClass;
use vstd::prelude::*;
use vstd::string::*;

verus! {

/// An upstream that serves generation for a tier.
#[derive(Debug, Clone)]
pub enum UpstreamConfig {
    /// Embedded generation.
    BuiltinRwkv {
        /// Model file.
        model: String,
        /// Vocabulary file.
        tokenizer: String,
    },
    /// An OpenAI-compatible HTTP endpoint; the base URL includes `/v1`.
    Openai {
        base_url: String,
        model: String,
        /// Environment variable that holds the API key.
        api_key_env: String,
    },
    /// An Anthropic-compatible HTTP endpoint; the base URL is without `/v1`.
    Anthropic {
        base_url: String,
        model: String,
        /// Environment variable that holds the API key.
        api_key_env: String,
    },
}

impl UpstreamConfig {
    /// What kind of upstream it is, in words.
    pub open spec fn kind_name(self) -> Seq<char> {
        match self {
            UpstreamConfig::BuiltinRwkv { .. } => "builtin-rwkv"@,
            UpstreamConfig::Openai { .. } => "openai"@,
            UpstreamConfig::Anthropic { .. } => "anthropic"@,
        }
    }

    /// What is wrong with the upstream, if anything is.
    pub open spec fn fault(self, label: Seq<char>) -> Option<Seq<char>> {
        match self {
            UpstreamConfig::BuiltinRwkv { model, tokenizer } => {
                if model@.len() == 0 || tokenizer@.len() == 0 {
                    Some(label + ": builtin-rwkv requires model and tokenizer"@)
                } else {
                    None
                }
            },
            UpstreamConfig::Openai { base_url, model, api_key_env }
            | UpstreamConfig::Anthropic { base_url, model, api_key_env } => {
                if base_url@.len() == 0 || model@.len() == 0 || api_key_env@.len() == 0 {
                    Some(
                        label + ": "@ + self.kind_name()
                            + " upstream requires base_url, model and api_key_env"@,
                    )
                } else {
                    None
                }
            },
        }
    }

    /// What kind of upstream it is, in words.
    pub fn kind(&self) -> (res: &'static str)
        ensures
            res@ == self.kind_name(),
    {
        match self {
            UpstreamConfig::BuiltinRwkv { .. } => "builtin-rwkv",
            UpstreamConfig::Openai { .. } => "openai",
            UpstreamConfig::Anthropic { .. } => "anthropic",
        }
    }

    /// Checks that no field is empty.
    fn check(&self, label: &str) -> (res: Result<(), String>)
        ensures
            match res {
                Ok(_) => self.fault(label@) is None,
                Err(m) => self.fault(label@) == Some(m@),
            },
    {
        match self {
            UpstreamConfig::BuiltinRwkv { model, tokenizer } => {
                if blank(model) || blank(tokenizer) {
                    let mut m = label.to_owned();
                    m.append(": builtin-rwkv requires model and tokenizer");
                    return Err(m);
                }
            },
            UpstreamConfig::Openai { base_url, model, api_key_env } => {
                if blank(base_url) || blank(model) || blank(api_key_env) {
                    return Err(self.incomplete(label));
                }
            },
            UpstreamConfig::Anthropic { base_url, model, api_key_env } => {
                if blank(base_url) || blank(model) || blank(api_key_env) {
                    return Err(self.incomplete(label));
                }
            },
        }
        Ok(())
    }

    /// The fault of an HTTP upstream.
    fn incomplete(&self, label: &str) -> (m: String)
        ensures
            m@ == label@ + ": "@ + self.kind_name()
                + " upstream requires base_url, model and api_key_env"@,
    {
        let mut m = label.to_owned();
        m.append(": ");
        m.append(self.kind());
        m.append(" upstream requires base_url, model and api_key_env");
        m
    }
}

/// Whether a text has no characters.
fn blank(s: &String) -> (res: bool)
    ensures
        res == (s@.len() == 0),
{
    s.as_str().unicode_len() == 0
}

/// The upstreams of the tiers. A tier without one is not served.
#[derive(Debug, Clone)]
pub struct TiersConfig {
    pub r0: Option<UpstreamConfig>,
    pub r1: Option<UpstreamConfig>,
    pub r2: Option<UpstreamConfig>,
    pub r3: Option<UpstreamConfig>,
}

impl TiersConfig {
    /// The upstream of a tier.
    pub open spec fn upstream(self, tier: RouteClass) -> Option<UpstreamConfig> {
        match tier {
            RouteClass::R0 => self.r0,
            RouteClass::R1 => self.r1,
            RouteClass::R2 => self.r2,
            RouteClass::R3 => self.r3,
        }
    }

    /// The upstream of a tier.
    pub fn entry(&self, tier: RouteClass) -> (res: Option<&UpstreamConfig>)
        ensures
            match res {
                Some(u) => self.upstream(tier) == Some(*u),
                None => self.upstream(tier) is None,
            },
    {
        match tier {
            RouteClass::R0 => self.r0.as_ref(),
            RouteClass::R1 => self.r1.as_ref(),
            RouteClass::R2 => self.r2.as_ref(),
            RouteClass::R3 => self.r3.as_ref(),
        }
    }
}

impl Default for TiersConfig {
    fn default() -> (res: Self)
        ensures
            forall|t: RouteClass| #[trigger] res.upstream(t) is None,
    {
        TiersConfig { r0: None, r1: None, r2: None, r3: None }
    }
}

/// Call timeout of the classifier, in milliseconds, where none is given:
/// routing must stay unnoticed.
pub const DEFAULT_CLASSIFY_TIMEOUT_MS: u64 = 500;

/// Files of the resident classifier.
#[derive(Debug, Clone)]
pub struct ClassifierConfig {
    pub model: String,
    pub vocab: String,
    pub head: String,
    /// Call timeout, in milliseconds.
    pub timeout_ms: u64,
}

/// Size of the generation pool.
#[derive(Debug, Clone)]
pub struct GenerationConfig {
    /// Most tier models loaded at once.
    pub max_loaded_models: usize,
    /// Accepted, and without effect: the pool bounds the memory by itself.
    pub idle_release_secs: u64,
}

impl Default for GenerationConfig {
    fn default() -> (res: Self)
        ensures
            res.max_loaded_models == 1,
            res.idle_release_secs == 300,
    {
        GenerationConfig { max_loaded_models: 1, idle_release_secs: 300 }
    }
}

/// The classifier and the generation pool.
#[derive(Debug, Clone)]
pub struct RouterSection {
    pub classifier: Option<ClassifierConfig>,
    pub generation: GenerationConfig,
}

impl Default for RouterSection {
    fn default() -> (res: Self)
        ensures
            res.classifier is None,
            res.generation.max_loaded_models == 1,
            res.generation.idle_release_secs == 300,
    {
        RouterSection { classifier: None, generation: GenerationConfig::default() }
    }
}

/// Where the gateway listens.
#[derive(Debug, Clone)]
pub struct ServerSection {
    pub host: String,
    pub port: u16,
}

impl Default for ServerSection {
    fn default() -> (res: Self)
        ensures
            res.host@ == "127.0.0.1"@,
            res.port == 21750,
    {
        ServerSection { host: "127.0.0.1".to_owned(), port: 21750 }
    }
}

/// The evolution loop. Without it nothing is captured.
#[derive(Debug, Clone)]
pub struct EvolutionSection {
    pub data_dir: String,
    /// Directory of the evaluation pack and of the replay pool.
    pub packs_dir: Option<String>,
    pub head_path: Option<String>,
    pub capture_limit: Option<usize>,
    pub min_labeled_for_evolve: Option<usize>,
    pub auto_evolve_step: Option<usize>,
}

impl Default for EvolutionSection {
    fn default() -> (res: Self)
        ensures
            res.data_dir@ == "evolution-data"@,
            res.packs_dir is None,
            res.head_path is None,
            res.capture_limit is None,
            res.min_labeled_for_evolve is None,
            res.auto_evolve_step is None,
    {
        EvolutionSection {
            data_dir: "evolution-data".to_owned(),
            packs_dir: None,
            head_path: None,
            capture_limit: None,
            min_labeled_for_evolve: None,
            auto_evolve_step: None,
        }
    }
}

/// The whole configuration.
#[derive(Debug, Clone)]
pub struct SidecarConfig {
    pub tiers: TiersConfig,
    pub fallback: Option<UpstreamConfig>,
    pub router: RouterSection,
    pub server: ServerSection,
    pub evolution: Option<EvolutionSection>,
}

impl Default for SidecarConfig {
    fn default() -> (res: Self)
        ensures
            res.fault() is None,
            res.fallback is None,
            res.evolution is None,
            forall|t: RouteClass| #[trigger] res.tiers.upstream(t) is None,
            res.router.classifier is None,
            res.router.generation.max_loaded_models == 1,
            res.router.generation.idle_release_secs == 300,
            res.server.host@ == "127.0.0.1"@,
            res.server.port == 21750,
    {
        let tiers = TiersConfig::default();
        assert(tiers.upstream(RouteClass::R0) is None);
        assert(tiers.upstream(RouteClass::R1) is None);
        assert(tiers.upstream(RouteClass::R2) is None);
        assert(tiers.upstream(RouteClass::R3) is None);
        SidecarConfig {
            tiers,
            fallback: None,
            router: RouterSection::default(),
            server: ServerSection::default(),
            evolution: None,
        }
    }
}

/// What is wrong with an upstream, where there is one.
pub open spec fn entry_fault(entry: Option<UpstreamConfig>, label: Seq<char>) -> Option<Seq<char>> {
    match entry {
        Some(u) => u.fault(label),
        None => None,
    }
}

/// The first fault, where there is one.
pub open spec fn first_fault(a: Option<Seq<char>>, b: Option<Seq<char>>) -> Option<Seq<char>> {
    match a {
        Some(m) => Some(m),
        None => b,
    }
}

/// Checks an upstream, where there is one.
fn check_entry(entry: Option<&UpstreamConfig>, label: &str) -> (res: Result<(), String>)
    ensures
        match res {
            Ok(_) => entry matches Some(u) ==> u.fault(label@) is None,
            Err(m) => entry matches Some(u) && u.fault(label@) == Some(m@),
        },
{
    match entry {
        Some(u) => u.check(label),
        None => Ok(()),
    }
}

impl SidecarConfig {
    /// The first thing wrong with the upstreams, the fallback first.
    pub open spec fn fault(self) -> Option<Seq<char>> {
        first_fault(
            entry_fault(self.fallback, "fallback"@),
            first_fault(
                entry_fault(self.tiers.r0, "R0"@),
                first_fault(
                    entry_fault(self.tiers.r1, "R1"@),
                    first_fault(
                        entry_fault(self.tiers.r2, "R2"@),
                        entry_fault(self.tiers.r3, "R3"@),
                    ),
                ),
            ),
        )
    }

    /// Checks that no upstream lacks a field.
    pub fn validate(&self) -> (res: Result<(), String>)
        ensures
            match res {
                Ok(_) => self.fault() is None,
                Err(m) => self.fault() == Some(m@),
            },
    {
        if let Err(m) = check_entry(self.fallback.as_ref(), "fallback") {
            return Err(m);
        }
        if let Err(m) = check_entry(self.tiers.r0.as_ref(), "R0") {
            return Err(m);
        }
        if let Err(m) = check_entry(self.tiers.r1.as_ref(), "R1") {
            return Err(m);
        }
        if let Err(m) = check_entry(self.tiers.r2.as_ref(), "R2") {
            return Err(m);
        }
        check_entry(self.tiers.r3.as_ref(), "R3")
    }
}

/// A configuration that passed the check has no upstream with an empty field,
/// whatever tier it serves.
pub proof fn valid_upstreams_are_complete(config: SidecarConfig, tier: RouteClass)
    requires
        config.fault() is None,
    ensures
        config.fallback matches Some(u) ==> u.complete(),
        config.tiers.upstream(tier) matches Some(u) ==> u.complete(),
{
}

impl UpstreamConfig {
    /// Whether every field of the upstream has a text.
    pub open spec fn complete(self) -> bool {
        match self {
            UpstreamConfig::BuiltinRwkv { model, tokenizer } => model@.len() > 0
                && tokenizer@.len() > 0,
            UpstreamConfig::Openai { base_url, model, api_key_env }
            | UpstreamConfig::Anthropic { base_url, model, api_key_env } => base_url@.len() > 0
                && model@.len() > 0 && api_key_env@.len() > 0,
        }
    }
}

/// A configuration is valid exactly where every upstream it names says
/// everything that is needed to reach it; a fault names the fallback first, then
/// the lightest tier.
pub proof fn faults_are_found(config: SidecarConfig)
    ensures
        config.fault() is None <==> (config.fallback matches Some(u) ==> u.complete()) && forall|
            t: RouteClass,
        | (#[trigger] config.tiers.upstream(t)) matches Some(u) ==> u.complete(),
        config.fallback matches Some(u) && !u.complete() ==> (config.fault() matches Some(m)
            && text::starts("fallback"@, m)),
        forall|t: RouteClass|
            (config.fallback is None || config.fallback->0.complete()) && (
            #[trigger] config.tiers.upstream(t)) is Some && !(config.tiers.upstream(t)->0).complete()
                && (forall|s: RouteClass|
                s.rank() < t.rank() && (#[trigger] config.tiers.upstream(s)) is Some
                    ==> (config.tiers.upstream(s)->0).complete()) ==> (config.fault() matches Some(m)
                && text::starts(t.name(), m)),
{
    let (a, b, c, d) = (RouteClass::R0, RouteClass::R1, RouteClass::R2, RouteClass::R3);
    if let Some(u) = config.fallback {
        lemma_fault_label(u, "fallback"@);
    }
    if let Some(u) = config.tiers.upstream(a) {
        lemma_fault_label(u, a.name());
    }
    if let Some(u) = config.tiers.upstream(b) {
        lemma_fault_label(u, b.name());
    }
    if let Some(u) = config.tiers.upstream(c) {
        lemma_fault_label(u, c.name());
    }
    if let Some(u) = config.tiers.upstream(d) {
        lemma_fault_label(u, d.name());
    }
    assert(config.tiers.upstream(a) == config.tiers.r0);
    assert(config.tiers.upstream(b) == config.tiers.r1);
    assert(config.tiers.upstream(c) == config.tiers.r2);
    assert(config.tiers.upstream(d) == config.tiers.r3);
}

proof fn lemma_fault_label(u: UpstreamConfig, label: Seq<char>)
    ensures
        u.fault(label) is None <==> u.complete(),
        u.fault(label) matches Some(m) ==> text::starts(label, m),
{
    if let Some(m) = u.fault(label) {
        assert(m.take(label.len() as int) =~= label);
    }
}

} // verus!
