//! Routing parameters.

use crate::bounds;
use crate::single;
use crate::single::Single;
use crate::tier::RouteClass;
use vstd::arithmetic::power2::{lemma2_to64, pow2};
use vstd::prelude::*;

verus! {

/// Bit pattern of 0.45, the safety threshold where none is configured.
pub const DEFAULT_SAFETY_THRESHOLD: u32 = 0x3ee6_6666;

/// Smart routing configuration.
///
/// The router sorts each request into a complexity tier (R0 to R3) and
/// dispatches it to the model configured for that tier.
#[derive(Debug, Clone)]
pub struct RouterConfig {
    /// Master switch. Only takes effect when the session model is "auto".
    pub enabled: bool,
    /// Model reference per route tier (model id, "primary", "fast" or
    /// "rwkv-local").
    pub tier_models: RouterTierModels,
    /// Model reference used when classification fails or the engine is
    /// unavailable.
    pub fallback: String,
    /// Under-routing safety threshold: where the likeliest tier is R0 or R1
    /// and P(R2)+P(R3) exceeds this value, the request goes to R2.
    pub safety_threshold: Single,
    /// Sticky tier: short messages never route below the previous turn's tier.
    pub sticky_enabled: bool,
    /// Classification inference timeout in milliseconds.
    pub timeout_ms: u64,
}

impl RouterConfig {
    /// The configuration that holds where nothing is configured.
    pub open spec fn is_default(self) -> bool {
        &&& !self.enabled
        &&& self.tier_models.is_default()
        &&& self.fallback@ == "primary"@
        &&& self.safety_threshold.bits == DEFAULT_SAFETY_THRESHOLD
        &&& self.sticky_enabled
        &&& self.timeout_ms == 3000
    }
}

impl Default for RouterConfig {
    fn default() -> (res: Self)
        ensures
            res.is_default(),
    {
        RouterConfig {
            enabled: false,
            tier_models: RouterTierModels::default(),
            fallback: "primary".to_owned(),
            safety_threshold: Single { bits: DEFAULT_SAFETY_THRESHOLD },
            sticky_enabled: true,
            timeout_ms: 3000,
        }
    }
}

/// Model references for each route tier.
#[derive(Debug, Clone)]
pub struct RouterTierModels {
    /// R0, trivial chat: the local model by default.
    pub r0: String,
    /// R1, simple task: the local model by default.
    pub r1: String,
    /// R2, complex task: the mid-tier ("fast") model by default.
    pub r2: String,
    /// R3, high-stakes task: the flagship ("primary") model by default.
    pub r3: String,
}

impl RouterTierModels {
    /// The references that hold where nothing is configured.
    pub open spec fn is_default(self) -> bool {
        &&& self.r0@ == "rwkv-local"@
        &&& self.r1@ == "rwkv-local"@
        &&& self.r2@ == "fast"@
        &&& self.r3@ == "primary"@
    }

    /// The reference configured for a tier.
    pub open spec fn reference(self, tier: RouteClass) -> Seq<char> {
        match tier {
            RouteClass::R0 => self.r0@,
            RouteClass::R1 => self.r1@,
            RouteClass::R2 => self.r2@,
            RouteClass::R3 => self.r3@,
        }
    }

    /// Returns the model reference for the given route tier.
    pub fn model_for(&self, tier: &RouteClass) -> (res: &str)
        ensures
            res@ == self.reference(*tier),
    {
        match tier {
            RouteClass::R0 => self.r0.as_str(),
            RouteClass::R1 => self.r1.as_str(),
            RouteClass::R2 => self.r2.as_str(),
            RouteClass::R3 => self.r3.as_str(),
        }
    }
}

impl Default for RouterTierModels {
    fn default() -> (res: Self)
        ensures
            res.is_default(),
    {
        RouterTierModels {
            r0: "rwkv-local".to_owned(),
            r1: "rwkv-local".to_owned(),
            r2: "fast".to_owned(),
            r3: "primary".to_owned(),
        }
    }
}

/// Every tier has a reference of its own, and those of the tiers, in order, are
/// the four that are configured.
pub proof fn references_go_by_tier(models: RouterTierModels, tier: RouteClass)
    ensures
        seq![models.r0@, models.r1@, models.r2@, models.r3@][tier.rank()] == models.reference(
            tier,
        ),
{
}

/// The usual safety threshold is 45 hundredths.
pub proof fn usual_threshold_is_decimal()
    ensures
        single::nearest(DEFAULT_SAFETY_THRESHOLD as int, 45int * pow2(149), 100),
{
    lemma2_to64();
    bounds::lemma_fraction(DEFAULT_SAFETY_THRESHOLD as int, 45, 100);
}

} // verus!
