//! Pool of loaded tier models: which are loaded, and which has to go.

use crate::builtin::generate::TierModelPaths;
use crate::tier::RouteClass;
use vstd::prelude::*;
use vstd::string::*;

verus! {

/// Configuration of the generation pool.
#[derive(Debug, Clone)]
pub struct GenerateEngineConfig {
    /// Vocabulary file, shared by all models.
    pub vocab_path: String,
    /// Model files of the tiers.
    pub tier_models: TierModelPaths,
    /// Most models loaded at once; zero counts as one.
    pub max_loaded: usize,
    /// Timeout of a call, in seconds; zero counts as one.
    pub timeout_secs: u64,
}

impl Default for GenerateEngineConfig {
    fn default() -> (res: Self)
        ensures
            res.vocab_path@.len() == 0,
            forall|t: RouteClass| #[trigger] res.tier_models.file(t) is None,
            res.max_loaded == 1,
            res.timeout_secs == 300,
    {
        GenerateEngineConfig {
            vocab_path: String::new(),
            tier_models: TierModelPaths::default(),
            max_loaded: 1,
            timeout_secs: 300,
        }
    }
}

/// What has to be done before a tier's model can be used.
#[derive(Debug)]
pub enum LoadPlan {
    /// Nothing: the model is loaded.
    Ready,
    /// The model has to be loaded from this file.
    Load(String),
}

/// Bookkeeping of the generation pool.
#[derive(Debug)]
pub struct RwkvGenerateEngine {
    vocab_path: String,
    tier_models: TierModelPaths,
    max_loaded: usize,
    timeout_secs: u64,
    order: Vec<RouteClass>,
}

/// Place of a tier among the loaded ones; negative where it is not loaded.
pub open spec fn place_of(s: Seq<RouteClass>, tier: RouteClass) -> int
    decreases s.len(),
{
    if s.len() == 0 {
        -1
    } else if s.last() == tier {
        s.len() - 1
    } else {
        place_of(s.drop_last(), tier)
    }
}

/// No tier occurs twice.
pub open spec fn distinct(s: Seq<RouteClass>) -> bool {
    forall|i: int, j: int| 0 <= i < j < s.len() ==> #[trigger] s[i] != #[trigger] s[j]
}

/// The loaded tiers without one of them.
pub open spec fn without(s: Seq<RouteClass>, tier: RouteClass) -> Seq<RouteClass> {
    let k = place_of(s, tier);
    if k < 0 {
        s
    } else {
        s.remove(k)
    }
}

/// How many of the loaded tiers have to go.
pub open spec fn surplus(n: int, most: int) -> int {
    if n > most {
        n - most
    } else {
        0
    }
}

/// Tiers after one of them was used: it is the last one.
pub open spec fn refreshed(s: Seq<RouteClass>, tier: RouteClass) -> Seq<RouteClass> {
    without(s, tier).push(tier)
}

/// Whether a tier was added to others, and the first of them went for it.
pub open spec fn makes_room(
    before: Seq<RouteClass>,
    tier: RouteClass,
    most: int,
    gone: Seq<RouteClass>,
    after: Seq<RouteClass>,
) -> bool {
    let all = before.push(tier);
    let n = surplus(all.len() as int, most);
    gone == all.take(n) && after == all.skip(n)
}

proof fn lemma_place(s: Seq<RouteClass>, tier: RouteClass)
    ensures
        -1 <= place_of(s, tier) < s.len(),
        place_of(s, tier) >= 0 ==> s[place_of(s, tier)] == tier,
        forall|i: int| place_of(s, tier) < i < s.len() ==> #[trigger] s[i] != tier,
    decreases s.len(),
{
    if s.len() > 0 && s.last() != tier {
        let front = s.drop_last();
        lemma_place(front, tier);
        assert forall|i: int| place_of(s, tier) < i < s.len() implies #[trigger] s[i] != tier by {
            if i < s.len() - 1 {
                assert(front[i] == s[i]);
            }
        }
    }
}

impl RwkvGenerateEngine {
    /// The loaded tiers, least recently used first.
    pub closed spec fn loaded(self) -> Seq<RouteClass> {
        self.order@
    }

    /// Most models loaded at once.
    pub closed spec fn most(self) -> int {
        self.max_loaded as int
    }

    /// The model files of the tiers.
    pub closed spec fn models(self) -> TierModelPaths {
        self.tier_models
    }

    /// The vocabulary file.
    pub closed spec fn vocabulary(self) -> Seq<char> {
        self.vocab_path@
    }

    /// Timeout of a call, in seconds.
    pub closed spec fn timeout(self) -> int {
        self.timeout_secs as int
    }

    /// No tier is loaded twice, and at most as many are as may be.
    pub open spec fn wf(self) -> bool {
        distinct(self.loaded()) && self.loaded().len() <= self.most() && self.most() >= 1
    }

    /// Whether everything but the loaded tiers is as in another pool.
    pub open spec fn same_setup(self, other: RwkvGenerateEngine) -> bool {
        &&& self.most() == other.most()
        &&& self.models() == other.models()
        &&& self.vocabulary() == other.vocabulary()
        &&& self.timeout() == other.timeout()
    }

    /// Creates the pool without loading any model.
    pub fn new(config: GenerateEngineConfig) -> (res: Result<Self, String>)
        ensures
            config.vocab_path@.len() == 0 ==> (res matches Err(m) && m@
                == "generate engine: vocab_path is required"@),
            config.vocab_path@.len() > 0 ==> {
                &&& res matches Ok(e)
                &&& e.wf()
                &&& e.loaded().len() == 0
                &&& e.most() == if config.max_loaded == 0 {
                    1
                } else {
                    config.max_loaded as int
                }
                &&& e.timeout() == if config.timeout_secs == 0 {
                    1
                } else {
                    config.timeout_secs as int
                }
                &&& e.models() == config.tier_models
                &&& e.vocabulary() == config.vocab_path@
            },
    {
        if config.vocab_path.as_str().unicode_len() == 0 {
            return Err("generate engine: vocab_path is required".to_owned());
        }
        Ok(
            RwkvGenerateEngine {
                vocab_path: config.vocab_path,
                tier_models: config.tier_models,
                max_loaded: if config.max_loaded == 0 {
                    1
                } else {
                    config.max_loaded
                },
                timeout_secs: if config.timeout_secs == 0 {
                    1
                } else {
                    config.timeout_secs
                },
                order: Vec::new(),
            },
        )
    }

    /// The model files of the tiers, taken out of the pool.
    pub fn into_models(self) -> (res: TierModelPaths)
        ensures
            res == self.models(),
    {
        self.tier_models
    }

    /// The vocabulary file.
    pub fn vocab_path(&self) -> (res: &str)
        ensures
            res@ == self.vocabulary(),
    {
        self.vocab_path.as_str()
    }

    /// Timeout of a call, in seconds.
    pub fn timeout_secs(&self) -> (res: u64)
        ensures
            res == self.timeout(),
    {
        self.timeout_secs
    }

    /// Timeout of loading a model, in seconds: at least ten.
    pub fn load_timeout_secs(&self) -> (res: u64)
        ensures
            res == if self.timeout() < 10 {
                10
            } else {
                self.timeout()
            },
    {
        if self.timeout_secs < 10 {
            10
        } else {
            self.timeout_secs
        }
    }

    /// Place of a tier among the loaded ones.
    fn find(&self, tier: RouteClass) -> (res: Option<usize>)
        ensures
            match res {
                Some(k) => k < self.order.len() && k == place_of(self.loaded(), tier),
                None => place_of(self.loaded(), tier) < 0,
            },
    {
        let mut n: usize = self.order.len();
        assert(self.order@.take(n as int) =~= self.order@);
        while n > 0
            invariant
                n <= self.order.len(),
                place_of(self.order@, tier) == place_of(self.order@.take(n as int), tier),
            decreases n,
        {
            assert(self.order@.take(n as int).drop_last() =~= self.order@.take(n - 1));
            if self.order[n - 1] == tier {
                return Some(n - 1);
            }
            n -= 1;
        }
        None
    }

    /// Whether the model of a tier is loaded.
    pub fn is_loaded(&self, tier: RouteClass) -> (res: bool)
        ensures
            res == (place_of(self.loaded(), tier) >= 0),
            res == self.loaded().contains(tier),
    {
        proof {
            lemma_place(self.loaded(), tier);
        }
        self.find(tier).is_some()
    }

    /// Forgets the model of a tier; returns whether it was loaded.
    pub fn unload(&mut self, tier: RouteClass) -> (was: bool)
        requires
            old(self).wf(),
        ensures
            final(self).wf(),
            final(self).same_setup(*old(self)),
            was == (place_of(old(self).loaded(), tier) >= 0),
            final(self).loaded() == without(old(self).loaded(), tier),
            !final(self).loaded().contains(tier),
    {
        proof {
            lemma_place(self.loaded(), tier);
        }
        match self.find(tier) {
            Some(k) => {
                let _ = self.order.remove(k);
                true
            },
            None => false,
        }
    }

    /// Whether a tier can be used at once. A loaded tier becomes the most
    /// recently used one; a tier without a model file cannot be used.
    pub fn ensure_loaded(&mut self, tier: RouteClass) -> (res: Result<LoadPlan, String>)
        requires
            old(self).wf(),
        ensures
            final(self).wf(),
            final(self).same_setup(*old(self)),
            place_of(old(self).loaded(), tier) >= 0 ==> {
                &&& res matches Ok(LoadPlan::Ready)
                &&& final(self).loaded() == refreshed(old(self).loaded(), tier)
            },
            place_of(old(self).loaded(), tier) < 0 ==> {
                &&& final(self).loaded() == old(self).loaded()
                &&& match old(self).models().file(tier) {
                    Some(path) => res matches Ok(LoadPlan::Load(p)) && p@ == path@,
                    None => res matches Err(m) && m@ == tier.name()
                        + " has no local generation model configured"@,
                }
            },
    {
        proof {
            lemma_place(self.loaded(), tier);
        }
        match self.find(tier) {
            Some(k) => {
                let _ = self.order.remove(k);
                self.order.push(tier);
                Ok(LoadPlan::Ready)
            },
            None => match self.tier_models.path_for(tier) {
                Some(path) => Ok(LoadPlan::Load(path.to_owned())),
                None => {
                    let mut m = tier.to_string();
                    m.append(" has no local generation model configured");
                    Err(m)
                },
            },
        }
    }

    /// Books a tier that was just loaded as the most recently used one;
    /// returns the least recently used tiers that have to go for it.
    pub fn book_loaded(&mut self, tier: RouteClass) -> (gone: Vec<RouteClass>)
        requires
            old(self).wf(),
            place_of(old(self).loaded(), tier) < 0,
        ensures
            final(self).wf(),
            final(self).same_setup(*old(self)),
            makes_room(
                old(self).loaded(),
                tier,
                old(self).most(),
                gone@,
                final(self).loaded(),
            ),
            final(self).loaded().last() == tier,
    {
        proof {
            lemma_place(self.loaded(), tier);
        }
        self.order.push(tier);
        let ghost all = self.order@;
        let mut gone: Vec<RouteClass> = Vec::new();
        if self.order.len() > self.max_loaded {
            let first = self.order.remove(0);
            gone.push(first);
            assert(gone@ =~= all.take(1));
            assert(self.order@ =~= all.skip(1));
        } else {
            assert(gone@ =~= all.take(0));
            assert(self.order@ =~= all.skip(0));
        }
        gone
    }
}

/// Using a model makes it the most recent one and keeps the order of the
/// others; one that is not loaded changes nothing by leaving.
pub proof fn use_makes_recent(s: Seq<RouteClass>, tier: RouteClass, i: int, j: int)
    requires
        distinct(s),
        0 <= i < j < s.len(),
        s[i] != tier,
        s[j] != tier,
    ensures
        !without(s, tier).contains(tier),
        !s.contains(tier) ==> without(s, tier) == s,
        s.contains(tier) ==> without(s, tier).len() == s.len() - 1,
        exists|a: int, b: int|
            0 <= a < b < without(s, tier).len() && #[trigger] without(s, tier)[a] == s[i]
                && #[trigger] without(s, tier)[b] == s[j],
{
    lemma_place(s, tier);
    let k = place_of(s, tier);
    let out = without(s, tier);
    if k >= 0 {
        let a = if i < k {
            i
        } else {
            i - 1
        };
        let b = if j < k {
            j
        } else {
            j - 1
        };
        assert(out[a] == s[i] && out[b] == s[j]);
        assert(!out.contains(tier)) by {
            if out.contains(tier) {
                let q = choose|q: int| 0 <= q < out.len() && out[q] == tier;
                let back = if q < k {
                    q
                } else {
                    q + 1
                };
                assert(s[back] == s[k]);
            }
        }
        assert(s.contains(tier));
    } else {
        assert(out[i] == s[i] && out[j] == s[j]);
    }
}

/// As many models leave as are too many, and no more.
pub proof fn only_the_surplus_leaves(n: int, most: int)
    requires
        0 <= n,
        0 <= most,
    ensures
        n <= most ==> surplus(n, most) == 0,
        n > most ==> n - surplus(n, most) == most,
{
}

/// The least recently used models leave, as few as have to; the one that was
/// loaded stays, as the most recent one.
pub proof fn the_least_recent_leave(
    before: Seq<RouteClass>,
    tier: RouteClass,
    most: int,
    gone: Seq<RouteClass>,
    after: Seq<RouteClass>,
)
    requires
        makes_room(before, tier, most, gone, after),
        1 <= most,
        before.len() <= most,
    ensures
        gone + after == before.push(tier),
        after.len() <= most,
        after.last() == tier,
        before.len() < most ==> gone.len() == 0,
        before.len() == most ==> gone == seq![before[0]],
{
    let all = before.push(tier);
    assert(gone + after =~= all);
    if before.len() == most {
        assert(gone =~= seq![before[0]]);
    }
}

/// A model that is used becomes the most recent one; none comes and none goes.
pub proof fn the_last_used_is_last(s: Seq<RouteClass>, tier: RouteClass, other: RouteClass)
    requires
        distinct(s),
        s.contains(tier),
    ensures
        refreshed(s, tier).len() == s.len(),
        refreshed(s, tier).last() == tier,
        refreshed(s, tier).contains(other) <==> s.contains(other),
{
    lemma_place(s, tier);
    let k = place_of(s, tier);
    let out = refreshed(s, tier);
    if s.contains(other) {
        let i = choose|i: int| 0 <= i < s.len() && s[i] == other;
        let at = if i == k {
            out.len() - 1
        } else if i < k {
            i
        } else {
            i - 1
        };
        assert(out[at] == other);
    }
    if out.contains(other) {
        let i = choose|i: int| 0 <= i < out.len() && out[i] == other;
        let at = if i == out.len() - 1 {
            k
        } else if i < k {
            i
        } else {
            i + 1
        };
        assert(s[at] == other);
    }
}

} // verus!
