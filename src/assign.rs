//! Bucket assignment: a seed from the client and the experiment, a weighted
//! draw from that seed, and the plan of headers for one request.
use vstd::prelude::*;
use vstd::string::*;
use rand::distributions::Distribution;
use rand::SeedableRng;
use crate::text::{split_on, split_text, trim, trim_text};
use crate::weights::{bad_token, parse_weights, weights_of};

verus! {

/// Why an experiment definition cannot be used.
#[derive(Clone, Copy, Debug, PartialEq, Eq, Structural)]
pub enum ConfigError {
    /// The definition document could not be read.
    Unreadable,
    /// A token of the weight ratio is not an integer.
    MalformedWeight,
    /// The ratio has not one weight per bucket.
    LengthMismatch,
    /// A weight is negative.
    NegativeWeight,
    /// Every weight is zero.
    AllWeightsZero,
    /// The weights add up to more than `i32::MAX`.
    WeightOverflow,
}

/// A fault of a definition: what is wrong, and for a weight token that is not
/// an integer, that token (else it is empty).
#[derive(Clone, Debug, PartialEq, Eq)]
pub struct ConfigFault {
    pub error: ConfigError,
    pub token: String,
}

/// The token that a fault of kind `e` in the weight text `weight` names.
pub open spec fn fault_token(e: ConfigError, weight: Seq<char>) -> Seq<char> {
    if e == ConfigError::MalformedWeight {
        bad_token(weight)
    } else {
        Seq::empty()
    }
}

pub open spec fn int_sum(ws: Seq<int>) -> int
    decreases ws.len(),
{
    if ws.len() == 0 {
        0
    } else {
        int_sum(ws.drop_last()) + ws.last()
    }
}

pub open spec fn as_ints(ws: Seq<i32>) -> Seq<int> {
    ws.map_values(|w: i32| w as int)
}

/// Weights that a weighted draw accepts: at least one, none negative, a
/// positive total that fits in `i32`.
pub open spec fn valid_weights(ws: Seq<int>) -> bool {
    &&& ws.len() > 0
    &&& forall|i: int| 0 <= i < ws.len() ==> ws[i] >= 0
    &&& 0 < int_sum(ws) <= i32::MAX
}

/// What a definition with `n_buckets` buckets and the weight ratio `weight`
/// comes to: its weights, or the first fault found.
pub open spec fn config_result(n_buckets: nat, weight: Seq<char>) -> Result<Seq<int>, ConfigError> {
    match weights_of(weight) {
        None => Err(ConfigError::MalformedWeight),
        Some(ws) => if ws.len() != n_buckets {
            Err(ConfigError::LengthMismatch)
        } else if exists|i: int| 0 <= i < ws.len() && ws[i] < 0 {
            Err(ConfigError::NegativeWeight)
        } else if int_sum(ws) == 0 {
            Err(ConfigError::AllWeightsZero)
        } else if int_sum(ws) > i32::MAX {
            Err(ConfigError::WeightOverflow)
        } else {
            Ok(ws)
        },
    }
}

proof fn lemma_sum_nonneg_prefix(ws: Seq<int>, k: int)
    requires
        0 <= k <= ws.len(),
        forall|i: int| 0 <= i < ws.len() ==> ws[i] >= 0,
    ensures
        int_sum(ws) >= int_sum(ws.subrange(0, k)) >= 0,
    decreases ws.len(),
{
    if ws.len() > 0 {
        if k == ws.len() {
            assert(ws.subrange(0, k) =~= ws);
            lemma_sum_nonneg_prefix(ws.drop_last(), k - 1);
            assert(ws.drop_last().subrange(0, k - 1) =~= ws.drop_last());
        } else {
            lemma_sum_nonneg_prefix(ws.drop_last(), k);
            assert(ws.drop_last().subrange(0, k) =~= ws.subrange(0, k));
        }
    }
}

/// The weights of a definition with `n_buckets` buckets and weight ratio
/// `weight`, or the first fault found in them.
pub fn check_config(n_buckets: usize, weight: &str) -> (r: Result<Vec<i32>, ConfigFault>)
    ensures
        match r {
            Ok(ws) => valid_weights(as_ints(ws@)) && ws@.len() == n_buckets
                && config_result(n_buckets as nat, weight@) == Ok::<Seq<int>, ConfigError>(as_ints(ws@)),
            Err(f) => config_result(n_buckets as nat, weight@) == Err::<Seq<int>, ConfigError>(f.error)
                && f.token@ == fault_token(f.error, weight@),
        },
{
    let weights = match parse_weights(weight) {
        Ok(ws) => ws,
        Err(t) => return Err(ConfigFault { error: ConfigError::MalformedWeight, token: t }),
    };
    let ghost ws = as_ints(weights@);
    if weights.len() != n_buckets {
        return Err(ConfigFault { error: ConfigError::LengthMismatch, token: String::new() });
    }
    let mut i: usize = 0;
    while i < weights.len()
        invariant
            i <= weights.len(),
            ws == as_ints(weights@),
            weights_of(weight@) == Some(ws),
            ws.len() == n_buckets,
            forall|k: int| 0 <= k < i ==> ws[k] >= 0,
        decreases weights.len() - i,
    {
        if weights[i] < 0 {
            assert(ws[i as int] < 0);
            return Err(ConfigFault { error: ConfigError::NegativeWeight, token: String::new() });
        }
        i = i + 1;
    }
    let mut total: i64 = 0;
    let mut j: usize = 0;
    while j < weights.len()
        invariant
            j <= weights.len(),
            ws == as_ints(weights@),
            weights_of(weight@) == Some(ws),
            ws.len() == n_buckets,
            forall|k: int| 0 <= k < ws.len() ==> ws[k] >= 0,
            total == int_sum(ws.subrange(0, j as int)),
            0 <= total <= i32::MAX,
        decreases weights.len() - j,
    {
        assert(ws.subrange(0, j + 1).drop_last() =~= ws.subrange(0, j as int));
        assert(ws.subrange(0, j + 1).last() == weights@[j as int] as int);
        total = total + weights[j] as i64;
        if total > i32::MAX as i64 {
            proof {
                lemma_sum_nonneg_prefix(ws, j + 1);
            }
            return Err(ConfigFault { error: ConfigError::WeightOverflow, token: String::new() });
        }
        j = j + 1;
    }
    assert(ws.subrange(0, weights.len() as int) =~= ws);
    if total == 0 {
        return Err(ConfigFault { error: ConfigError::AllWeightsZero, token: String::new() });
    }
    Ok(weights)
}

/// An experiment: ordered bucket labels and one weight for each.
pub struct Experiment {
    pub buckets: Vec<String>,
    pub weights: Vec<i32>,
}

impl Experiment {
    pub open spec fn wf(&self) -> bool {
        self.buckets@.len() == self.weights@.len() && valid_weights(as_ints(self.weights@))
    }

    /// Builds an experiment from its bucket labels and its weight ratio text
    /// (such as `7:3:2`), or says what is wrong with them.
    pub fn from_config(buckets: Vec<String>, weight: &str) -> (r: Result<Experiment, ConfigFault>)
        ensures
            match r {
                Ok(e) => e.wf() && e.buckets@ == buckets@ && config_result(
                    buckets@.len(),
                    weight@,
                ) == Ok::<Seq<int>, ConfigError>(as_ints(e.weights@)),
                Err(f) => config_result(buckets@.len(), weight@) == Err::<Seq<int>, ConfigError>(f.error)
                    && f.token@ == fault_token(f.error, weight@),
            },
    {
        let weights = check_config(buckets.len(), weight)?;
        Ok(Experiment { buckets, weights })
    }
}

/// The 16-byte MD5 digest of the UTF-8 text of `s`.
pub uninterp spec fn md5_of(s: Seq<char>) -> Seq<u8>;

/// The index that one draw from a `WeightedIndex` over `weights` gives, with
/// a `StdRng` seeded by `seed`.
pub uninterp spec fn weighted_draw(seed: Seq<u8>, weights: Seq<int>) -> int;

/// Relies on `md5::compute`: the digest of the text's bytes, which depends on
/// the text alone.
#[verifier::external_body]
fn md5_digest(s: &str) -> (r: [u8; 16])
    ensures
        r@ == md5_of(s@),
{
    md5::compute(s.as_bytes()).0
}

/// Relies on rand's `StdRng::from_seed`, `WeightedIndex::new` and
/// `Distribution::sample`: seeded the same way, the generator yields the same
/// draw. `new` accepts weights that are non-empty, none negative, with a
/// positive total that it adds up in `i32`; `sample` gives the first index
/// whose running total exceeds a value below the total, so an index in range
/// whose weight is positive.
#[verifier::external_body]
fn draw_index(seed: [u8; 32], weights: &Vec<i32>) -> (r: usize)
    requires
        valid_weights(as_ints(weights@)),
    ensures
        r as int == weighted_draw(seed@, as_ints(weights@)),
        r < weights@.len(),
        weights@[r as int] > 0,
{
    let mut rng = rand::rngs::StdRng::from_seed(seed);
    rand::distributions::WeightedIndex::new(weights).unwrap().sample(&mut rng)
}

/// The 256-bit seed for a client and an experiment: the MD5 digest of the
/// client identifier, then that of the experiment name.
pub open spec fn seed_of(cid: Seq<char>, test_name: Seq<char>) -> Seq<u8> {
    md5_of(cid) + md5_of(test_name)
}

/// The bucket that a client gets in an experiment.
pub open spec fn bucket_of(
    cid: Seq<char>,
    test_name: Seq<char>,
    buckets: Seq<Seq<char>>,
    weights: Seq<int>,
) -> Seq<char> {
    buckets[weighted_draw(seed_of(cid, test_name), weights)]
}

pub open spec fn labels(buckets: Seq<String>) -> Seq<Seq<char>> {
    buckets.map_values(|b: String| b@)
}

/// The seed that makes a client's draws in an experiment reproducible.
pub fn create_seed(cid: &str, test_name: &str) -> (r: [u8; 32])
    ensures
        r@ == seed_of(cid@, test_name@),
        md5_of(cid@).len() == 16,
        md5_of(test_name@).len() == 16,
{
    let d1 = md5_digest(cid);
    let d2 = md5_digest(test_name);
    let mut seed: [u8; 32] = [0u8; 32];
    let mut i: usize = 0;
    while i < 16
        invariant
            i <= 16,
            d1@ == md5_of(cid@),
            d2@ == md5_of(test_name@),
            seed@.len() == 32,
            forall|k: int| 0 <= k < i ==> seed@[k] == d1@[k],
            forall|k: int| 0 <= k < i ==> seed@[k + 16] == d2@[k],
        decreases 16 - i,
    {
        seed[i] = d1[i];
        seed[i + 16] = d2[i];
        i = i + 1;
    }
    assert(seed@ =~= seed_of(cid@, test_name@));
    seed
}

/// Picks the bucket of client `cid` in experiment `test_name`: a weighted
/// draw seeded by the two names.
pub fn pick_bucket(cid: &str, test_name: &str, buckets: &Vec<String>, weights: &Vec<i32>) -> (r: String)
    requires
        buckets@.len() == weights@.len(),
        valid_weights(as_ints(weights@)),
    ensures
        r@ == bucket_of(cid@, test_name@, labels(buckets@), as_ints(weights@)),
        exists|k: int| 0 <= k < buckets@.len() && r@ == buckets@[k]@ && weights@[k] > 0,
        buckets@.len() == 1 ==> r@ == buckets@[0]@,
{
    let seed = create_seed(cid, test_name);
    let k = draw_index(seed, weights);
    buckets[k].clone()
}

impl Experiment {
    /// The bucket of client `cid` in this experiment, which is named `test_name`.
    pub fn select(&self, cid: &str, test_name: &str) -> (r: String)
        requires
            self.wf(),
        ensures
            r@ == bucket_of(cid@, test_name@, labels(self.buckets@), as_ints(self.weights@)),
            exists|k: int| 0 <= k < self.buckets@.len() && r@ == self.buckets@[k]@ && self.weights@[k] > 0,
            self.buckets@.len() == 1 ==> r@ == self.buckets@[0]@,
    {
        pick_bucket(cid, test_name, &self.buckets, &self.weights)
    }
}

/// The header that carries the bucket of experiment `test_name`.
pub open spec fn header_name(test_name: Seq<char>) -> Seq<char> {
    "X-ABTest-"@ + test_name
}

pub fn make_header_name(test_name: &str) -> (r: String)
    ensures
        r@ == header_name(test_name@),
{
    String::from_str("X-ABTest-").concat(test_name)
}

/// What the configuration store holds under an experiment's name.
pub enum Definition {
    /// Nothing.
    Missing,
    /// A document that is not a definition.
    Unreadable,
    /// Bucket labels and a weight ratio text.
    Given(Vec<String>, String),
}

/// What to do with the request, once every experiment has been looked at.
pub enum Plan {
    /// Forward it with these headers, one per experiment, in order.
    Assigned(Vec<(String, String)>),
    /// An experiment has no definition: forward the request with no
    /// experiment header at all.
    Passthrough,
    /// An experiment's definition is faulty: fail the request. Gives the
    /// experiment's name, its weight text (empty where the document could not
    /// be read), and the fault.
    Invalid(String, String, ConfigFault),
}

/// The plan in terms of values.
pub enum PlanView {
    Assigned(Seq<(Seq<char>, Seq<char>)>),
    Passthrough,
    Invalid(Seq<char>, Seq<char>, ConfigError, Seq<char>),
}

pub open spec fn header_views(hs: Seq<(String, String)>) -> Seq<(Seq<char>, Seq<char>)> {
    hs.map_values(|h: (String, String)| (h.0@, h.1@))
}

impl Plan {
    pub open spec fn view(&self) -> PlanView {
        match self {
            Plan::Assigned(hs) => PlanView::Assigned(header_views(hs@)),
            Plan::Passthrough => PlanView::Passthrough,
            Plan::Invalid(name, weight, f) => PlanView::Invalid(name@, weight@, f.error, f.token@),
        }
    }
}

/// The plan for client `cid` and the experiments `tests`, in order: each
/// experiment adds its header, until one has no definition (pass the request
/// through untouched) or a faulty one (fail it).
pub open spec fn plan_of(cid: Seq<char>, tests: Seq<(String, Definition)>) -> PlanView
    decreases tests.len(),
{
    if tests.len() == 0 {
        PlanView::Assigned(Seq::empty())
    } else {
        match plan_of(cid, tests.drop_last()) {
            PlanView::Assigned(hs) => {
                let name = tests.last().0@;
                match tests.last().1 {
                    Definition::Missing => PlanView::Passthrough,
                    Definition::Unreadable => PlanView::Invalid(
                        name,
                        Seq::empty(),
                        ConfigError::Unreadable,
                        Seq::empty(),
                    ),
                    Definition::Given(b, w) => match config_result(b@.len(), w@) {
                        Err(e) => PlanView::Invalid(name, w@, e, fault_token(e, w@)),
                        Ok(ws) => PlanView::Assigned(
                            hs.push((header_name(name), bucket_of(cid, name, labels(b@), ws))),
                        ),
                    },
                }
            },
            other => other,
        }
    }
}

/// Assigns client `cid` a bucket in each experiment of `tests`, in order, and
/// says what to do with the request.
pub fn plan_assignments(cid: &str, tests: &Vec<(String, Definition)>) -> (r: Plan)
    ensures
        r.view() == plan_of(cid@, tests@),
{
    let mut headers: Vec<(String, String)> = Vec::new();
    let mut i: usize = 0;
    assert(tests@.subrange(0, 0) =~= Seq::<(String, Definition)>::empty());
    assert(header_views(headers@) =~= Seq::<(Seq<char>, Seq<char>)>::empty());
    while i < tests.len()
        invariant
            i <= tests.len(),
            plan_of(cid@, tests@.subrange(0, i as int)) == PlanView::Assigned(header_views(headers@)),
        decreases tests.len() - i,
    {
        let ghost sub = tests@.subrange(0, i + 1);
        assert(sub.drop_last() =~= tests@.subrange(0, i as int));
        assert(sub.last() == tests@[i as int]);
        let name = &tests[i].0;
        match &tests[i].1 {
            Definition::Missing => {
                proof {
                    lemma_plan_stays(cid@, tests@, i as int + 1);
                }
                return Plan::Passthrough;
            },
            Definition::Unreadable => {
                proof {
                    lemma_plan_stays(cid@, tests@, i as int + 1);
                }
                let fault = ConfigFault { error: ConfigError::Unreadable, token: String::new() };
                return Plan::Invalid(name.clone(), String::new(), fault);
            },
            Definition::Given(buckets, weight) => {
                match check_config(buckets.len(), weight.as_str()) {
                    Err(e) => {
                        proof {
                            lemma_plan_stays(cid@, tests@, i as int + 1);
                        }
                        return Plan::Invalid(name.clone(), weight.clone(), e);
                    },
                    Ok(weights) => {
                        let label = pick_bucket(cid, name.as_str(), buckets, &weights);
                        let h = make_header_name(name.as_str());
                        let ghost before = headers@;
                        headers.push((h, label));
                        assert(header_views(headers@) =~= header_views(before).push(
                            (header_name(name@), bucket_of(cid@, name@, labels(buckets@), as_ints(weights@))),
                        ));
                    },
                }
            },
        }
        i = i + 1;
    }
    assert(tests@.subrange(0, tests.len() as int) =~= tests@);
    Plan::Assigned(headers)
}

/// Once the plan is no longer a list of headers, later experiments leave it
/// as it is.
proof fn lemma_plan_stays(cid: Seq<char>, tests: Seq<(String, Definition)>, k: int)
    requires
        0 <= k <= tests.len(),
        !(plan_of(cid, tests.subrange(0, k)) is Assigned),
    ensures
        plan_of(cid, tests) == plan_of(cid, tests.subrange(0, k)),
    decreases tests.len() - k,
{
    if k < tests.len() {
        let t = tests.subrange(0, k + 1);
        assert(t.drop_last() =~= tests.subrange(0, k));
        lemma_plan_stays(cid, tests, k + 1);
    } else {
        assert(tests.subrange(0, k) =~= tests);
    }
}

/// Two lists of experiments that read the same: the same names, and for each
/// the same kind of definition with the same labels and weight text.
pub open spec fn tests_agree(t1: Seq<(String, Definition)>, t2: Seq<(String, Definition)>) -> bool {
    &&& t1.len() == t2.len()
    &&& forall|i: int| 0 <= i < t1.len() ==> #[trigger] definitions_agree(t1[i], t2[i])
}

pub open spec fn definitions_agree(a: (String, Definition), b: (String, Definition)) -> bool {
    &&& a.0@ == b.0@
    &&& match (a.1, b.1) {
        (Definition::Missing, Definition::Missing) => true,
        (Definition::Unreadable, Definition::Unreadable) => true,
        (Definition::Given(b1, w1), Definition::Given(b2, w2)) => labels(b1@) == labels(b2@) && w1@ == w2@,
        _ => false,
    }
}

/// Assignment is reproducible: for the same client identifier and the same
/// experiments with the same definitions, the plan, and so every bucket label
/// in it, is the same, in any request and any process.
pub proof fn lemma_plan_deterministic(
    cid: Seq<char>,
    t1: Seq<(String, Definition)>,
    t2: Seq<(String, Definition)>,
)
    requires
        tests_agree(t1, t2),
    ensures
        plan_of(cid, t1) == plan_of(cid, t2),
    decreases t1.len(),
{
    if t1.len() > 0 {
        let f1 = t1.drop_last();
        let f2 = t2.drop_last();
        assert forall|i: int| 0 <= i < f1.len() implies #[trigger] definitions_agree(f1[i], f2[i]) by {
            assert(f1[i] == t1[i] && f2[i] == t2[i]);
            assert(definitions_agree(t1[i], t2[i]));
        }
        lemma_plan_deterministic(cid, f1, f2);
        assert(definitions_agree(t1[t1.len() - 1], t2[t2.len() - 1]));
        match (t1.last().1, t2.last().1) {
            (Definition::Given(b1, w1), Definition::Given(b2, w2)) => {
                assert(b1@.len() == labels(b1@).len());
                assert(b2@.len() == labels(b2@).len());
            },
            _ => {},
        }
    }
}

/// The experiment names of the list `list`: split at `,`, each trimmed.
pub open spec fn test_names(list: Seq<char>) -> Seq<Seq<char>> {
    split_on(list, ',').map_values(|t: Seq<char>| trim(t))
}

/// Reads a comma-separated list of experiment names.
pub fn parse_test_list(list: &str) -> (r: Vec<String>)
    ensures
        r@.map_values(|t: String| t@) == test_names(list@),
{
    let parts = split_text(list, ',');
    let ghost pv = parts@.map_values(|p: String| p@);
    let mut names: Vec<String> = Vec::new();
    let mut i: usize = 0;
    while i < parts.len()
        invariant
            i <= parts.len(),
            pv == parts@.map_values(|p: String| p@),
            pv == split_on(list@, ','),
            names@.len() == i,
            forall|k: int| 0 <= k < i ==> #[trigger] names@[k]@ == trim(pv[k]),
        decreases parts.len() - i,
    {
        assert(pv[i as int] == parts[i as int]@);
        names.push(trim_text(parts[i].as_str()));
        i = i + 1;
    }
    assert(names@.map_values(|t: String| t@) =~= test_names(list@));
    names
}

} // verus!
