//! The parameters of the search, with their defaults and the overrides that
//! a JSON object of hyperparameters may give.

use vstd::prelude::*;

verus! {

/// `serde_json::Map`, opaque to the verifier.
#[verifier::external_type_specification]
#[verifier::external_body]
#[verifier::reject_recursive_types(K)]
#[verifier::reject_recursive_types(V)]
pub struct ExJsonMap<K, V>(serde_json::Map<K, V>);

/// `serde_json::Value`, opaque to the verifier.
#[verifier::external_type_specification]
#[verifier::external_body]
pub struct ExJsonValue(serde_json::Value);

/// The parameters of the search.
#[derive(Clone, Copy)]
pub struct Params {
    pub n_perturbation_rounds: usize,
    pub perturbation_strength_base: usize,
    pub extra_starts: usize,
    pub max_frontier_swaps_override: Option<usize>,
    pub dp_passes_multiplier: usize,
}

/// The values that hyperparameters give for the overridable parameters (each
/// `None` when not given as an unsigned integer).
pub struct ParamOverrides {
    pub n_perturbation_rounds: Option<u64>,
    pub perturbation_strength_base: Option<u64>,
    pub extra_starts: Option<u64>,
    pub dp_passes_multiplier: Option<u64>,
}

/// What a JSON object holds, each entry read as an unsigned integer: for each
/// key of the object, `Some(n)` when its value is the non-negative integer
/// `n` that fits in a `u64`, else `None`.
pub uninterp spec fn json_u64_entries(m: serde_json::Map<String, serde_json::Value>) -> Map<
    Seq<char>,
    Option<u64>,
>;

/// The entry of `e` under `k` as an unsigned integer: `None` when the key is
/// absent or its value is not one.
pub open spec fn u64_entry(e: Map<Seq<char>, Option<u64>>, k: Seq<char>) -> Option<u64> {
    if e.dom().contains(k) {
        e[k]
    } else {
        None
    }
}

/// `serde_json::Map::get`, with the value found handed out as
/// `serde_json::Value::as_u64` reads it.  Claimed: `None` exactly when the
/// object has no entry under `key`, else that entry as an unsigned integer
/// (the map's lookup finds the entry whose key equals `key`; `as_u64` gives
/// `Some` only for a non-negative integer that fits in a `u64`).
#[verifier::external_body]
fn json_get_u64(m: &serde_json::Map<String, serde_json::Value>, key: &str) -> (r: Option<Option<u64>>)
    ensures
        r == (if json_u64_entries(*m).dom().contains(key@) {
            Some(json_u64_entries(*m)[key@])
        } else {
            None
        }),
{
    m.get(key).map(|v| v.as_u64())
}

/// The entry under `key` as an unsigned integer, if there is one.
fn json_u64_field(m: &serde_json::Map<String, serde_json::Value>, key: &str) -> (r: Option<u64>)
    ensures
        r == u64_entry(json_u64_entries(*m), key@),
{
    match json_get_u64(m, key) {
        Some(v) => v,
        None => None,
    }
}

/// `o` when given, else the default `d` (values taken as `usize`).
pub open spec fn or_default(o: Option<u64>, d: usize) -> usize {
    match o {
        Some(v) => v as usize,
        None => d,
    }
}

impl ParamOverrides {
    /// The overrides that a JSON object gives: the entries named after the
    /// parameters, when they are unsigned integers.
    pub fn from_map(m: &serde_json::Map<String, serde_json::Value>) -> (o: ParamOverrides)
        ensures
            o.n_perturbation_rounds == u64_entry(json_u64_entries(*m), "n_perturbation_rounds"@),
            o.perturbation_strength_base == u64_entry(
                json_u64_entries(*m),
                "perturbation_strength_base"@,
            ),
            o.extra_starts == u64_entry(json_u64_entries(*m), "extra_starts"@),
            o.dp_passes_multiplier == u64_entry(json_u64_entries(*m), "dp_passes_multiplier"@),
    {
        ParamOverrides {
            n_perturbation_rounds: json_u64_field(m, "n_perturbation_rounds"),
            perturbation_strength_base: json_u64_field(m, "perturbation_strength_base"),
            extra_starts: json_u64_field(m, "extra_starts"),
            dp_passes_multiplier: json_u64_field(m, "dp_passes_multiplier"),
        }
    }
}

impl Params {
    /// The defaults: 30 perturbation rounds, perturbation strength 4, 4 extra
    /// starts, no frontier-swap override, DP pass multiplier 1, each replaced
    /// by its override when one is given.
    pub fn with_overrides(o: &Option<ParamOverrides>) -> (p: Params)
        ensures
            p.max_frontier_swaps_override is None,
            match o {
                None => {
                    &&& p.n_perturbation_rounds == 30
                    &&& p.perturbation_strength_base == 4
                    &&& p.extra_starts == 4
                    &&& p.dp_passes_multiplier == 1
                },
                Some(o) => {
                    &&& p.n_perturbation_rounds == or_default(o.n_perturbation_rounds, 30)
                    &&& p.perturbation_strength_base == or_default(o.perturbation_strength_base, 4)
                    &&& p.extra_starts == or_default(o.extra_starts, 4)
                    &&& p.dp_passes_multiplier == or_default(o.dp_passes_multiplier, 1)
                },
            },
    {
        let mut p = Params {
            n_perturbation_rounds: 30,
            perturbation_strength_base: 4,
            extra_starts: 4,
            max_frontier_swaps_override: None,
            dp_passes_multiplier: 1,
        };
        if let Some(m) = o {
            if let Some(v) = m.n_perturbation_rounds {
                p.n_perturbation_rounds = v as usize;
            }
            if let Some(v) = m.perturbation_strength_base {
                p.perturbation_strength_base = v as usize;
            }
            if let Some(v) = m.extra_starts {
                p.extra_starts = v as usize;
            }
            if let Some(v) = m.dp_passes_multiplier {
                p.dp_passes_multiplier = v as usize;
            }
        }
        p
    }

    /// The parameters for a JSON object of hyperparameters: the defaults
    /// without one, else the defaults with the overrides read from it.
    pub fn initialize(h: &Option<serde_json::Map<String, serde_json::Value>>) -> (p: Params)
        ensures
            p.max_frontier_swaps_override is None,
            h is None ==> {
                &&& p.n_perturbation_rounds == 30
                &&& p.perturbation_strength_base == 4
                &&& p.extra_starts == 4
                &&& p.dp_passes_multiplier == 1
            },
            h matches Some(m) ==> {
                let e = json_u64_entries(*m);
                &&& p.n_perturbation_rounds == or_default(
                    u64_entry(e, "n_perturbation_rounds"@),
                    30,
                )
                &&& p.perturbation_strength_base == or_default(
                    u64_entry(e, "perturbation_strength_base"@),
                    4,
                )
                &&& p.extra_starts == or_default(u64_entry(e, "extra_starts"@), 4)
                &&& p.dp_passes_multiplier == or_default(u64_entry(e, "dp_passes_multiplier"@), 1)
            },
    {
        match h {
            Some(m) => Params::with_overrides(&Some(ParamOverrides::from_map(m))),
            None => Params::with_overrides(&None),
        }
    }
}

} // verus!
