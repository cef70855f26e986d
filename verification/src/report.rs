//! Results as named values.
use crate::binary64::Binary64;
use crate::numbers::N_PARAMS;
use crate::source::SbplResult;
use vstd::prelude::*;

verus! {

/// The name of a parameter, in the order of every parameter vector.
pub open spec fn parameter_names() -> Seq<Seq<char>> {
    seq!["alpha1"@, "alpha2"@, "beta"@, "logd"@, "loga"@, "tb"@, "t0"@]
}

/// The names of the parameters' uncertainties.
pub open spec fn error_names() -> Seq<Seq<char>> {
    seq![
        "alpha1_err"@,
        "alpha2_err"@,
        "beta_err"@,
        "logd_err"@,
        "loga_err"@,
        "tb_err"@,
        "t0_err"@,
    ]
}

/// Names of the fitted parameters, in the order of every parameter vector.
pub const PARAM_NAMES: [&'static str; N_PARAMS] = [
    "alpha1",
    "alpha2",
    "beta",
    "logd",
    "loga",
    "tb",
    "t0",
];

/// The values of a result's parameters.
pub open spec fn parameter_values(result: SbplResult) -> Seq<Option<Binary64>> {
    seq![
        result.alpha1,
        result.alpha2,
        result.beta,
        result.logd,
        result.loga,
        result.tb,
        result.t0,
    ]
}

/// The uncertainties of a result's parameters.
pub open spec fn error_values(result: SbplResult) -> Seq<Option<Binary64>> {
    seq![
        result.alpha1_err,
        result.alpha2_err,
        result.beta_err,
        result.logd_err,
        result.loga_err,
        result.tb_err,
        result.t0_err,
    ]
}

/// The parameters of a result and their uncertainties, by name.
pub fn param_entries(result: &SbplResult) -> (r: Vec<(&'static str, Option<Binary64>)>)
    ensures
        r@.map_values(|e: (&'static str, Option<Binary64>)| e.0@) == parameter_names()
            + error_names(),
        r@.map_values(|e: (&'static str, Option<Binary64>)| e.1) == parameter_values(*result)
            + error_values(*result),
{
    let r: Vec<(&'static str, Option<Binary64>)> = vec![
        ("alpha1", result.alpha1),
        ("alpha2", result.alpha2),
        ("beta", result.beta),
        ("logd", result.logd),
        ("loga", result.loga),
        ("tb", result.tb),
        ("t0", result.t0),
        ("alpha1_err", result.alpha1_err),
        ("alpha2_err", result.alpha2_err),
        ("beta_err", result.beta_err),
        ("logd_err", result.logd_err),
        ("loga_err", result.loga_err),
        ("tb_err", result.tb_err),
        ("t0_err", result.t0_err),
    ];
    assert(r@.map_values(|e: (&'static str, Option<Binary64>)| e.0@) =~= parameter_names()
        + error_names());
    assert(r@.map_values(|e: (&'static str, Option<Binary64>)| e.1) =~= parameter_values(*result)
        + error_values(*result));
    r
}

/// Results are reported under the names of the parameters.
pub proof fn law_parameters_keep_their_names(i: int)
    requires
        0 <= i < N_PARAMS,
    ensures
        PARAM_NAMES@[i]@ == parameter_names()[i],
{
}

} // verus!
