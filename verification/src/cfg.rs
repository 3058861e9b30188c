//! Evaluation of `cfg()` expressions of target-specific dependencies, done
//! by the `cfg-expr` crate.
use vstd::prelude::*;
use crate::text::{contains_str, strs};

verus! {

/// Whether `cfg_expr` knows the triple as one of rustc's builtin targets
/// (`cfg_expr::targets::get_builtin_target_by_triple` finds it).
pub uninterp spec fn cfg_builtin_triple(triple: Seq<char>) -> bool;

/// A predicate of a `cfg()` expression, as the decision on it needs it: a
/// target predicate with whether it matches the builtin target (`None`
/// where there is no builtin target to match), a `target_feature`
/// predicate with its feature, or another predicate.
pub enum CfgPredicate {
    Target(Option<bool>),
    TargetFeature(String),
    Other,
}

/// The value a predicate takes: a target predicate holds where it matches
/// the builtin target (never where there is none), a `target_feature`
/// predicate where its feature is one of `features`, and no other
/// predicate holds.
pub open spec fn predicate_value(p: CfgPredicate, features: Seq<Seq<char>>) -> bool {
    match p {
        CfgPredicate::Target(m) => m == Some(true),
        CfgPredicate::TargetFeature(f) => features.contains(f@),
        CfgPredicate::Other => false,
    }
}

/// Decides a predicate of a `cfg()` expression (see [`predicate_value`]).
pub fn predicate_holds(p: &CfgPredicate, features: &Vec<String>) -> (r: bool)
    ensures
        r == predicate_value(*p, strs(features@)),
{
    match p {
        CfgPredicate::Target(m) => match m {
            Some(b) => *b,
            None => false,
        },
        CfgPredicate::TargetFeature(f) => contains_str(features, f.as_str()),
        CfgPredicate::Other => false,
    }
}

/// What evaluating the `cfg()` expression `expr` gives: `None` where
/// `cfg_expr::Expression::parse` refuses it; otherwise the value of the
/// expression when each predicate takes the value that
/// [`predicate_holds`] decides for it, a target predicate being matched
/// against the builtin target `builtin` and a `target_feature` one against
/// `features`.
pub uninterp spec fn cfg_eval(
    expr: Seq<char>,
    builtin: Option<Seq<char>>,
    features: Seq<Seq<char>>,
) -> Option<bool>;

/// Calls `cfg_expr::targets::get_builtin_target_by_triple`; the contract
/// claims that the answer is whether it finds the triple.
#[verifier::external_body]
pub(crate) fn is_builtin_triple(triple: &str) -> (r: bool)
    ensures
        r == cfg_builtin_triple(triple@),
{
    cfg_expr::targets::get_builtin_target_by_triple(triple).is_some()
}

/// Calls `cfg_expr::Expression::parse` and then `Expression::eval`. Each
/// predicate is moved into a [`CfgPredicate`] (a target predicate with what
/// `TargetPredicate::matches` answers against the builtin target of the
/// triple `builtin`, if any) and decided by the library's
/// [`predicate_holds`]. The contract claims that the result is `cfg_eval` of
/// the expression, the triple and the features.
#[verifier::external_body]
pub(crate) fn eval_cfg(expr: &str, builtin: Option<&str>, features: &Vec<String>) -> (r: Option<bool>)
    ensures
        r == cfg_eval(
            expr@,
            match builtin {
                Some(t) => Some(t@),
                None => None,
            },
            strs(features@),
        ),
{
    let expr = cfg_expr::Expression::parse(expr).ok()?;
    let info = builtin.and_then(cfg_expr::targets::get_builtin_target_by_triple);
    Some(expr.eval(|pred| predicate_holds(&match pred {
        cfg_expr::expr::Predicate::Target(tp) => CfgPredicate::Target(info.map(|bi| tp.matches(bi))),
        cfg_expr::expr::Predicate::TargetFeature(feat) => CfgPredicate::TargetFeature(feat.to_string()),
        _ => CfgPredicate::Other,
    }, features)))
}

} // verus!
