//! Host gating labels: `auto` vs `escalate`.
//!
//! Apofasi owns calibrated signals; the host owns when to require human
//! review. Thresholding the floating-point signals happens on the host side;
//! the labels and the question-level roll-up are decided here.

use std::collections::btree_map::Values;
use std::collections::BTreeMap;

use vstd::prelude::*;

verus! {

/// Recommended host action for one answer.
#[derive(Debug, Clone, Copy, PartialEq, Eq, Structural)]
pub enum GateAction {
    /// Proceed without human review.
    Auto,
    /// Escalate to a human / higher-cost path.
    Escalate,
}

/// Stable wire label of an action.
pub open spec fn action_name(a: GateAction) -> Seq<char> {
    match a {
        GateAction::Auto => "auto"@,
        GateAction::Escalate => "escalate"@,
    }
}

impl GateAction {
    /// Stable wire label (`"auto"` / `"escalate"`).
    pub fn as_str(self) -> (r: &'static str)
        ensures
            r@ == action_name(self),
    {
        match self {
            GateAction::Auto => "auto",
            GateAction::Escalate => "escalate",
        }
    }
}

/// Calls `BTreeMap::values`: an iterator that yields each value of the map
/// once per key and then stops. Claimed: the values it walks (vstd's
/// `into_iter_values`) are, as a set, the map's values; it has a termination
/// measure; and it is at its start. Nothing is claimed of the order.
#[verifier::external_body]
fn values_of(gates: &BTreeMap<String, GateAction>) -> (r: Values<'_, String, GateAction>)
    ensures
        vstd::std_specs::btree::into_iter_values(r).to_set() == gates@.values(),
        vstd::std_specs::iter::IteratorSpec::decrease(&r) is Some,
        vstd::std_specs::iter::IteratorSpec::initial_value_relation(&r, &r),
{
    gates.values()
}

/// True when any answer in the map is [`GateAction::Escalate`].
pub fn any_escalate(gates: &BTreeMap<String, GateAction>) -> (r: bool)
    ensures
        r == gates@.values().contains(GateAction::Escalate),
{
    let values = values_of(gates);
    let ghost all = vstd::std_specs::btree::into_iter_values(values);
    for a in it: values
        invariant
            all == vstd::std_specs::btree::into_iter_values(values),
            it.seq().len() == all.len(),
            forall|k: int| 0 <= k < all.len() ==> *it.seq()[k] == all[k],
            all.to_set() == gates@.values(),
            forall|k: int| 0 <= k < it.index() ==> all[k] != GateAction::Escalate,
    {
        if *a == GateAction::Escalate {
            proof {
                assert(all[it.index() as int] == GateAction::Escalate);
                assert(all.contains(GateAction::Escalate));
            }
            return true;
        }
    }
    proof {
        if all.to_set().contains(GateAction::Escalate) {
            let k = choose|k: int| 0 <= k < all.len() && all[k] == GateAction::Escalate;
            assert(all[k] != GateAction::Escalate);
        }
    }
    false
}

} // verus!
