//! Bundle flattener: applies the address dispatcher to each immediate
//! child of a bundle, in document order. A child that is itself a bundle
//! is one nesting level too deep: it yields `UnsupportedNesting` in its
//! own slot, and its siblings are processed regardless.

use vstd::prelude::*;

use crate::dispatch::dispatch;
use crate::dispatch::dispatch_model;
use crate::dispatch::outcome_model;
use crate::dispatch::AppMessage;
use crate::dispatch::AppModel;
use crate::dispatch::DispatchErrModel;
use crate::dispatch::DispatchError;
use crate::packet::ChildModel;
use crate::packet::OscBundle;
use crate::packet::OscChild;

verus! {

/// Outcome of one bundle child: its dispatch result for a message, and
/// `UnsupportedNesting` for a nested bundle.
pub open spec fn child_outcome(c: ChildModel) -> Result<AppModel, DispatchErrModel> {
    match c {
        ChildModel::Message(m) => dispatch_model(m),
        ChildModel::Nested(_) => Err(DispatchErrModel::UnsupportedNesting),
    }
}

/// Outcomes of a child list, one per child, in document order.
pub open spec fn flatten_model(cs: Seq<ChildModel>) -> Seq<Result<AppModel, DispatchErrModel>> {
    cs.map_values(|c: ChildModel| child_outcome(c))
}

/// Dispatch each immediate child of a bundle: exactly one result per
/// child, in order. One failing child never disturbs its siblings.
pub fn flatten(b: &OscBundle) -> (r: Vec<Result<AppMessage, DispatchError>>)
    ensures
        r@.len() == b.children@.len(),
        r@.map_values(|x: Result<AppMessage, DispatchError>| outcome_model(x)) == flatten_model(
            b@.children,
        ),
{
    let mut r: Vec<Result<AppMessage, DispatchError>> = Vec::new();
    let mut i: usize = 0;
    while i < b.children.len()
        invariant
            i <= b.children@.len(),
            r@.len() == i,
            forall|t: int|
                0 <= t < i ==> outcome_model(#[trigger] r@[t]) == child_outcome(b.children@[t]@),
        decreases b.children@.len() - i,
    {
        match &b.children[i] {
            OscChild::Message(m) => {
                let out = dispatch(m);
                r.push(out);
            },
            OscChild::Nested(_) => {
                r.push(Err(DispatchError::UnsupportedNesting));
            },
        }
        i += 1;
    }
    proof {
        assert(r@.map_values(|x: Result<AppMessage, DispatchError>| outcome_model(x))
            =~= flatten_model(b@.children));
    }
    r
}

// ---------------------------------------------------------------------------
// Laws of the flattener
// ---------------------------------------------------------------------------

/// Bundle isolation: when every child but `k` dispatches cleanly and child
/// `k` fails, the flattened outcomes still hold one entry per child, with
/// only entry `k` an error and every other entry its child's own result.
pub proof fn lemma_bundle_isolation(cs: Seq<ChildModel>, k: int)
    requires
        0 <= k < cs.len(),
        forall|i: int| 0 <= i < cs.len() && i != k ==> child_outcome(#[trigger] cs[i]) is Ok,
        child_outcome(cs[k]) is Err,
    ensures
        flatten_model(cs).len() == cs.len(),
        flatten_model(cs)[k] is Err,
        forall|i: int|
            0 <= i < cs.len() && i != k ==> (#[trigger] flatten_model(cs)[i]) is Ok
                && flatten_model(cs)[i] == child_outcome(cs[i]),
{
}

/// Nesting policy: a nested bundle child yields `UnsupportedNesting` in
/// its own slot, and every message sibling yields its own dispatch
/// outcome, unaffected.
pub proof fn lemma_nesting_policy(cs: Seq<ChildModel>, k: int)
    requires
        0 <= k < cs.len(),
        cs[k] is Nested,
    ensures
        flatten_model(cs).len() == cs.len(),
        flatten_model(cs)[k] == Err::<AppModel, DispatchErrModel>(
            DispatchErrModel::UnsupportedNesting,
        ),
        forall|i: int|
            0 <= i < cs.len() && (#[trigger] cs[i]) is Message ==> flatten_model(cs)[i]
                == dispatch_model(cs[i]->Message_0),
{
}

} // verus!
