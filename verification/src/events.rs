//! Who hears of a change, and what the store answers once they have.

use crate::overlay::reversed;
use crate::path::{is_under, StorePath};
use vstd::prelude::*;

verus! {

/// Which changes a subscriber hears of.
pub enum SubscriptionKind {
    /// Every change.
    Any,
    /// A change at this path and nowhere else.
    ExactPath(StorePath),
    /// A change at this path or under it.
    Prefix(StorePath),
}

/// What a change did.
#[derive(Debug, Clone, Copy, PartialEq, Eq, Structural)]
pub enum StoreOp {
    /// A value was written.
    Put,
    /// A value was taken out.
    Delete,
    /// Everything under a path was taken out.
    DeletePrefix,
}

/// Whether a subscriber of `kind` hears of a change at `path`.
pub open spec fn hears(kind: SubscriptionKind, path: Seq<Seq<char>>) -> bool {
    match kind {
        SubscriptionKind::Any => true,
        SubscriptionKind::ExactPath(p) => p@ == path,
        SubscriptionKind::Prefix(prefix) => is_under(path, prefix@),
    }
}

/// Whether a subscriber of `kind` hears of a change at `path`.
pub fn matches_kind(kind: &SubscriptionKind, path: &StorePath) -> (r: bool)
    ensures
        r == hears(*kind, path@),
{
    match kind {
        SubscriptionKind::Any => true,
        SubscriptionKind::ExactPath(p) => p.same_as(path),
        SubscriptionKind::Prefix(prefix) => path.starts_with(prefix),
    }
}

/// How many of the answers refused.
pub open spec fn refusals<E>(answers: Seq<Result<(), E>>) -> nat
    decreases answers.len(),
{
    if answers.len() == 0 {
        0
    } else {
        refusals(answers.drop_last()) + if answers.last() is Err { 1nat } else { 0nat }
    }
}

/// Where the first refusal stands, if any answer refused.
pub open spec fn first_refusal<E>(answers: Seq<Result<(), E>>) -> Option<int> {
    if exists|i: int| 0 <= i < answers.len() && answers[i] is Err {
        Some(choose|i: int| 0 <= i < answers.len() && answers[i] is Err && forall|j: int| 0 <= j < i ==> answers[j] is Ok)
    } else {
        None
    }
}

proof fn lemma_refusals_step<E>(answers: Seq<Result<(), E>>, i: int)
    requires
        0 <= i < answers.len(),
    ensures
        refusals(answers.take(i + 1)) == refusals(answers.take(i)) + if answers[i] is Err { 1nat } else { 0nat },
{
    assert(answers.take(i + 1).drop_last() =~= answers.take(i));
}

/// What the store answers once every subscriber has been told: nothing where
/// all of them took the change, and otherwise the first refusal with how many
/// others refused too. Every subscriber is told whatever the ones before it
/// answered, so all the answers are in.
pub fn answered<E>(answers: Vec<Result<(), E>>) -> (r: Result<(), (E, usize)>)
    ensures
        match r {
            Ok(()) => first_refusal(answers@) is None,
            Err((why, also)) => {
                &&& first_refusal(answers@) is Some
                &&& answers@[first_refusal(answers@)->0] == Err::<(), E>(why)
                &&& also + 1 == refusals(answers@)
            },
        },
{
    let ghost all = answers@;
    let n = answers.len();
    let mut pile = reversed(answers);
    let mut first: Option<E> = None;
    let mut also: usize = 0;
    let mut i: usize = 0;
    let ghost mut at: int = 0;
    proof {
        assert(all.take(0) =~= Seq::empty());
    }
    while pile.len() > 0
        invariant
            n == all.len(),
            i + pile@.len() == n,
            forall|k: int| 0 <= k < pile@.len() ==> pile@[k] == all[n - 1 - k],
            refusals(all.take(i as int)) <= i,
            first is None ==> forall|j: int| 0 <= j < i ==> #[trigger] all[j] is Ok,
            first is Some ==> {
                &&& 0 <= at < i
                &&& all[at] == Err::<(), E>(first->0)
                &&& forall|j: int| 0 <= j < at ==> #[trigger] all[j] is Ok
                &&& also + 1 == refusals(all.take(i as int))
            },
            first is None ==> refusals(all.take(i as int)) == 0 && also == 0,
        decreases pile@.len(),
    {
        proof {
            lemma_refusals_step(all, i as int);
        }
        let next = pile.pop().unwrap();
        assert(next == all[i as int]);
        match next {
            Ok(()) => {
                assert(all[i as int] is Ok);
            },
            Err(why) => {
                match first {
                    None => {
                        first = Some(why);
                        proof {
                            at = i as int;
                        }
                    },
                    Some(_) => {
                        also = also + 1;
                    },
                }
            },
        }
        i = i + 1;
    }
    proof {
        assert(all.take(n as int) =~= all);
    }
    match first {
        None => {
            proof {
                if exists|j: int| 0 <= j < all.len() && all[j] is Err {
                    let j = choose|j: int| 0 <= j < all.len() && all[j] is Err;
                    assert(all[j] is Ok);
                }
            }
            Ok(())
        },
        Some(why) => {
            proof {
                assert(all[at] is Err);
                let f = choose|k: int| 0 <= k < all.len() && all[k] is Err && forall|j: int| 0 <= j < k ==> all[j] is Ok;
                if f < at {
                    assert(all[f] is Ok);
                }
                if at < f {
                    assert(all[at] is Ok);
                }
            }
            Err((why, also))
        },
    }
}

} // verus!
