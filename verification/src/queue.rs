//! Requests of which only the latest matters: one that comes while another waits
//! takes its place.

use vstd::prelude::*;

verus! {

/// The places tell where in `all` each item of `some` stands, one after the other.
pub open spec fn stand_at<T>(some: Seq<T>, all: Seq<T>, places: Seq<int>) -> bool {
    &&& places.len() == some.len()
    &&& forall|i: int|
        0 <= i < places.len() ==> 0 <= #[trigger] places[i] < all.len() && some[i] == all[places[i]]
    &&& forall|i: int, j: int| 0 <= i < j < places.len() ==> places[i] < places[j]
}

/// `some` is `all`, in the same order, with items left out.
pub open spec fn is_subsequence<T>(some: Seq<T>, all: Seq<T>) -> bool {
    exists|places: Seq<int>| #[trigger] stand_at(some, all, places)
}

pub proof fn nothing_is_left_out<T>()
    ensures
        is_subsequence(Seq::<T>::empty(), Seq::<T>::empty()),
{
    assert(stand_at(Seq::<T>::empty(), Seq::<T>::empty(), Seq::<int>::empty()));
}

/// An item may be added at the end of both, or of all.
pub proof fn one_more<T>(some: Seq<T>, all: Seq<T>, item: T)
    requires
        is_subsequence(some, all),
    ensures
        is_subsequence(some.push(item), all.push(item)),
        is_subsequence(some, all.push(item)),
{
    let places = choose|places: Seq<int>| stand_at(some, all, places);
    assert(stand_at(some, all.push(item), places));
    assert(stand_at(some.push(item), all.push(item), places.push(all.len() as int)));
}

/// What happens to a queue.
pub ghost enum Step<T> {
    /// A request comes.
    Asked(T),
    /// The one that waits is taken, if one does.
    Taken,
}

/// The request that waits after a step, and the one that the step took.
pub open spec fn stepped<T>(waiting: Option<T>, step: Step<T>) -> (Option<T>, Option<T>) {
    match step {
        Step::Asked(request) => (Some(request), None),
        Step::Taken => (None, waiting),
    }
}

/// What is left and what was served after some steps.
pub ghost struct Served<T> {
    pub waiting: Option<T>,
    pub served: Seq<T>,
}

/// What the steps lead to, one after the other, from an empty queue.
pub open spec fn after_steps<T>(steps: Seq<Step<T>>) -> Served<T>
    decreases steps.len(),
{
    if steps.len() == 0 {
        Served { waiting: None, served: seq![] }
    } else {
        let before = after_steps(steps.drop_last());
        let (waiting, taken) = stepped(before.waiting, steps.last());
        Served {
            waiting,
            served: match taken {
                Some(request) => before.served.push(request),
                None => before.served,
            },
        }
    }
}

/// The requests that came, in order.
pub open spec fn asked<T>(steps: Seq<Step<T>>) -> Seq<T>
    decreases steps.len(),
{
    if steps.len() == 0 {
        seq![]
    } else {
        match steps.last() {
            Step::Asked(request) => asked(steps.drop_last()).push(request),
            Step::Taken => asked(steps.drop_last()),
        }
    }
}

/// Rapid requests are collapsed, and the newest is never lost. Whatever comes and is
/// taken, and in whatever order: those served are some of those asked for, in that
/// order; the newest still waits or was served last; and once the queue is taken
/// from, it was.
pub proof fn the_newest_request_is_never_lost<T>(steps: Seq<Step<T>>)
    ensures
        ({
            let now = after_steps(steps);
            let end = after_steps(steps.push(Step::Taken));
            let all = asked(steps);
            &&& is_subsequence(now.served, all)
            &&& now.waiting matches Some(request) ==> is_subsequence(now.served.push(request), all)
            &&& all.len() == 0 ==> now.waiting is None && now.served.len() == 0
            &&& all.len() > 0 ==> {
                &&& now.waiting == Some(all.last()) || now.waiting is None && now.served.len() > 0
                    && now.served.last() == all.last()
                &&& end.waiting is None
                &&& end.served.len() > 0
                &&& end.served.last() == all.last()
                &&& is_subsequence(end.served, all)
            }
        }),
    decreases steps.len(),
{
    if steps.len() == 0 {
        nothing_is_left_out::<T>();
    } else {
        let rest = steps.drop_last();
        the_newest_request_is_never_lost(rest);
        if let Step::Asked(request) = steps.last() {
            one_more(after_steps(rest).served, asked(rest), request);
        }
    }
    assert(steps.push(Step::<T>::Taken).drop_last() =~= steps);
}

} // verus!
