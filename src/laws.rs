//! Properties of the middleware over sequences of calls and resumptions.
use crate::error::Error;
use crate::hub::HubView;
use crate::quota::{
    approves, call_spec, has_key, keys_unique, lemma_map_of_push, limits_of, map_of, poll_spec, ActionView, QuotaServiceResponse,
    QuotaServiceStateView,
};
use vstd::prelude::*;

verus! {

/// A state with the given limits and an empty slot.
pub open spec fn idle(limits: Map<Seq<char>, u64>) -> QuotaServiceStateView {
    QuotaServiceStateView { limits, slot: None }
}

/// The action that the first resumption after a call with `req` yields.
pub open spec fn round_action(limits: Map<Seq<char>, u64>, hub: HubView, req: Seq<char>) -> ActionView {
    let (s1, resp) = call_spec(idle(limits), hub, req);
    poll_spec(resp, s1).2
}

/// The hub after one call with `req`: the wrapped handler, when invoked,
/// records one delivery.
pub open spec fn round(limits: Map<Seq<char>, u64>, hub: HubView, req: Seq<char>) -> HubView {
    if round_action(limits, hub, req) is Invoke {
        HubView { id: hub.id, message_count: hub.message_count + 1 }
    } else {
        hub
    }
}

/// The hub after `n` successive calls, each completed before the next.
pub open spec fn rounds(limits: Map<Seq<char>, u64>, hub: HubView, req: Seq<char>, n: nat) -> HubView
    decreases n,
{
    if n == 0 {
        hub
    } else {
        round(limits, rounds(limits, hub, req, (n - 1) as nat), req)
    }
}

/// The number of times the wrapped handler is invoked over `n` successive
/// resumptions of one interception.
pub open spec fn invocations(resp: QuotaServiceResponse, state: QuotaServiceStateView, n: nat) -> nat
    decreases n,
{
    if n == 0 {
        0
    } else {
        let (resp2, state2, a) = poll_spec(resp, state);
        (if a is Invoke { 1nat } else { 0nat }) + invocations(resp2, state2, (n - 1) as nat)
    }
}

/// A hub with limit `L` that starts with no deliveries: its first `L` calls
/// are forwarded and each counts one delivery; every later call is refused
/// with `QuotaExceeded` and the count stays at `L`.
pub proof fn lemma_limit_admits_exactly_first_calls(
    limits: Map<Seq<char>, u64>,
    id: Seq<char>,
    req: Seq<char>,
    n: nat,
)
    requires
        limits.contains_key(id),
    ensures
        ({
            let l = limits[id] as nat;
            let h = rounds(limits, HubView { id, message_count: 0 }, req, n);
            &&& h.id == id
            &&& h.message_count == if n <= l { n } else { l }
            &&& round_action(limits, h, req) == if n < l {
                ActionView::Invoke(req)
            } else {
                ActionView::Fail(Error::QuotaExceeded)
            }
        }),
    decreases n,
{
    if n > 0 {
        lemma_limit_admits_exactly_first_calls(limits, id, req, (n - 1) as nat);
    }
}

/// A hub without a limit has every call forwarded, whatever its count, and
/// each call counts one delivery.
pub proof fn lemma_unlimited_always_forwarded(
    limits: Map<Seq<char>, u64>,
    hub: HubView,
    req: Seq<char>,
    n: nat,
)
    requires
        !limits.contains_key(hub.id),
    ensures
        round_action(limits, hub, req) == ActionView::Invoke(req),
        rounds(limits, hub, req, n) == (HubView { id: hub.id, message_count: hub.message_count + n }),
    decreases n,
{
    if n > 0 {
        lemma_unlimited_always_forwarded(limits, hub, req, (n - 1) as nat);
    }
}

/// However often an interception is resumed, the wrapped handler is
/// invoked at most once; after it is, every resumption only polls it.
pub proof fn lemma_handler_invoked_at_most_once(
    resp: QuotaServiceResponse,
    state: QuotaServiceStateView,
    n: nat,
)
    ensures
        invocations(resp, state, n) <= 1,
        poll_spec(resp, state).2 is Invoke ==> poll_spec(resp, state).0 == QuotaServiceResponse::ServiceCall,
        resp == QuotaServiceResponse::ServiceCall ==> invocations(resp, state, n) == 0,
    decreases n,
{
    if n > 0 {
        let (resp2, state2, a) = poll_spec(resp, state);
        lemma_handler_invoked_at_most_once(resp2, state2, (n - 1) as nat);
        lemma_service_call_never_invokes(state2, (n - 1) as nat);
    }
}

/// Resuming an interception whose handler already runs never invokes it.
proof fn lemma_service_call_never_invokes(state: QuotaServiceStateView, n: nat)
    ensures
        invocations(QuotaServiceResponse::ServiceCall, state, n) == 0,
    decreases n,
{
    if n > 0 {
        lemma_service_call_never_invokes(state, (n - 1) as nat);
    }
}

/// A refused call leaves the state as the call made it (the request is not
/// drained), and a fresh call afterwards behaves exactly as it would have
/// without the refused one.
pub proof fn lemma_denial_leaves_next_call_independent(
    state: QuotaServiceStateView,
    hub: HubView,
    req: Seq<char>,
    next_hub: HubView,
    next_req: Seq<char>,
)
    requires
        !approves(state.limits, hub.id, hub.message_count),
    ensures
        ({
            let (s1, resp) = call_spec(state, hub, req);
            let (resp2, s2, a) = poll_spec(resp, s1);
            &&& a == ActionView::Fail(Error::QuotaExceeded)
            &&& s2 == s1
            &&& s2.slot == Some(req)
            &&& call_spec(s2, next_hub, next_req) == call_spec(state, next_hub, next_req)
        }),
{
}

/// A table built from pairs approves an identifier that the pairs do not
/// name, at any count.
pub proof fn lemma_unlisted_identifier_approved(
    pairs: Seq<(Seq<char>, u64)>,
    id: Seq<char>,
    count: nat,
)
    requires
        !has_key(pairs, id),
    ensures
        !limits_of(pairs).contains_key(id),
        approves(limits_of(pairs), id, count),
    decreases pairs.len(),
{
    if pairs.len() > 0 {
        let init = pairs.drop_last();
        assert(!has_key(init, id)) by {
            if has_key(init, id) {
                let c = choose|i: int| 0 <= i < init.len() && #[trigger] init[i].0 == id;
                assert(pairs[c].0 == id);
            }
        }
        assert(pairs.last().0 != id) by {
            assert(pairs[pairs.len() - 1].0 == pairs.last().0);
        }
        lemma_unlisted_identifier_approved(init, id, count);
    }
}

/// Built from pairs with distinct identifiers, a table maps each listed
/// identifier to exactly the limit it was listed with.
pub proof fn lemma_listed_identifier_limit(pairs: Seq<(Seq<char>, u64)>, i: int)
    requires
        keys_unique(pairs),
        0 <= i < pairs.len(),
    ensures
        limits_of(pairs).contains_key(pairs[i].0),
        limits_of(pairs)[pairs[i].0] == pairs[i].1,
{
    lemma_limits_of_distinct(pairs);
    let id = pairs[i].0;
    assert(has_key(pairs, id));
    let c = choose|k: int| 0 <= k < pairs.len() && #[trigger] pairs[k].0 == id;
    assert(pairs[c].0 == pairs[i].0);
}

/// With distinct identifiers, building in order gives the plain mapping.
proof fn lemma_limits_of_distinct(pairs: Seq<(Seq<char>, u64)>)
    requires
        keys_unique(pairs),
    ensures
        limits_of(pairs) == map_of(pairs),
    decreases pairs.len(),
{
    if pairs.len() == 0 {
        assert(map_of(pairs) =~= Map::empty());
    } else {
        let init = pairs.drop_last();
        let n = init.len() as int;
        assert(keys_unique(init)) by {
            assert forall|a: int, b: int|
                0 <= a < init.len() && 0 <= b < init.len() && #[trigger] init[a].0 == #[trigger] init[b].0
                    implies a == b by {
                assert(pairs[a].0 == init[a].0 && pairs[b].0 == init[b].0);
            }
        }
        assert(!has_key(init, pairs.last().0)) by {
            if has_key(init, pairs.last().0) {
                let c = choose|k: int| 0 <= k < init.len() && #[trigger] init[k].0 == pairs.last().0;
                assert(pairs[c].0 == pairs[n].0);
            }
        }
        lemma_limits_of_distinct(init);
        lemma_map_of_push(init, pairs.last().0, pairs.last().1);
        assert(init.push((pairs.last().0, pairs.last().1)) =~= pairs);
    }
}

} // verus!
