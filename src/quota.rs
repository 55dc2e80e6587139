use crate::error::Error;
use crate::hub::Hub;
use vstd::prelude::*;

verus! {

/// Whether every identifier occurs at most once among the pairs.
pub open spec fn keys_unique(pairs: Seq<(Seq<char>, u64)>) -> bool {
    forall|i: int, j: int|
        0 <= i < pairs.len() && 0 <= j < pairs.len() && #[trigger] pairs[i].0 == #[trigger] pairs[j].0
            ==> i == j
}

/// Whether `id` occurs as an identifier among the pairs.
pub open spec fn has_key(pairs: Seq<(Seq<char>, u64)>, id: Seq<char>) -> bool {
    exists|i: int| 0 <= i < pairs.len() && #[trigger] pairs[i].0 == id
}

/// The mapping from identifier to limit that a list of pairs describes.
pub open spec fn map_of(pairs: Seq<(Seq<char>, u64)>) -> Map<Seq<char>, u64> {
    Map::new(
        |id: Seq<char>| has_key(pairs, id),
        |id: Seq<char>| pairs[choose|i: int| 0 <= i < pairs.len() && #[trigger] pairs[i].0 == id].1,
    )
}

/// The mapping that inserting the pairs one after another, in order, builds:
/// a later pair for an identifier replaces an earlier one.
pub open spec fn limits_of(pairs: Seq<(Seq<char>, u64)>) -> Map<Seq<char>, u64>
    decreases pairs.len(),
{
    if pairs.len() == 0 {
        Map::empty()
    } else {
        limits_of(pairs.drop_last()).insert(pairs.last().0, pairs.last().1)
    }
}

/// Replacing the limit of a listed identifier keeps the keys unique and
/// updates the mapping.
proof fn lemma_map_of_update(e: Seq<(Seq<char>, u64)>, j: int, v: u64)
    requires
        keys_unique(e),
        0 <= j < e.len(),
    ensures
        keys_unique(e.update(j, (e[j].0, v))),
        map_of(e.update(j, (e[j].0, v))) == map_of(e).insert(e[j].0, v),
{
    let k = e[j].0;
    let e2 = e.update(j, (k, v));
    assert forall|i: int, l: int|
        0 <= i < e2.len() && 0 <= l < e2.len() && #[trigger] e2[i].0 == #[trigger] e2[l].0 implies i == l by {
        assert(e2[i].0 == e[i].0 && e2[l].0 == e[l].0);
    }
    assert forall|id: Seq<char>| has_key(e2, id) <==> has_key(e, id) || id == k by {
        if has_key(e, id) {
            let c = choose|i: int| 0 <= i < e.len() && #[trigger] e[i].0 == id;
            assert(e2[c].0 == id);
        }
        if has_key(e2, id) {
            let c = choose|i: int| 0 <= i < e2.len() && #[trigger] e2[i].0 == id;
            assert(e[c].0 == id);
        }
        if id == k {
            assert(e2[j].0 == id);
        }
    }
    assert forall|id: Seq<char>| #[trigger] map_of(e2).contains_key(id) implies map_of(e2)[id]
        == map_of(e).insert(k, v)[id] by {
        let c2 = choose|i: int| 0 <= i < e2.len() && #[trigger] e2[i].0 == id;
        if id == k {
            assert(e2[j].0 == id);
        } else {
            assert(e[c2].0 == id);
            let c = choose|i: int| 0 <= i < e.len() && #[trigger] e[i].0 == id;
            assert(e[c].0 == e[c2].0);
        }
    }
    assert(map_of(e2) =~= map_of(e).insert(k, v));
}

/// Appending a pair for an unlisted identifier keeps the keys unique and
/// extends the mapping.
pub(crate) proof fn lemma_map_of_push(e: Seq<(Seq<char>, u64)>, k: Seq<char>, v: u64)
    requires
        keys_unique(e),
        !has_key(e, k),
    ensures
        keys_unique(e.push((k, v))),
        map_of(e.push((k, v))) == map_of(e).insert(k, v),
{
    let e2 = e.push((k, v));
    let n = e.len() as int;
    assert forall|i: int, l: int|
        0 <= i < e2.len() && 0 <= l < e2.len() && #[trigger] e2[i].0 == #[trigger] e2[l].0 implies i == l by {
        if i < n && l < n {
            assert(e2[i].0 == e[i].0 && e2[l].0 == e[l].0);
        } else if i < n {
            assert(e[i].0 == k);
        } else if l < n {
            assert(e[l].0 == k);
        }
    }
    assert forall|id: Seq<char>| has_key(e2, id) <==> has_key(e, id) || id == k by {
        if has_key(e, id) {
            let c = choose|i: int| 0 <= i < e.len() && #[trigger] e[i].0 == id;
            assert(e2[c].0 == id);
        }
        if has_key(e2, id) {
            let c = choose|i: int| 0 <= i < e2.len() && #[trigger] e2[i].0 == id;
            if c < n {
                assert(e[c].0 == id);
            }
        }
        if id == k {
            assert(e2[n].0 == id);
        }
    }
    assert forall|id: Seq<char>| #[trigger] map_of(e2).contains_key(id) implies map_of(e2)[id]
        == map_of(e).insert(k, v)[id] by {
        let c2 = choose|i: int| 0 <= i < e2.len() && #[trigger] e2[i].0 == id;
        if id == k {
            assert(e2[n].0 == id);
        } else {
            assert(c2 < n);
            assert(e[c2].0 == id);
            let c = choose|i: int| 0 <= i < e.len() && #[trigger] e[i].0 == id;
            assert(e[c].0 == e[c2].0);
        }
    }
    assert(map_of(e2) =~= map_of(e).insert(k, v));
}

/// The view of a list of owned pairs as pairs of character sequences.
pub open spec fn pairs_view(pairs: Seq<(String, u64)>) -> Seq<(Seq<char>, u64)> {
    pairs.map_values(|p: (String, u64)| (p.0@, p.1))
}

/// Whether a hub that has delivered `count` messages may deliver one more
/// under `limits`: a hub without a limit always may.
pub open spec fn approves(limits: Map<Seq<char>, u64>, id: Seq<char>, count: nat) -> bool {
    !limits.contains_key(id) || count < limits[id] as nat
}

/// The outcome of the quota check for a hub.
pub open spec fn decision(limits: Map<Seq<char>, u64>, hub: crate::hub::HubView) -> Result<(), Error> {
    if approves(limits, hub.id, hub.message_count) {
        Ok(())
    } else {
        Err(Error::QuotaExceeded)
    }
}

/// The message limits of the hubs, fixed when the manager is built.
#[derive(Clone)]
pub struct QuotaManager {
    count_quota: Vec<(String, u64)>,
}

impl View for QuotaManager {
    type V = Map<Seq<char>, u64>;

    closed spec fn view(&self) -> Map<Seq<char>, u64> {
        map_of(pairs_view(self.count_quota@))
    }
}

impl QuotaManager {
    /// Well-formedness: each identifier has one limit.
    pub closed spec fn wf(&self) -> bool {
        keys_unique(pairs_view(self.count_quota@))
    }

    /// A manager with the given limits; where an identifier is listed more
    /// than once, its last pair counts.
    pub fn new(count_quota: Vec<(String, u64)>) -> (r: QuotaManager)
        ensures
            r.wf(),
            r@ == limits_of(pairs_view(count_quota@)),
    {
        let ghost input = pairs_view(count_quota@);
        let mut m = QuotaManager { count_quota: Vec::new() };
        proof {
            assert(pairs_view(m.count_quota@) =~= Seq::empty());
            assert(map_of(Seq::empty()) =~= Map::empty());
            assert(input.take(0) =~= Seq::empty());
        }
        let mut i: usize = 0;
        while i < count_quota.len()
            invariant
                i <= count_quota.len(),
                input == pairs_view(count_quota@),
                m.wf(),
                m@ == limits_of(input.take(i as int)),
            decreases count_quota.len() - i,
        {
            let id = count_quota[i].0.clone();
            let max_count = count_quota[i].1;
            m.set_limit(id, max_count);
            proof {
                assert(input.take(i + 1).drop_last() =~= input.take(i as int));
            }
            i = i + 1;
        }
        proof {
            assert(input.take(i as int) =~= input);
        }
        m
    }

    /// Sets the limit of `id` to `max_count`, replacing any earlier one.
    fn set_limit(&mut self, id: String, max_count: u64)
        requires
            old(self).wf(),
        ensures
            final(self).wf(),
            final(self)@ == old(self)@.insert(id@, max_count),
    {
        let ghost pv = pairs_view(self.count_quota@);
        let mut j: usize = 0;
        while j < self.count_quota.len()
            invariant
                j <= self.count_quota.len(),
                pv == pairs_view(self.count_quota@),
                pv == pairs_view(old(self).count_quota@),
                keys_unique(pv),
                forall|l: int| 0 <= l < j ==> #[trigger] pv[l].0 != id@,
            decreases self.count_quota.len() - j,
        {
            if self.count_quota[j].0 == id {
                proof {
                    assert(pv[j as int].0 == id@);
                    lemma_map_of_update(pv, j as int, max_count);
                }
                self.count_quota.set(j, (id, max_count));
                proof {
                    assert(pairs_view(self.count_quota@) =~= pv.update(j as int, (pv[j as int].0, max_count)));
                }
                return;
            }
            j = j + 1;
        }
        proof {
            lemma_map_of_push(pv, id@, max_count);
        }
        self.count_quota.push((id, max_count));
        proof {
            assert(pairs_view(self.count_quota@) =~= pv.push((id@, max_count)));
        }
    }

    /// The limit configured for `id`, if any.
    pub fn limit(&self, id: &String) -> (r: Option<u64>)
        requires
            self.wf(),
        ensures
            r == (if self@.contains_key(id@) { Some(self@[id@]) } else { None::<u64> }),
    {
        let ghost pv = pairs_view(self.count_quota@);
        let mut i: usize = 0;
        while i < self.count_quota.len()
            invariant
                i <= self.count_quota.len(),
                pv == pairs_view(self.count_quota@),
                keys_unique(pv),
                forall|j: int| 0 <= j < i ==> #[trigger] pv[j].0 != id@,
            decreases self.count_quota.len() - i,
        {
            if self.count_quota[i].0 == *id {
                proof {
                    assert(pv[i as int].0 == id@);
                    let c = choose|k: int| 0 <= k < pv.len() && #[trigger] pv[k].0 == id@;
                    assert(pv[c].0 == pv[i as int].0);
                }
                return Some(self.count_quota[i].1);
            }
            i = i + 1;
        }
        proof {
            assert(!has_key(pv, id@));
        }
        None
    }

    /// Checks whether `hub` may deliver one more message: refused with
    /// [`Error::QuotaExceeded`] exactly when the hub has a limit and has
    /// reached it.
    pub fn enforce_message_quota(&self, hub: &Hub) -> (r: Result<(), Error>)
        requires
            self.wf(),
        ensures
            r == decision(self@, hub@),
            r is Ok <==> approves(self@, hub@.id, hub@.message_count),
    {
        let id = hub.id();
        match self.limit(&id) {
            Some(max_count) => {
                if hub.message_count() < max_count {
                    Ok(())
                } else {
                    Err(Error::QuotaExceeded)
                }
            },
            None => Ok(()),
        }
    }
}

/// The model of [`QuotaServiceState`]: the limits it enforces and the request
/// that waits in its slot.
pub struct QuotaServiceStateView {
    pub limits: Map<Seq<char>, u64>,
    pub slot: Option<Seq<char>>,
}

/// The shared state of one middleware instance: the quota policy and the
/// single slot that holds the request in flight.
pub struct QuotaServiceState {
    quota_manager: QuotaManager,
    req: Option<String>,
}

impl View for QuotaServiceState {
    type V = QuotaServiceStateView;

    closed spec fn view(&self) -> QuotaServiceStateView {
        QuotaServiceStateView {
            limits: self.quota_manager@,
            slot: match self.req {
                Some(r) => Some(r@),
                None => None,
            },
        }
    }
}

/// The state after a call with `req` on a hub in `hub`, and the interception
/// it returns.
pub open spec fn call_spec(
    state: QuotaServiceStateView,
    hub: crate::hub::HubView,
    req: Seq<char>,
) -> (QuotaServiceStateView, QuotaServiceResponse) {
    (
        QuotaServiceStateView { limits: state.limits, slot: Some(req) },
        QuotaServiceResponse::QuotaCheck(decision(state.limits, hub)),
    )
}

impl QuotaServiceState {
    /// Well-formedness: the quota manager is well formed.
    pub closed spec fn wf(&self) -> bool {
        self.quota_manager.wf()
    }

    /// A state that enforces the limits of `quota_manager`, with an empty slot.
    pub fn new(quota_manager: QuotaManager) -> (r: QuotaServiceState)
        requires
            quota_manager.wf(),
        ensures
            r.wf(),
            r@.limits == quota_manager@,
            r@.slot is None,
    {
        QuotaServiceState { quota_manager, req: None }
    }

    /// Whether a request waits in the slot.
    pub fn has_request(&self) -> (r: bool)
        ensures
            r == self@.slot is Some,
    {
        self.req.is_some()
    }

    /// Starts an intercepted call: stores `req` in the slot and checks the
    /// quota of `hub`. The returned interception resumes from there.
    pub fn call(&mut self, hub: &Hub, req: String) -> (r: QuotaServiceResponse)
        requires
            old(self).wf(),
        ensures
            final(self).wf(),
            (final(self)@, r) == call_spec(old(self)@, hub@, req@),
    {
        self.req = Some(req);
        let decision = self.quota_manager.enforce_message_quota(hub);
        QuotaServiceResponse::QuotaCheck(decision)
    }
}

/// One intercepted call, as a two-phase continuation.
#[derive(Debug)]
pub enum QuotaServiceResponse {
    /// The quota decision is known; the wrapped handler has not been called.
    QuotaCheck(Result<(), Error>),
    /// The wrapped handler has been called; its own completion decides.
    ServiceCall,
}

/// What the driver of an interception does after one resumption.
#[derive(Debug)]
pub enum Action {
    /// Complete the call with this error; the handler is not called.
    Fail(Error),
    /// Call the wrapped handler with this request, then resume again in the
    /// same turn.
    Invoke(String),
    /// Poll the wrapped handler's completion and report what it reports.
    PollHandler,
}

/// The model of an [`Action`].
pub enum ActionView {
    Fail(Error),
    Invoke(Seq<char>),
    PollHandler,
}

impl View for Action {
    type V = ActionView;

    open spec fn view(&self) -> ActionView {
        match self {
            Action::Fail(e) => ActionView::Fail(*e),
            Action::Invoke(r) => ActionView::Invoke(r@),
            Action::PollHandler => ActionView::PollHandler,
        }
    }
}

/// Whether resuming `resp` over `state` is defined: an approved quota check
/// needs a request in the slot.
pub open spec fn can_poll(resp: QuotaServiceResponse, state: QuotaServiceStateView) -> bool {
    resp matches QuotaServiceResponse::QuotaCheck(Ok(_)) ==> state.slot is Some
}

/// One resumption: the next phase, the next state, and the action.
pub open spec fn poll_spec(resp: QuotaServiceResponse, state: QuotaServiceStateView) -> (
    QuotaServiceResponse,
    QuotaServiceStateView,
    ActionView,
) {
    match resp {
        QuotaServiceResponse::QuotaCheck(Err(e)) => (resp, state, ActionView::Fail(e)),
        QuotaServiceResponse::QuotaCheck(Ok(_)) => (
            QuotaServiceResponse::ServiceCall,
            QuotaServiceStateView { limits: state.limits, slot: None },
            ActionView::Invoke(state.slot.unwrap()),
        ),
        QuotaServiceResponse::ServiceCall => (resp, state, ActionView::PollHandler),
    }
}

impl QuotaServiceResponse {
    /// Resumes the interception once. A denied check fails without touching
    /// the slot; an approved one drains the slot, moves to
    /// [`QuotaServiceResponse::ServiceCall`] and hands the request out to be
    /// invoked; once the handler runs, every resumption polls it.
    pub fn poll(&mut self, state: &mut QuotaServiceState) -> (a: Action)
        requires
            old(state).wf(),
            can_poll(*old(self), old(state)@),
        ensures
            final(state).wf(),
            (*final(self), final(state)@, a@) == poll_spec(*old(self), old(state)@),
    {
        match self {
            QuotaServiceResponse::QuotaCheck(Err(e)) => Action::Fail(e.duplicate()),
            QuotaServiceResponse::QuotaCheck(Ok(_)) => {
                let req = state.req.take();
                *self = QuotaServiceResponse::ServiceCall;
                match req {
                    Some(r) => Action::Invoke(r),
                    None => Action::PollHandler,
                }
            },
            QuotaServiceResponse::ServiceCall => Action::PollHandler,
        }
    }
}

} // verus!
