//! The walk from the remote root down to the directory that holds a path.
//!
//! Every ancestor directory is resolved in turn, the root first: by the cache,
//! else by asking the remote store for an object tagged with the ancestor's
//! identifier, else by creating the directory below the ancestor before it.
//! The walk itself asks nothing and stores nothing. It says what to ask next,
//! takes the answer, and ends with the remote id of the deepest ancestor or
//! with the error that stopped it. What it decides is therefore a function of
//! the answers alone, and that function is stated here.

use crate::cache::{Lifetimes, CACHE_TTL_SECS};
use crate::identity::{unique_id, unique_id_text};
use crate::paths::texts;
use crate::pi_err::{PiSyncResult, SyncerErrors};
use crate::upload_handler::{remote_path_of, remote_text, SyncableFile};
use vstd::prelude::*;

verus! {

/// What a walk is about: the label of the remote root and the segments of the
/// path below the sync root, the last of which names the path itself.
pub struct Plan {
    pub label: Seq<char>,
    pub rest: Seq<Seq<char>>,
}

impl Plan {
    /// The number of ancestors: the root and one directory for each segment
    /// but the last.
    pub open spec fn depth(self) -> nat {
        self.rest.len()
    }

    /// The remote path of ancestor `k`; ancestor 0 is the root.
    pub open spec fn path(self, k: nat) -> Seq<char> {
        remote_text(self.label, self.rest.take(k as int))
    }

    /// The identifier of ancestor `k`.
    pub open spec fn unique_id(self, k: nat) -> Seq<char> {
        unique_id_text(self.path(k))
    }

    /// The name of ancestor `k`: its last segment, and the label for the root.
    pub open spec fn name(self, k: nat) -> Seq<char> {
        if k == 0 {
            self.label
        } else {
            self.rest[k - 1]
        }
    }
}

/// Where the resolution of the current ancestor stands.
pub enum StageView {
    /// The cache is asked first.
    AskCache,
    /// The cache had nothing: the remote store is asked.
    AskRemote,
    /// The remote store had nothing either: the directory is created.
    Make,
    /// The remote store gave an id, which is stored before the walk goes on.
    Keep(Seq<char>),
    /// The walk was stopped.
    Failed(SyncerErrors),
}

/// The state of a walk: the ancestor that is being resolved, the id of the
/// one before it, and the stage.
pub struct WalkView {
    pub index: nat,
    pub parent: Option<Seq<char>>,
    pub stage: StageView,
}

/// What a walk asks.
pub enum QuestionView {
    /// The id that the cache keeps for the identifier.
    Cached { unique_id: Seq<char> },
    /// The remote objects tagged with the identifier.
    Find { unique_id: Seq<char> },
    /// A new remote directory of that name below the parent, tagged with the
    /// identifier.
    Create { name: Seq<char>, parent: Option<Seq<char>>, unique_id: Seq<char> },
    /// The cache is to keep the id for the identifier, for so many seconds.
    Store { unique_id: Seq<char>, remote_id: Seq<char>, ttl_secs: u64 },
    /// The file at the local path is to be placed below the parent, tagged
    /// with the identifier. No walk asks this: it follows one.
    Upload { local_path: Seq<char>, parent: Option<Seq<char>>, unique_id: Seq<char> },
}

/// What a walk is told.
pub enum AnswerView {
    Cached(Option<Seq<char>>),
    Found(PiSyncResult<Seq<Seq<char>>>),
    Created(PiSyncResult<Seq<char>>),
    Stored,
    Sent(PiSyncResult<Seq<char>>),
}

/// The answer is of the kind that the question asks for.
pub open spec fn fits(q: QuestionView, a: AnswerView) -> bool {
    match q {
        QuestionView::Cached { .. } => a is Cached,
        QuestionView::Find { .. } => a is Found,
        QuestionView::Create { .. } => a is Created,
        QuestionView::Store { .. } => a is Stored,
        QuestionView::Upload { .. } => a is Sent,
    }
}

/// Of the objects that carry one identifier the last listed is taken.
pub open spec fn chosen(ids: Seq<Seq<char>>) -> Option<Seq<char>> {
    if ids.len() == 0 {
        None
    } else {
        Some(ids.last())
    }
}

/// More than one object carries the identifier.
pub open spec fn ambiguous(ids: Seq<Seq<char>>) -> bool {
    ids.len() > 1
}

impl WalkView {
    /// A walk starts at the root, with the cache.
    pub open spec fn start() -> WalkView {
        WalkView { index: 0, parent: None, stage: StageView::AskCache }
    }

    /// The walk has taken the current ancestor's id and turns to the next.
    pub open spec fn resolved(self, id: Seq<char>) -> WalkView {
        WalkView { index: self.index + 1, parent: Some(id), stage: StageView::AskCache }
    }

    /// How the walk ended, if it has: with the error that stopped it, or,
    /// past the last ancestor, with that ancestor's id.
    pub open spec fn outcome(self, plan: Plan) -> Option<PiSyncResult<Seq<char>>> {
        match self.stage {
            StageView::Failed(e) => Some(Err(e)),
            StageView::AskCache => if self.index >= plan.depth() && self.parent is Some {
                Some(Ok(self.parent->0))
            } else {
                None
            },
            _ => None,
        }
    }

    /// What the walk asks next. What it hands to the cache is to be kept for
    /// a day.
    pub open spec fn question(self, plan: Plan) -> QuestionView {
        let unique_id = plan.unique_id(self.index);
        match self.stage {
            StageView::AskRemote => QuestionView::Find { unique_id },
            StageView::Make => QuestionView::Create {
                name: plan.name(self.index),
                parent: self.parent,
                unique_id,
            },
            StageView::Keep(remote_id) => QuestionView::Store {
                unique_id,
                remote_id,
                ttl_secs: CACHE_TTL_SECS,
            },
            _ => QuestionView::Cached { unique_id },
        }
    }

    /// The state after an answer. An id from the cache resolves the ancestor
    /// at once. An id from the remote store is stored first. Where the remote
    /// store has nothing the directory is created, but never the root, whose
    /// absence stops the walk. An error from the remote store stops the walk
    /// and is its outcome.
    pub open spec fn next(self, a: AnswerView) -> WalkView {
        match (self.stage, a) {
            (StageView::AskCache, AnswerView::Cached(Some(id))) => self.resolved(id),
            (StageView::AskCache, AnswerView::Cached(None)) => WalkView {
                stage: StageView::AskRemote,
                ..self
            },
            (StageView::AskRemote, AnswerView::Found(Err(e))) => WalkView {
                stage: StageView::Failed(e),
                ..self
            },
            (StageView::AskRemote, AnswerView::Found(Ok(ids))) => match chosen(ids) {
                Some(id) => WalkView { stage: StageView::Keep(id), ..self },
                None => if self.index == 0 {
                    WalkView { stage: StageView::Failed(SyncerErrors::SyncerNoneError), ..self }
                } else {
                    WalkView { stage: StageView::Make, ..self }
                },
            },
            (StageView::Make, AnswerView::Created(Err(e))) => WalkView {
                stage: StageView::Failed(e),
                ..self
            },
            (StageView::Make, AnswerView::Created(Ok(id))) => WalkView {
                stage: StageView::Keep(id),
                ..self
            },
            (StageView::Keep(id), AnswerView::Stored) => self.resolved(id),
            _ => self,
        }
    }

    /// A bound on the number of answers that the walk still takes.
    pub open spec fn remaining(self, plan: Plan) -> nat {
        let ahead = 4 * (plan.depth() - self.index);
        match self.stage {
            StageView::Failed(_) => 0,
            StageView::AskCache => (ahead + 4) as nat,
            StageView::AskRemote => (ahead + 3) as nat,
            StageView::Make => (ahead + 2) as nat,
            StageView::Keep(_) => (ahead + 1) as nat,
        }
    }

    /// The state is one that a walk can be in.
    pub open spec fn wf(self, plan: Plan) -> bool {
        &&& plan.depth() >= 1
        &&& self.index <= plan.depth()
        &&& (self.index > 0 ==> self.parent is Some)
        &&& (self.index == plan.depth() ==> self.stage is AskCache)
        &&& (self.stage is Make ==> self.index > 0)
    }
}

/// Every answer keeps the walk in order and brings it nearer its end.
pub proof fn lemma_walk_ends(plan: Plan, w: WalkView, a: AnswerView)
    requires
        w.wf(plan),
        w.outcome(plan) is None,
        fits(w.question(plan), a),
    ensures
        w.next(a).wf(plan),
        w.next(a).remaining(plan) < w.remaining(plan),
{
}

/// A question and the answer it got.
pub struct Exchange {
    pub question: QuestionView,
    pub answer: AnswerView,
}

/// The state that a walk is in after the exchanges, if they are those of a
/// walk: each question is the one that the walk asks in the state before it,
/// and nothing follows the end.
pub open spec fn after(plan: Plan, log: Seq<Exchange>) -> Option<WalkView>
    decreases log.len(),
{
    if log.len() == 0 {
        Some(WalkView::start())
    } else {
        match after(plan, log.drop_last()) {
            Some(w) => if w.outcome(plan) is None && log.last().question == w.question(plan)
                && fits(log.last().question, log.last().answer) {
                Some(w.next(log.last().answer))
            } else {
                None
            },
            None => None,
        }
    }
}

/// The identifiers for which the store listed more than one object, in the
/// order of the exchanges.
pub open spec fn ambiguities(log: Seq<Exchange>) -> Seq<Seq<char>>
    decreases log.len(),
{
    if log.len() == 0 {
        Seq::empty()
    } else {
        let earlier = ambiguities(log.drop_last());
        match (log.last().question, log.last().answer) {
            (QuestionView::Find { unique_id }, AnswerView::Found(Ok(ids))) => if ambiguous(ids) {
                earlier.push(unique_id)
            } else {
                earlier
            },
            _ => earlier,
        }
    }
}

/// The exchange hands the id to the cache for the identifier.
pub open spec fn stores(e: Exchange, unique_id: Seq<char>, remote_id: Seq<char>) -> bool {
    &&& e.question is Store
    &&& e.question->Store_unique_id == unique_id
    &&& e.question->Store_remote_id == remote_id
}

/// Among the exchanges the cache was given the id for the identifier.
pub open spec fn stored(log: Seq<Exchange>, unique_id: Seq<char>, remote_id: Seq<char>) -> bool {
    exists|i: int| 0 <= i < log.len() && stores(#[trigger] log[i], unique_id, remote_id)
}

/// What was stored stays stored when more is exchanged.
pub proof fn lemma_stored_before(log: Seq<Exchange>, e: Exchange, k: Seq<char>, v: Seq<char>)
    requires
        stored(log, k, v),
    ensures
        stored(log.push(e), k, v),
{
    let i = choose|i: int| 0 <= i < log.len() && stores(#[trigger] log[i], k, v);
    assert(log.push(e)[i] == log[i]);
}

/// What the last exchange gave the cache was stored.
pub proof fn lemma_stored_last(log: Seq<Exchange>, e: Exchange, k: Seq<char>, v: Seq<char>)
    requires
        stores(e, k, v),
    ensures
        stored(log.push(e), k, v),
{
    assert(log.push(e)[log.len() as int] == e);
}

/// The warnings of two runs of exchanges are those of the first, then those
/// of the second.
pub proof fn lemma_ambiguities_in_two_runs(l1: Seq<Exchange>, l2: Seq<Exchange>)
    ensures
        ambiguities(l1 + l2) == ambiguities(l1) + ambiguities(l2),
    decreases l2.len(),
{
    if l2.len() == 0 {
        assert(l1 + l2 == l1);
        assert(ambiguities(l1) + ambiguities(l2) == ambiguities(l1));
    } else {
        lemma_ambiguities_in_two_runs(l1, l2.drop_last());
        assert((l1 + l2).drop_last() == l1 + l2.drop_last());
        assert((l1 + l2).last() == l2.last());
        let earlier = ambiguities(l1) + ambiguities(l2.drop_last());
        match (l2.last().question, l2.last().answer) {
            (QuestionView::Find { unique_id }, AnswerView::Found(Ok(ids))) => {
                if ambiguous(ids) {
                    assert(earlier.push(unique_id) == ambiguities(l1) + ambiguities(
                        l2.drop_last(),
                    ).push(unique_id));
                }
            },
            _ => {},
        }
    }
}

/// Exchanges that look nothing up give no warning.
pub proof fn lemma_no_lookup_no_warning(log: Seq<Exchange>)
    requires
        forall|i: int| 0 <= i < log.len() ==> !((#[trigger] log[i]).question is Find),
    ensures
        ambiguities(log) == Seq::<Seq<char>>::empty(),
    decreases log.len(),
{
    if log.len() > 0 {
        let earlier = log.drop_last();
        assert forall|i: int| 0 <= i < earlier.len() implies !((#[trigger] earlier[i]).question
            is Find) by {
            assert(earlier[i] == log[i]);
        }
        lemma_no_lookup_no_warning(earlier);
        assert(log.last() == log[log.len() - 1]);
    }
}

/// The times to live after the exchanges: what they were, with that of each
/// stored identifier put in, in order.
pub open spec fn lifetimes_after(had: Lifetimes, log: Seq<Exchange>) -> Lifetimes
    decreases log.len(),
{
    if log.len() == 0 {
        had
    } else {
        let earlier = lifetimes_after(had, log.drop_last());
        match log.last().question {
            QuestionView::Store { unique_id, ttl_secs, .. } => earlier.insert(unique_id, ttl_secs),
            _ => earlier,
        }
    }
}

/// What one exchange does to the times to live: handing a pair to the cache
/// notes the time it is to be kept, and nothing else changes them.
pub open spec fn lifetime_effect(cur: Lifetimes, e: Exchange, next: Lifetimes) -> bool {
    match e.question {
        QuestionView::Store { unique_id, ttl_secs, .. } => next == cur.insert(unique_id, ttl_secs),
        _ => next == cur,
    }
}

/// The times to live after two runs of exchanges are those after the second
/// run, begun with those after the first.
pub proof fn lemma_lifetimes_in_two_runs(had: Lifetimes, l1: Seq<Exchange>, l2: Seq<Exchange>)
    ensures
        lifetimes_after(had, l1 + l2) == lifetimes_after(lifetimes_after(had, l1), l2),
    decreases l2.len(),
{
    if l2.len() == 0 {
        assert(l1 + l2 == l1);
    } else {
        lemma_lifetimes_in_two_runs(had, l1, l2.drop_last());
        assert((l1 + l2).drop_last() == l1 + l2.drop_last());
        assert((l1 + l2).last() == l2.last());
    }
}

/// Whatever a walk hands to the cache is to be kept for a day.
pub proof fn lemma_walk_stores_for_a_day(plan: Plan, log: Seq<Exchange>)
    requires
        after(plan, log) is Some,
    ensures
        forall|i: int|
            0 <= i < log.len() && (#[trigger] log[i]).question is Store ==> log[i].question
                ->Store_ttl_secs == CACHE_TTL_SECS,
    decreases log.len(),
{
    if log.len() > 0 {
        let earlier = log.drop_last();
        lemma_walk_stores_for_a_day(plan, earlier);
        assert(log.last() == log[log.len() - 1]);
        assert forall|i: int|
            0 <= i < log.len() && (#[trigger] log[i]).question is Store implies log[i].question
            ->Store_ttl_secs == CACHE_TTL_SECS by {
            if i < earlier.len() {
                assert(earlier[i] == log[i]);
            }
        }
    }
}

/// What the cache holds: identifiers and the remote ids kept for them.
pub type Pairs = Map<Seq<char>, Seq<char>>;

/// None of the exchanges hands anything to the cache.
pub open spec fn stores_nothing(log: Seq<Exchange>) -> bool {
    forall|i: int| 0 <= i < log.len() ==> !((#[trigger] log[i]).question is Store)
}

/// What the cache holds after the exchanges if every pair that was handed to
/// it found room: what it held, with each stored pair put in, in order.
pub open spec fn kept(held: Pairs, log: Seq<Exchange>) -> Pairs
    decreases log.len(),
{
    if log.len() == 0 {
        held
    } else {
        let earlier = kept(held, log.drop_last());
        match log.last().question {
            QuestionView::Store { unique_id, remote_id, .. } => earlier.insert(
                unique_id,
                remote_id,
            ),
            _ => earlier,
        }
    }
}

/// Every pair that the exchanges handed to the cache found room: its
/// identifier was held already, or fewer pairs were held than the cache
/// keeps at most.
pub open spec fn room(held: Pairs, capacity: nat, log: Seq<Exchange>) -> bool
    decreases log.len(),
{
    if log.len() == 0 {
        true
    } else {
        let earlier = kept(held, log.drop_last());
        &&& room(held, capacity, log.drop_last())
        &&& match log.last().question {
            QuestionView::Store { unique_id, .. } => earlier.contains_key(unique_id)
                || earlier.dom().len() < capacity,
            _ => true,
        }
    }
}

/// An id that the cache answered with in exchange `i` was held for that
/// identifier at the start or handed to the cache in an exchange before.
pub open spec fn cache_answer_held(held: Pairs, log: Seq<Exchange>, i: int) -> bool {
    match (log[i].question, log[i].answer) {
        (QuestionView::Cached { unique_id }, AnswerView::Cached(Some(id))) => held.contains_pair(
            unique_id,
            id,
        ) || stored(log.take(i), unique_id, id),
        _ => true,
    }
}

/// What one exchange does to the cache. Only handing a pair to it changes
/// it: the pair is put in, and where that is one pair too many another may
/// leave. What the cache answers with it holds.
pub open spec fn exchange_effect(cur: Pairs, capacity: nat, e: Exchange, next: Pairs) -> bool {
    match e.question {
        QuestionView::Store { unique_id, remote_id, .. } => {
            &&& next.submap_of(cur.insert(unique_id, remote_id))
            &&& (cur.contains_key(unique_id) || cur.dom().len() < capacity ==> next
                == cur.insert(unique_id, remote_id))
        },
        QuestionView::Cached { unique_id } => {
            &&& next == cur
            &&& (e.answer matches AnswerView::Cached(Some(id)) ==> cur.contains_pair(
                unique_id,
                id,
            ))
        },
        _ => next == cur,
    }
}

/// How the cache after the exchanges relates to the cache before them.
/// Whatever it holds was held before or handed to it. If every pair found
/// room, it holds what was held with the stored pairs put in, no more and no
/// less; so if nothing was stored, it is as it was. And every id that it
/// answered with came from what it held.
pub open spec fn cache_follows(held: Pairs, capacity: nat, log: Seq<Exchange>, now: Pairs) -> bool {
    &&& forall|k: Seq<char>, v: Seq<char>| #[trigger]
        now.contains_pair(k, v) ==> held.contains_pair(k, v) || stored(log, k, v)
    &&& (room(held, capacity, log) ==> now == kept(held, log))
    &&& (stores_nothing(log) ==> now == held)
    &&& forall|i: int| 0 <= i < log.len() ==> #[trigger] cache_answer_held(held, log, i)
}

/// Before anything is exchanged the cache is as it is.
pub proof fn lemma_follows_start(held: Pairs, capacity: nat)
    ensures
        cache_follows(held, capacity, Seq::empty(), held),
{
}

/// One more exchange keeps the relation.
pub proof fn lemma_follows_step(
    held: Pairs,
    capacity: nat,
    log: Seq<Exchange>,
    cur: Pairs,
    e: Exchange,
    next: Pairs,
)
    requires
        cache_follows(held, capacity, log, cur),
        exchange_effect(cur, capacity, e, next),
    ensures
        cache_follows(held, capacity, log.push(e), next),
{
    let longer = log.push(e);
    assert(longer.drop_last() == log);
    assert(longer.last() == e);
    assert forall|k: Seq<char>, v: Seq<char>| #[trigger] next.contains_pair(k, v) implies (
    held.contains_pair(k, v) || stored(longer, k, v)) by {
        if cur.contains_pair(k, v) {
            if !held.contains_pair(k, v) {
                lemma_stored_before(log, e, k, v);
            }
        } else {
            assert(e.question is Store);
            assert(cur.insert(e.question->Store_unique_id, e.question->Store_remote_id).contains_pair(
                k,
                v,
            ));
            lemma_stored_last(log, e, k, v);
        }
    }
    if stores_nothing(longer) {
        assert(!(longer[log.len() as int].question is Store));
        assert forall|i: int| 0 <= i < log.len() implies !((#[trigger] log[i]).question is Store) by {
            assert(longer[i] == log[i]);
        }
    }
    assert forall|i: int| 0 <= i < longer.len() implies #[trigger] cache_answer_held(
        held,
        longer,
        i,
    ) by {
        if i < log.len() {
            assert(longer[i] == log[i]);
            assert(longer.take(i) == log.take(i));
            assert(cache_answer_held(held, log, i));
        } else {
            assert(longer.take(i) == log);
            if e.question is Cached && e.answer matches AnswerView::Cached(Some(id)) {
                let u = e.question->Cached_unique_id;
                let id = e.answer->Cached_0->0;
                assert(cur.contains_pair(u, id));
            }
        }
    }
}

/// What was stored among the first exchanges was stored among all.
pub proof fn lemma_stored_left(l1: Seq<Exchange>, l2: Seq<Exchange>, k: Seq<char>, v: Seq<char>)
    requires
        stored(l1, k, v),
    ensures
        stored(l1 + l2, k, v),
{
    let i = choose|i: int| 0 <= i < l1.len() && stores(#[trigger] l1[i], k, v);
    assert((l1 + l2)[i] == l1[i]);
}

/// What was stored among the later exchanges was stored among all.
pub proof fn lemma_stored_right(l1: Seq<Exchange>, l2: Seq<Exchange>, k: Seq<char>, v: Seq<char>)
    requires
        stored(l2, k, v),
    ensures
        stored(l1 + l2, k, v),
{
    let i = choose|i: int| 0 <= i < l2.len() && stores(#[trigger] l2[i], k, v);
    assert((l1 + l2)[l1.len() + i] == l2[i]);
}

/// Storing in two runs is storing in one, and there is room in the one
/// exactly when there is room in each.
pub proof fn lemma_kept_in_two_runs(held: Pairs, capacity: nat, l1: Seq<Exchange>, l2: Seq<Exchange>)
    ensures
        kept(held, l1 + l2) == kept(kept(held, l1), l2),
        room(held, capacity, l1 + l2) == (room(held, capacity, l1) && room(
            kept(held, l1),
            capacity,
            l2,
        )),
    decreases l2.len(),
{
    if l2.len() == 0 {
        assert(l1 + l2 == l1);
    } else {
        lemma_kept_in_two_runs(held, capacity, l1, l2.drop_last());
        assert((l1 + l2).drop_last() == l1 + l2.drop_last());
        assert((l1 + l2).last() == l2.last());
    }
}

/// The relation holds of two runs of exchanges, one after the other, if it
/// holds of each.
pub proof fn lemma_follows_in_two_runs(
    held: Pairs,
    capacity: nat,
    l1: Seq<Exchange>,
    mid: Pairs,
    l2: Seq<Exchange>,
    now: Pairs,
)
    requires
        cache_follows(held, capacity, l1, mid),
        cache_follows(mid, capacity, l2, now),
    ensures
        cache_follows(held, capacity, l1 + l2, now),
{
    let all = l1 + l2;
    lemma_kept_in_two_runs(held, capacity, l1, l2);
    assert forall|k: Seq<char>, v: Seq<char>| #[trigger] now.contains_pair(k, v) implies (
    held.contains_pair(k, v) || stored(all, k, v)) by {
        if stored(l2, k, v) {
            lemma_stored_right(l1, l2, k, v);
        } else {
            assert(mid.contains_pair(k, v));
            if !held.contains_pair(k, v) {
                lemma_stored_left(l1, l2, k, v);
            }
        }
    }
    if stores_nothing(all) {
        assert forall|i: int| 0 <= i < l1.len() implies !((#[trigger] l1[i]).question is Store) by {
            assert(all[i] == l1[i]);
        }
        assert forall|i: int| 0 <= i < l2.len() implies !((#[trigger] l2[i]).question is Store) by {
            assert(all[l1.len() + i] == l2[i]);
        }
    }
    assert forall|i: int| 0 <= i < all.len() implies #[trigger] cache_answer_held(held, all, i) by {
        if i < l1.len() {
            assert(all[i] == l1[i]);
            assert(all.take(i) == l1.take(i));
            assert(cache_answer_held(held, l1, i));
        } else {
            let j = i - l1.len();
            assert(all[i] == l2[j]);
            assert(all.take(i) == l1 + l2.take(j));
            assert(cache_answer_held(mid, l2, j));
            if l2[j].question is Cached && l2[j].answer matches AnswerView::Cached(Some(id)) {
                let u = l2[j].question->Cached_unique_id;
                let id = l2[j].answer->Cached_0->0;
                if stored(l2.take(j), u, id) {
                    lemma_stored_right(l1, l2.take(j), u, id);
                } else {
                    assert(mid.contains_pair(u, id));
                    if !held.contains_pair(u, id) {
                        lemma_stored_left(l1, l2.take(j), u, id);
                    }
                }
            }
        }
    }
}

/// There is room for every pair that the exchanges hand to the cache where
/// the cache holds so few pairs that as many more as there are exchanges
/// still fit.
pub proof fn lemma_room_for_few(held: Pairs, capacity: nat, log: Seq<Exchange>)
    requires
        held.dom().finite(),
        held.dom().len() + log.len() <= capacity,
    ensures
        room(held, capacity, log),
        kept(held, log).dom().finite(),
        kept(held, log).dom().len() <= held.dom().len() + log.len(),
    decreases log.len(),
{
    if log.len() > 0 {
        lemma_room_for_few(held, capacity, log.drop_last());
    }
}

/// A pair that was held stays, where there is room, unless its identifier
/// is stored anew.
pub proof fn lemma_kept_keeps(held: Pairs, log: Seq<Exchange>, k: Seq<char>, v: Seq<char>)
    requires
        held.contains_pair(k, v),
        forall|i: int|
            0 <= i < log.len() && (#[trigger] log[i]).question is Store ==> log[i].question
                ->Store_unique_id != k,
    ensures
        kept(held, log).contains_pair(k, v),
    decreases log.len(),
{
    if log.len() > 0 {
        let earlier = log.drop_last();
        assert forall|i: int|
            0 <= i < earlier.len() && (#[trigger] earlier[i]).question is Store implies earlier[i].question
            ->Store_unique_id != k by {
            assert(earlier[i] == log[i]);
        }
        lemma_kept_keeps(held, earlier, k, v);
        assert(log.last() == log[log.len() - 1]);
    }
}

/// A pair that was stored stays, where there is room, unless its identifier
/// is stored anew later.
pub proof fn lemma_kept_has_stored(held: Pairs, log: Seq<Exchange>, at: int)
    requires
        0 <= at < log.len(),
        log[at].question is Store,
        forall|i: int|
            at < i < log.len() && (#[trigger] log[i]).question is Store ==> log[i].question
                ->Store_unique_id != log[at].question->Store_unique_id,
    ensures
        kept(held, log).contains_pair(
            log[at].question->Store_unique_id,
            log[at].question->Store_remote_id,
        ),
    decreases log.len(),
{
    let earlier = log.drop_last();
    assert(log.last() == log[log.len() - 1]);
    if at < log.len() - 1 {
        assert(earlier[at] == log[at]);
        assert forall|i: int|
            at < i < earlier.len() && (#[trigger] earlier[i]).question is Store implies earlier[i].question
            ->Store_unique_id != earlier[at].question->Store_unique_id by {
            assert(earlier[i] == log[i]);
        }
        lemma_kept_has_stored(held, earlier, at);
    }
}

/// The text of a result.
pub open spec fn res_text(r: PiSyncResult<String>) -> PiSyncResult<Seq<char>> {
    match r {
        Ok(s) => Ok(s@),
        Err(e) => Err(e),
    }
}

/// The exchanges of a walk leave it in a state that a walk can be in.
pub proof fn lemma_after_wf(plan: Plan, log: Seq<Exchange>)
    requires
        plan.depth() >= 1,
        after(plan, log) is Some,
    ensures
        after(plan, log)->0.wf(plan),
    decreases log.len(),
{
    if log.len() > 0 {
        lemma_after_wf(plan, log.drop_last());
        lemma_walk_ends(plan, after(plan, log.drop_last())->0, log.last().answer);
    }
}

/// The number of directories that the exchanges asked for while the walk
/// stood at ancestor `k`.
pub open spec fn created_at(plan: Plan, log: Seq<Exchange>, k: nat) -> nat
    decreases log.len(),
{
    if log.len() == 0 {
        0
    } else {
        let earlier = created_at(plan, log.drop_last(), k);
        if log.last().question is Create && after(plan, log.drop_last()) is Some && after(
            plan,
            log.drop_last(),
        )->0.index == k {
            earlier + 1
        } else {
            earlier
        }
    }
}

/// A walk asks at most once for each ancestor to be created, and never for
/// the root. Nothing was asked yet for the ancestors ahead, nor for the
/// current one before the store has answered for it.
pub proof fn lemma_created_at_most_once(plan: Plan, log: Seq<Exchange>, k: nat)
    requires
        plan.depth() >= 1,
        after(plan, log) is Some,
    ensures
        created_at(plan, log, k) <= 1,
        k == 0 ==> created_at(plan, log, k) == 0,
        k > after(plan, log)->0.index ==> created_at(plan, log, k) == 0,
        k == after(plan, log)->0.index && !(after(plan, log)->0.stage is Keep) && !(after(
            plan,
            log,
        )->0.stage is Failed) ==> created_at(plan, log, k) == 0,
    decreases log.len(),
{
    if log.len() > 0 {
        let earlier = log.drop_last();
        lemma_created_at_most_once(plan, earlier, k);
        lemma_after_wf(plan, earlier);
    }
}

/// While the cache has an id for every ancestor, the walk asks the store
/// nothing: every question goes to the cache.
pub proof fn lemma_cache_hits_ask_nothing(plan: Plan, log: Seq<Exchange>)
    requires
        after(plan, log) is Some,
        forall|i: int| 0 <= i < log.len() ==> (#[trigger] log[i]).answer != AnswerView::Cached(None),
    ensures
        forall|i: int| 0 <= i < log.len() ==> (#[trigger] log[i]).question is Cached,
        after(plan, log)->0.stage is AskCache,
    decreases log.len(),
{
    if log.len() > 0 {
        let earlier = log.drop_last();
        assert forall|i: int| 0 <= i < earlier.len() implies (#[trigger] earlier[i]).answer
            != AnswerView::Cached(None) by {
            assert(earlier[i] == log[i]);
        }
        lemma_cache_hits_ask_nothing(plan, earlier);
        assert(log.last() == log[log.len() - 1]);
        assert forall|i: int| 0 <= i < log.len() implies (#[trigger] log[i]).question is Cached by {
            if i < earlier.len() {
                assert(earlier[i] == log[i]);
            }
        }
    }
}

/// The exchanges are those of a whole walk that ended in `result`.
pub open spec fn walked(plan: Plan, log: Seq<Exchange>, result: PiSyncResult<Seq<char>>) -> bool {
    after(plan, log) matches Some(w) && w.outcome(plan) == Some(result)
}

/// The text of a string that may be missing.
pub open spec fn opt_text(o: Option<String>) -> Option<Seq<char>> {
    match o {
        Some(s) => Some(s@),
        None => None,
    }
}

/// The plan of the walk that leads to the directory holding the file.
pub open spec fn plan_of(file: &SyncableFile) -> Plan {
    Plan { label: file.drive_root_text(), rest: file.rest() }
}

/// A question as the one who answers it gets it.
pub enum Question {
    Cached { unique_id: String },
    Find { unique_id: String },
    Create { name: String, parent: Option<String>, unique_id: String },
    Store { unique_id: String, remote_id: String, ttl_secs: u64 },
}

impl View for Question {
    type V = QuestionView;

    open spec fn view(&self) -> QuestionView {
        match self {
            Question::Cached { unique_id } => QuestionView::Cached { unique_id: unique_id@ },
            Question::Find { unique_id } => QuestionView::Find { unique_id: unique_id@ },
            Question::Create { name, parent, unique_id } => QuestionView::Create {
                name: name@,
                parent: opt_text(*parent),
                unique_id: unique_id@,
            },
            Question::Store { unique_id, remote_id, ttl_secs } => QuestionView::Store {
                unique_id: unique_id@,
                remote_id: remote_id@,
                ttl_secs: *ttl_secs,
            },
        }
    }
}

/// An answer as the walk gets it.
pub enum Answer {
    Cached(Option<String>),
    Found(PiSyncResult<Vec<String>>),
    Created(PiSyncResult<String>),
    Stored,
}

impl View for Answer {
    type V = AnswerView;

    open spec fn view(&self) -> AnswerView {
        match self {
            Answer::Cached(id) => AnswerView::Cached(opt_text(*id)),
            Answer::Found(Ok(ids)) => AnswerView::Found(Ok(texts(ids@))),
            Answer::Found(Err(e)) => AnswerView::Found(Err(*e)),
            Answer::Created(Ok(id)) => AnswerView::Created(Ok(id@)),
            Answer::Created(Err(e)) => AnswerView::Created(Err(*e)),
            Answer::Stored => AnswerView::Stored,
        }
    }
}

impl Answer {
    /// Tells whether the remote store listed more than one object for one
    /// identifier, which is worth a warning and nothing more.
    pub fn is_ambiguous(&self) -> (r: bool)
        ensures
            r == (self@ matches AnswerView::Found(Ok(ids)) && ambiguous(ids)),
    {
        match self {
            Answer::Found(Ok(ids)) => ids.len() > 1,
            _ => false,
        }
    }
}

enum Stage {
    AskCache,
    AskRemote,
    Make,
    Keep(String),
    Failed(SyncerErrors),
}

impl View for Stage {
    type V = StageView;

    closed spec fn view(&self) -> StageView {
        match self {
            Stage::AskCache => StageView::AskCache,
            Stage::AskRemote => StageView::AskRemote,
            Stage::Make => StageView::Make,
            Stage::Keep(id) => StageView::Keep(id@),
            Stage::Failed(e) => StageView::Failed(*e),
        }
    }
}

/// A walk in progress.
pub struct PathWalk {
    label: String,
    rest: Vec<String>,
    index: usize,
    parent: Option<String>,
    stage: Stage,
    current: String,
}

impl View for PathWalk {
    type V = WalkView;

    closed spec fn view(&self) -> WalkView {
        WalkView { index: self.index as nat, parent: opt_text(self.parent), stage: self.stage@ }
    }
}

impl PathWalk {
    /// What the walk is about.
    pub closed spec fn plan(&self) -> Plan {
        Plan { label: self.label@, rest: texts(self.rest@) }
    }

    /// The walk is in a state that it can be in, and holds the identifier of
    /// the ancestor that it is resolving.
    pub closed spec fn wf(&self) -> bool {
        &&& self@.wf(self.plan())
        &&& self.index < self.rest.len() ==> self.current@ == self.plan().unique_id(
            self.index as nat,
        )
    }

    /// What holds of the state of a walk.
    pub proof fn lemma_wf(&self)
        requires
            self.wf(),
        ensures
            self@.wf(self.plan()),
    {
    }

    /// Starts the walk for a file. A path outside the sync root has no
    /// directory to walk to, and neither has the sync root itself: each has
    /// its own error.
    pub fn begin(file: &SyncableFile) -> (r: PiSyncResult<PathWalk>)
        ensures
            match r {
                Ok(w) => {
                    &&& file.below_root()
                    &&& w.wf()
                    &&& w.plan() == plan_of(file)
                    &&& w@ == WalkView::start()
                },
                Err(e) => !file.below_root() && e == file.no_parent_error(),
            },
    {
        let rest = file.segments_below_root()?;
        if rest.len() == 0 {
            return Err(SyncerErrors::InvalidPathError);
        }
        let label = file.drive_root().to_owned();
        let root = remote_path_of(label.as_str(), &rest, 0);
        let current = unique_id(root.as_str());
        Ok(PathWalk { label, rest, index: 0, parent: None, stage: Stage::AskCache, current })
    }

    /// How the walk ended, if it has.
    pub fn outcome(&self) -> (r: Option<PiSyncResult<String>>)
        requires
            self.wf(),
        ensures
            match r {
                Some(Ok(id)) => self@.outcome(self.plan()) == Some(
                    Ok::<Seq<char>, SyncerErrors>(id@),
                ),
                Some(Err(e)) => self@.outcome(self.plan()) == Some(
                    Err::<Seq<char>, SyncerErrors>(e),
                ),
                None => self@.outcome(self.plan()) is None,
            },
    {
        match &self.stage {
            Stage::Failed(e) => Some(Err(*e)),
            Stage::AskCache => {
                if self.index >= self.rest.len() {
                    match &self.parent {
                        Some(id) => Some(Ok(id.clone())),
                        None => None,
                    }
                } else {
                    None
                }
            },
            _ => None,
        }
    }

    /// What the walk asks next.
    pub fn question(&self) -> (r: Question)
        requires
            self.wf(),
            self@.outcome(self.plan()) is None,
        ensures
            r@ == self@.question(self.plan()),
    {
        let unique_id = self.current.clone();
        match &self.stage {
            Stage::AskRemote => Question::Find { unique_id },
            Stage::Make => {
                let name = if self.index == 0 {
                    self.label.clone()
                } else {
                    self.rest[self.index - 1].clone()
                };
                Question::Create { name, parent: self.parent.clone(), unique_id }
            },
            Stage::Keep(id) => Question::Store {
                unique_id,
                remote_id: id.clone(),
                ttl_secs: CACHE_TTL_SECS,
            },
            _ => Question::Cached { unique_id },
        }
    }

    /// Takes the answer to the question that the walk asked.
    pub fn advance(&mut self, answer: Answer)
        requires
            old(self).wf(),
            old(self)@.outcome(old(self).plan()) is None,
            fits(old(self)@.question(old(self).plan()), answer@),
        ensures
            final(self).wf(),
            final(self).plan() == old(self).plan(),
            final(self)@ == old(self)@.next(answer@),
    {
        match answer {
            Answer::Cached(Some(id)) => {
                self.turn_to_next(id);
            },
            Answer::Cached(None) => {
                self.stage = Stage::AskRemote;
            },
            Answer::Found(Err(e)) => {
                self.stage = Stage::Failed(e);
            },
            Answer::Found(Ok(ids)) => {
                if ids.len() > 0 {
                    self.stage = Stage::Keep(ids[ids.len() - 1].clone());
                } else if self.index == 0 {
                    self.stage = Stage::Failed(SyncerErrors::SyncerNoneError);
                } else {
                    self.stage = Stage::Make;
                }
            },
            Answer::Created(Err(e)) => {
                self.stage = Stage::Failed(e);
            },
            Answer::Created(Ok(id)) => {
                self.stage = Stage::Keep(id);
            },
            Answer::Stored => {
                let id = match &self.stage {
                    Stage::Keep(id) => id.clone(),
                    _ => String::new(),
                };
                self.turn_to_next(id);
            },
        }
    }

    fn turn_to_next(&mut self, id: String)
        requires
            old(self).wf(),
            old(self).index < old(self).rest.len(),
        ensures
            final(self).wf(),
            final(self).plan() == old(self).plan(),
            final(self)@ == old(self)@.resolved(id@),
    {
        self.index = self.index + 1;
        self.parent = Some(id);
        self.stage = Stage::AskCache;
        if self.index < self.rest.len() {
            let path = remote_path_of(self.label.as_str(), &self.rest, self.index);
            self.current = unique_id(path.as_str());
        }
    }
}

} // verus!
