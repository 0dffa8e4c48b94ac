//! The client that mirrors local paths onto a remote store.
//!
//! The store itself is reached through `RemoteDirectory`, which a provider
//! implements. The client holds the inclusion rules and the cache, walks the
//! ancestors of a path before a file is placed, and keeps a record of every
//! question it put to the cache and to the store, with the answer. The
//! contracts of its methods say what that record holds after a call.

use crate::cache::{
    no_lifetimes, IdentityCache, Lifetimes, CACHE_CAPACITY, CACHE_TTL_SECS, MAX_TTL_SECS,
};
use crate::filter::{passes, passes_rules};
use crate::identity::unique_id_text;
use crate::paths::texts;
use crate::pi_err::{PiSyncResult, SyncerErrors};
use crate::upload_handler::{
    below, file_name_text, is_under, lemma_root_in_itself, remote_text, FileOperations,
    SyncableFile, DRIVE_ROOT_FOLDER, LOCAL_ROOT_FOLDER,
};
use crate::walk::{
    after, ambiguities, ambiguous, cache_follows, chosen, exchange_effect, fits,
    lemma_ambiguities_in_two_runs, lemma_follows_in_two_runs, lemma_follows_start,
    lemma_follows_step, lemma_lifetimes_in_two_runs, lemma_no_lookup_no_warning, lemma_walk_ends,
    lifetime_effect, lifetimes_after, opt_text, plan_of, res_text, walked, Answer, AnswerView,
    Exchange, PathWalk, Plan, Question, QuestionView,
};
use vstd::prelude::*;

verus! {

/// The key under which a remote object carries its identifier.
pub const PI_DRIVE_SYNC_PROPS_KEY: &'static str = "pi_sync_id";

/// The type that marks a remote object as a directory.
pub const FOLDER_MIME_TYPE: &'static str = "application/vnd.google-apps.folder";

/// The type under which the content of a file is sent.
pub const UPLOAD_MIME_TYPE: &'static str = "application/octet-stream";

/// The properties that tag a remote object with an identifier: one pair, the
/// key of the syncer and the identifier.
pub fn app_props(id: &str) -> (r: Vec<(String, String)>)
    ensures
        r.len() == 1,
        r[0].0@ == PI_DRIVE_SYNC_PROPS_KEY@,
        r[0].1@ == id@,
{
    let mut props: Vec<(String, String)> = Vec::new();
    props.push((PI_DRIVE_SYNC_PROPS_KEY.to_owned(), id.to_owned()));
    props
}

/// What a storage provider does for the client. Nothing is promised of the
/// answers: the store is shared with others and may fail.
pub trait RemoteDirectory {
    /// The ids of the objects that carry the identifier and are not trashed.
    fn find_by_identity(&self, unique_id: &str) -> PiSyncResult<Vec<String>>;

    /// Creates a directory below the parent, tagged with the identifier, and
    /// gives its id.
    fn create_directory(&self, name: &str, parent: Option<&str>, unique_id: &str) -> PiSyncResult<
        String,
    >;

    /// Places the file at the local path below the parent, tagged with the
    /// identifier, and gives its id.
    fn upload_file(&self, local_path: &str, parent: Option<&str>, unique_id: &str) -> PiSyncResult<
        String,
    >;
}

/// What the client does for its user.
pub trait CloudClient {
    /// Places a local file remotely, below the directory that holds it.
    fn upload_file(&mut self, local_fs_path: &str) -> PiSyncResult<Option<String>>;

    /// Creates the remote directory of a local path below the given parent.
    fn create_dir(&mut self, local_fs_path: &str, parent_id: Option<&str>) -> PiSyncResult<
        Option<String>,
    >;

    /// The remote id of a local path, if the store has an object for it.
    fn id(&mut self, local_path: &str) -> PiSyncResult<Option<String>>;

    /// The properties that tag a remote object with an identifier.
    fn app_props_map(&self, id: &str) -> Option<Vec<(String, String)>>;

    /// Whether the name of the path passes the inclusion rules.
    fn passes_filter(&self, local_fs_path: &str) -> bool;
}

/// The text of what a call of the client gives.
pub open spec fn given_text(r: PiSyncResult<Option<String>>) -> PiSyncResult<Option<Seq<char>>> {
    match r {
        Ok(o) => Ok(opt_text(o)),
        Err(e) => Err(e),
    }
}

/// What a lookup gives for what the store listed.
pub open spec fn lookup_result(found: PiSyncResult<Seq<Seq<char>>>) -> PiSyncResult<
    Option<Seq<char>>,
> {
    match found {
        Ok(ids) => Ok(chosen(ids)),
        Err(e) => Err(e),
    }
}

/// What a call gives for the id or error that the store gave.
pub open spec fn remote_result(got: PiSyncResult<Seq<char>>) -> PiSyncResult<Option<Seq<char>>> {
    match got {
        Ok(id) => Ok(Some(id)),
        Err(e) => Err(e),
    }
}

/// The exchanges are those of placing a file: a walk to the directory that
/// holds it, and, if the walk got there, the upload below that directory.
/// The result is the error that stopped the walk, or what the upload gave.
pub open spec fn transferred(
    plan: Plan,
    local_path: Seq<char>,
    unique_id: Seq<char>,
    log: Seq<Exchange>,
    result: PiSyncResult<Option<Seq<char>>>,
) -> bool {
    ||| result matches Err(e) && walked(plan, log, Err(e))
    ||| {
        &&& log.len() > 0
        &&& log.last().question matches QuestionView::Upload {
            local_path: p,
            parent: Some(parent),
            unique_id: u,
        }
        &&& p == local_path
        &&& u == unique_id
        &&& walked(plan, log.drop_last(), Ok(parent))
        &&& log.last().answer matches AnswerView::Sent(sent)
        &&& result == remote_result(sent)
    }
}

/// The exchanges are those of creating one directory: the request, and, if
/// the store gave an id, handing it to the cache to be kept for a day.
pub open spec fn directory_made(
    name: Seq<char>,
    parent: Option<Seq<char>>,
    unique_id: Seq<char>,
    log: Seq<Exchange>,
    result: PiSyncResult<Option<Seq<char>>>,
) -> bool {
    &&& log.len() > 0
    &&& log[0].question == (QuestionView::Create { name, parent, unique_id })
    &&& log[0].answer matches AnswerView::Created(made)
    &&& result == remote_result(made)
    &&& match made {
        Ok(id) => log == seq![
            log[0],
            Exchange {
                question: QuestionView::Store {
                    unique_id,
                    remote_id: id,
                    ttl_secs: CACHE_TTL_SECS,
                },
                answer: AnswerView::Stored,
            },
        ],
        Err(_) => log == seq![log[0]],
    }
}

/// The exchanges are those of one lookup, and the result is what it gave.
pub open spec fn looked_up(
    unique_id: Seq<char>,
    log: Seq<Exchange>,
    result: PiSyncResult<Option<Seq<char>>>,
) -> bool {
    &&& log.len() == 1
    &&& log[0].question == (QuestionView::Find { unique_id })
    &&& log[0].answer matches AnswerView::Found(found)
    &&& result == lookup_result(found)
}

/// The exchanges are those of making sure that the remote root is there:
/// one lookup, and, if the store listed nothing, creating the root below
/// nothing.
pub open spec fn root_ensured(
    label: Seq<char>,
    unique_id: Seq<char>,
    log: Seq<Exchange>,
    result: PiSyncResult<Option<Seq<char>>>,
) -> bool {
    &&& log.len() > 0
    &&& log[0].question == (QuestionView::Find { unique_id })
    &&& log[0].answer matches AnswerView::Found(found)
    &&& match found {
        Ok(ids) => if ids.len() > 0 {
            log.len() == 1 && result == Ok::<Option<Seq<char>>, SyncerErrors>(chosen(ids))
        } else {
            directory_made(label, None, unique_id, log.skip(1), result)
        },
        Err(e) => log.len() == 1 && result == Err::<Option<Seq<char>>, SyncerErrors>(e),
    }
}

/// A lookup that found nothing, followed by the making of the root, is the
/// root made sure of; the making adds no warning.
pub proof fn lemma_root_made(
    label: Seq<char>,
    unique_id: Seq<char>,
    l1: Seq<Exchange>,
    l2: Seq<Exchange>,
    result: PiSyncResult<Option<Seq<char>>>,
)
    requires
        looked_up(unique_id, l1, Ok(None)),
        directory_made(label, None, unique_id, l2, result),
    ensures
        root_ensured(label, unique_id, l1 + l2, result),
        ambiguities(l1 + l2) == ambiguities(l1),
        (l1 + l2).len() > 1,
{
    assert((l1 + l2).skip(1) =~= l2);
    assert((l1 + l2)[0] == l1[0]);
    lemma_ambiguities_in_two_runs(l1, l2);
    assert forall|i: int| 0 <= i < l2.len() implies !((#[trigger] l2[i]).question is Find) by {
        if i > 0 {
            assert(l2.len() == 2);
        }
    }
    lemma_no_lookup_no_warning(l2);
    assert(ambiguities(l1) + ambiguities(l2) =~= ambiguities(l1));
}

/// The query that finds the objects tagged with an identifier and not
/// trashed, in the words of the provider.
pub open spec fn identity_query_text(unique_id: Seq<char>) -> Seq<char> {
    "appProperties has  { key='"@ + PI_DRIVE_SYNC_PROPS_KEY@ + "' and value='"@ + unique_id
        + "' } and trashed = false"@
}

/// Writes the query for an identifier.
pub fn identity_query(unique_id: &str) -> (r: String)
    ensures
        r@ == identity_query_text(unique_id@),
{
    let mut q = "appProperties has  { key='".to_owned();
    q.append(PI_DRIVE_SYNC_PROPS_KEY);
    q.append("' and value='");
    q.append(unique_id);
    q.append("' } and trashed = false");
    q
}

/// The client of a storage provider.
pub struct Drive3Client<H: RemoteDirectory> {
    hub: PiSyncResult<H>,
    filters: Vec<String>,
    cache: IdentityCache,
    local_root: String,
    drive_root: String,
    warnings: Vec<String>,
    record: Ghost<Seq<Exchange>>,
}

/// Borrows the text of a string that may be missing.
pub fn as_text(o: &Option<String>) -> (r: Option<&str>)
    ensures
        match r {
            Some(s) => *o matches Some(t) && t@ == s@,
            None => *o is None,
        },
{
    match o {
        Some(s) => Some(s.as_str()),
        None => None,
    }
}

impl<H: RemoteDirectory> Drive3Client<H> {
    /// Every question that was put to the cache or to the store since the
    /// client was made, with its answer, in order.
    pub closed spec fn record(&self) -> Seq<Exchange> {
        self.record@
    }

    /// The identifiers for which the store listed more than one object.
    pub closed spec fn warnings(&self) -> Seq<Seq<char>> {
        texts(self.warnings@)
    }

    /// What the cache keeps.
    pub closed spec fn cached(&self) -> Map<Seq<char>, Seq<char>> {
        self.cache.entries()
    }

    /// The time to live that each identifier was last handed to the cache
    /// with.
    pub closed spec fn lifetimes(&self) -> Lifetimes {
        self.cache.lifetimes()
    }

    /// How much the cache keeps at most.
    pub closed spec fn cache_capacity(&self) -> nat {
        self.cache.capacity()
    }

    /// The inclusion rules.
    pub closed spec fn rules(&self) -> Seq<Seq<char>> {
        texts(self.filters@)
    }

    /// The local directory that is mirrored.
    pub closed spec fn local_root_text(&self) -> Seq<char> {
        self.local_root@
    }

    /// The label of the remote root.
    pub closed spec fn drive_root_text(&self) -> Seq<char> {
        self.drive_root@
    }

    /// The client has a provider to talk to.
    pub closed spec fn has_hub(&self) -> bool {
        self.hub is Ok
    }

    /// Two states of a client have the same provider or none, the same
    /// rules, the same roots and the same room in the cache.
    pub open spec fn same_setup(&self, other: &Self) -> bool {
        &&& self.has_hub() == other.has_hub()
        &&& self.rules() == other.rules()
        &&& self.local_root_text() == other.local_root_text()
        &&& self.drive_root_text() == other.drive_root_text()
        &&& self.cache_capacity() == other.cache_capacity()
    }

    /// What was exchanged since an earlier state.
    pub open spec fn since(&self, before: &Self) -> Seq<Exchange> {
        self.record().skip(before.record().len() as int)
    }

    /// The record of an earlier state begins the record of this one.
    pub open spec fn extends(&self, before: &Self) -> bool {
        before.record().is_prefix_of(self.record())
    }

    /// The path lies in the sync root of this client.
    pub open spec fn covers(&self, path: Seq<char>) -> bool {
        is_under(path, self.local_root_text())
    }

    /// Why a path that is not strictly below the sync root is refused: it is
    /// the sync root itself, or it lies outside.
    pub open spec fn refusal(&self, path: Seq<char>) -> SyncerErrors {
        if self.covers(path) {
            SyncerErrors::InvalidPathError
        } else {
            SyncerErrors::NotUnderRoot
        }
    }

    /// The plan of the walk to the directory that holds the path.
    pub open spec fn plan(&self, path: Seq<char>) -> Plan {
        Plan { label: self.drive_root_text(), rest: below(path, self.local_root_text()) }
    }

    /// The identifier of the path.
    pub open spec fn identifier(&self, path: Seq<char>) -> Seq<char> {
        unique_id_text(remote_text(self.drive_root_text(), below(path, self.local_root_text())))
    }

    /// The name of the remote directory of the path: its last segment, and
    /// the label of the remote root for the sync root itself.
    pub open spec fn dir_name(&self, path: Seq<char>) -> Seq<char> {
        let rest = below(path, self.local_root_text());
        if rest.len() > 0 {
            rest.last()
        } else {
            self.drive_root_text()
        }
    }

    /// How the cache of this state relates to the cache of an earlier state,
    /// given what was exchanged since, and that every identifier handed to it
    /// since has the time to live it was handed over with.
    pub open spec fn cache_follows(&self, before: &Self) -> bool {
        &&& cache_follows(
            before.cached(),
            before.cache_capacity(),
            self.since(before),
            self.cached(),
        )
        &&& self.lifetimes() == lifetimes_after(before.lifetimes(), self.since(before))
    }

    /// A record that grew by some exchanges begins with what it was, and
    /// those exchanges are what came since.
    pub proof fn lemma_grown(&self, before: &Self, added: Seq<Exchange>)
        requires
            self.record() == before.record() + added,
        ensures
            self.since(before) == added,
            self.extends(before),
    {
        assert(self.record().skip(before.record().len() as int) =~= added);
        assert(before.record() =~= self.record().subrange(0, before.record().len() as int));
    }

    /// A record that begins with an earlier one is that one, then what came
    /// since.
    pub proof fn lemma_record_split(&self, before: &Self)
        requires
            self.extends(before),
        ensures
            self.record() == before.record() + self.since(before),
    {
        assert(self.record() =~= before.record() + self.since(before));
    }

    /// A client for the default roots, with the rules as they are given.
    pub fn new(hub: PiSyncResult<H>, filters: Vec<&str>) -> (r: Self)
        ensures
            r.record() == Seq::<Exchange>::empty(),
            r.warnings() == Seq::<Seq<char>>::empty(),
            r.cached() == crate::cache::no_entries(),
            r.lifetimes() == no_lifetimes(),
            r.cache_capacity() == CACHE_CAPACITY,
            r.has_hub() == (hub is Ok),
            r.local_root_text() == LOCAL_ROOT_FOLDER@,
            r.drive_root_text() == DRIVE_ROOT_FOLDER@,
            r.rules().len() == filters.len(),
            forall|i: int| 0 <= i < filters.len() ==> r.rules()[i] == filters[i]@,
    {
        Self::with_roots(hub, filters, LOCAL_ROOT_FOLDER.to_owned(), DRIVE_ROOT_FOLDER.to_owned())
    }

    /// A client for the given sync root and remote-root label.
    pub fn with_roots(
        hub: PiSyncResult<H>,
        filters: Vec<&str>,
        local_root: String,
        drive_root: String,
    ) -> (r: Self)
        ensures
            r.record() == Seq::<Exchange>::empty(),
            r.warnings() == Seq::<Seq<char>>::empty(),
            r.cached() == crate::cache::no_entries(),
            r.lifetimes() == no_lifetimes(),
            r.cache_capacity() == CACHE_CAPACITY,
            r.has_hub() == (hub is Ok),
            r.local_root_text() == local_root@,
            r.drive_root_text() == drive_root@,
            r.rules().len() == filters.len(),
            forall|i: int| 0 <= i < filters.len() ==> r.rules()[i] == filters[i]@,
    {
        let mut rules: Vec<String> = Vec::new();
        let mut i: usize = 0;
        while i < filters.len()
            invariant
                i <= filters.len(),
                rules@.len() == i,
                forall|j: int| 0 <= j < i ==> rules@[j]@ == filters@[j]@,
            decreases filters.len() - i,
        {
            rules.push(filters[i].to_owned());
            i = i + 1;
        }
        let cache = IdentityCache::new(CACHE_CAPACITY);
        let r = Drive3Client {
            hub,
            filters: rules,
            cache,
            local_root,
            drive_root,
            warnings: Vec::new(),
            record: Ghost(Seq::empty()),
        };
        assert(r.warnings() =~= Seq::<Seq<char>>::empty());
        r
    }

    /// The provider, or the error of a client that has none.
    pub fn get_hub(&self) -> (r: PiSyncResult<&H>)
        ensures
            r is Ok == self.has_hub(),
            r matches Err(e) ==> e == SyncerErrors::NoAppSecret,
    {
        match &self.hub {
            Ok(h) => Ok(h),
            Err(_) => Err(SyncerErrors::NoAppSecret),
        }
    }

    /// The local path as a file of this client's roots.
    pub fn file(&self, local_path: &str) -> (r: SyncableFile)
        ensures
            r.path_text() == local_path@,
            r.local_root_text() == self.local_root_text(),
            r.drive_root_text() == self.drive_root_text(),
    {
        SyncableFile::with_roots(
            local_path.to_owned(),
            self.local_root.clone(),
            self.drive_root.clone(),
        )
    }

    /// Puts one question of a walk to the cache or to the store and records
    /// it with the answer. What is handed to the cache is handed over with
    /// the time to live that the question names. A client without provider
    /// answers for the store with its own error.
    pub fn perform(&mut self, q: &Question) -> (r: Answer)
        requires
            q@ matches QuestionView::Store { ttl_secs, .. } ==> ttl_secs <= MAX_TTL_SECS,
        ensures
            final(self).record() == old(self).record().push(
                Exchange { question: q@, answer: r@ },
            ),
            fits(q@, r@),
            final(self).same_setup(old(self)),
            final(self).warnings() == old(self).warnings(),
            exchange_effect(
                old(self).cached(),
                old(self).cache_capacity(),
                (Exchange { question: q@, answer: r@ }),
                final(self).cached(),
            ),
            lifetime_effect(
                old(self).lifetimes(),
                (Exchange { question: q@, answer: r@ }),
                final(self).lifetimes(),
            ),
            !old(self).has_hub() && !(q is Cached) && !(q is Store) ==> r@ == match q@ {
                QuestionView::Find { .. } => AnswerView::Found(Err(SyncerErrors::NoAppSecret)),
                _ => AnswerView::Created(Err(SyncerErrors::NoAppSecret)),
            },
            match q@ {
                QuestionView::Store { unique_id, remote_id, .. } => {
                    &&& final(self).cached().submap_of(
                        old(self).cached().insert(unique_id, remote_id),
                    )
                    &&& (old(self).cache_capacity() > 0 ==> final(self).cached().contains_pair(
                        unique_id,
                        remote_id,
                    ))
                },
                QuestionView::Cached { unique_id } => {
                    &&& final(self).cached() == old(self).cached()
                    &&& (r@ matches AnswerView::Cached(Some(id)) ==> old(self).cached().contains_pair(unique_id, id))
                },
                _ => final(self).cached() == old(self).cached(),
            },
    {
        let answer = match q {
            Question::Cached { unique_id } => Answer::Cached(self.cache.get(unique_id.as_str())),
            Question::Find { unique_id } => Answer::Found(
                match &self.hub {
                    Ok(h) => h.find_by_identity(unique_id.as_str()),
                    Err(_) => Err(SyncerErrors::NoAppSecret),
                },
            ),
            Question::Create { name, parent, unique_id } => Answer::Created(
                match &self.hub {
                    Ok(h) => h.create_directory(name.as_str(), as_text(parent), unique_id.as_str()),
                    Err(_) => Err(SyncerErrors::NoAppSecret),
                },
            ),
            Question::Store { unique_id, remote_id, ttl_secs } => {
                self.cache.put(unique_id.clone(), remote_id.clone(), *ttl_secs);
                Answer::Stored
            },
        };
        self.record = Ghost(self.record@.push(Exchange { question: q@, answer: answer@ }));
        answer
    }

    /// Makes sure that every directory above the path exists remotely, the
    /// root first, and gives the remote id of the directory that holds the
    /// path. The exchanges of the call are those of one walk, and the result
    /// is how that walk ended: each ancestor is taken from the cache if it is
    /// there, else looked for remotely and stored, else created below the
    /// ancestor before it and stored. A path outside the sync root and the
    /// sync root itself are refused before anything is asked, each with its
    /// own error.
    pub fn create_path(&mut self, syncable: &SyncableFile) -> (r: PiSyncResult<String>)
        ensures
            final(self).same_setup(old(self)),
            final(self).extends(old(self)),
            !syncable.below_root() ==> {
                &&& r == Err::<String, SyncerErrors>(syncable.no_parent_error())
                &&& final(self).record() == old(self).record()
                &&& final(self).cached() == old(self).cached()
            },
            syncable.below_root() ==> walked(
                plan_of(syncable),
                final(self).since(old(self)),
                res_text(r),
            ),
            final(self).warnings() == old(self).warnings() + ambiguities(
                final(self).since(old(self)),
            ),
            final(self).cache_follows(old(self)),
            old(self).cache_capacity() > 0 ==> (r matches Ok(id) ==> final(
                self
            ).cached().contains_pair(
                plan_of(syncable).unique_id((plan_of(syncable).depth() - 1) as nat),
                id@,
            )),
    {
        let ghost start = self.record();
        let ghost first = *self;
        let mut walk = match PathWalk::begin(syncable) {
            Ok(w) => w,
            Err(e) => {
                proof {
                    self.lemma_grown(&first, Seq::empty());
                    lemma_follows_start(first.cached(), first.cache_capacity());
                }
                return Err(e);
            },
        };
        let ghost plan = plan_of(syncable);
        let ghost mut done: Seq<Exchange> = Seq::empty();
        proof {
            walk.lemma_wf();
            lemma_follows_start(first.cached(), first.cache_capacity());
        }
        loop
            invariant
                syncable.below_root(),
                plan == plan_of(syncable),
                start == first.record(),
                first == *old(self),
                walk.wf(),
                walk.plan() == plan,
                walk@.wf(plan),
                after(plan, done) == Some(walk@),
                self.record() == start + done,
                self.same_setup(&first),
                self.warnings() == first.warnings() + ambiguities(done),
                cache_follows(first.cached(), first.cache_capacity(), done, self.cached()),
                self.lifetimes() == lifetimes_after(first.lifetimes(), done),
                self.cache_capacity() > 0 && walk@.index > 0 && walk@.stage is AskCache
                    ==> self.cached().contains_pair(
                    plan.unique_id((walk@.index - 1) as nat),
                    walk@.parent->0,
                ),
            decreases walk@.remaining(plan),
        {
            match walk.outcome() {
                Some(r) => {
                    proof {
                        self.lemma_grown(&first, done);
                    }
                    return r;
                },
                None => {},
            }
            let q = walk.question();
            let ghost held = self.cached();
            let a = self.perform(&q);
            let ghost e = Exchange { question: q@, answer: a@ };
            proof {
                lemma_walk_ends(plan, walk@, a@);
                assert(done.push(e).drop_last() == done);
                assert(start + done.push(e) =~= (start + done).push(e));
                lemma_follows_step(
                    first.cached(),
                    first.cache_capacity(),
                    done,
                    held,
                    e,
                    self.cached(),
                );
            }
            let ghost warned = self.warnings();
            if a.is_ambiguous() {
                match &q {
                    Question::Find { unique_id } => {
                        self.warnings.push(unique_id.clone());
                    },
                    _ => {},
                }
            }
            assert(self.warnings() =~= if a@ matches AnswerView::Found(Ok(ids)) && ambiguous(ids) {
                warned.push(q@->Find_unique_id)
            } else {
                warned
            });
            assert(self.warnings() =~= first.warnings() + ambiguities(done.push(e)));
            walk.advance(a);
            proof {
                done = done.push(e);
            }
        }
    }

    /// Asks the store to place a file and records the exchange.
    fn send(&mut self, local_path: &str, parent: &Option<String>, unique_id: &str) -> (r:
        PiSyncResult<String>)
        ensures
            final(self).record() == old(self).record().push(
                Exchange {
                    question: QuestionView::Upload {
                        local_path: local_path@,
                        parent: opt_text(*parent),
                        unique_id: unique_id@,
                    },
                    answer: AnswerView::Sent(res_text(r)),
                },
            ),
            final(self).same_setup(old(self)),
            final(self).warnings() == old(self).warnings(),
            final(self).cached() == old(self).cached(),
            final(self).lifetimes() == old(self).lifetimes(),
            !old(self).has_hub() ==> r == Err::<String, SyncerErrors>(SyncerErrors::NoAppSecret),
    {
        let sent = match &self.hub {
            Ok(h) => h.upload_file(local_path, as_text(parent), unique_id),
            Err(_) => Err(SyncerErrors::NoAppSecret),
        };
        self.record = Ghost(
            self.record@.push(
                Exchange {
                    question: QuestionView::Upload {
                        local_path: local_path@,
                        parent: opt_text(*parent),
                        unique_id: unique_id@,
                    },
                    answer: AnswerView::Sent(res_text(sent)),
                },
            ),
        );
        sent
    }

    /// Hands out the identifiers for which the store listed more than one
    /// object since this was last asked, and forgets them.
    pub fn take_warnings(&mut self) -> (r: Vec<String>)
        ensures
            texts(r@) == old(self).warnings(),
            final(self).warnings() == Seq::<Seq<char>>::empty(),
            final(self).same_setup(old(self)),
            final(self).record() == old(self).record(),
            final(self).cached() == old(self).cached(),
            final(self).lifetimes() == old(self).lifetimes(),
    {
        let mut out: Vec<String> = Vec::new();
        std::mem::swap(&mut out, &mut self.warnings);
        assert(self.warnings() =~= Seq::<Seq<char>>::empty());
        out
    }
}

impl<H: RemoteDirectory> CloudClient for Drive3Client<H> {
    /// A path outside the sync root and the sync root itself are refused
    /// before anything is asked. Else the ancestors are walked, and the file is sent
    /// below the last of them unless the walk was stopped. Nothing is handed
    /// to the cache for the file itself.
    fn upload_file(&mut self, local_fs_path: &str) -> (r: PiSyncResult<Option<String>>)
        ensures
            final(self).same_setup(old(self)),
            final(self).extends(old(self)),
            !(old(self).covers(local_fs_path@) && old(self).plan(local_fs_path@).depth() > 0) ==> {
                &&& r == Err::<Option<String>, SyncerErrors>(old(self).refusal(local_fs_path@))
                &&& final(self).record() == old(self).record()
                &&& final(self).cached() == old(self).cached()
            },
            old(self).covers(local_fs_path@) && old(self).plan(local_fs_path@).depth() > 0
                ==> transferred(
                old(self).plan(local_fs_path@),
                local_fs_path@,
                old(self).identifier(local_fs_path@),
                final(self).since(old(self)),
                given_text(r),
            ),
            final(self).warnings() == old(self).warnings() + ambiguities(
                final(self).since(old(self)),
            ),
            final(self).cache_follows(old(self)),
    {
        let ghost first = *self;
        let s = self.file(local_fs_path);
        let parent = match self.create_path(&s) {
            Ok(p) => Some(p),
            Err(e) => {
                return Err(e);
            },
        };
        let ghost walk_log = self.since(&first);
        let ghost mid = *self;
        let uid = match s.get_unique_id() {
            Ok(u) => u,
            Err(e) => {
                return Err(e);
            },
        };
        let sent = self.send(local_fs_path, &parent, uid.as_str());
        proof {
            let e = self.record().last();
            mid.lemma_record_split(&first);
            assert(self.record() =~= first.record() + walk_log.push(e));
            self.lemma_grown(&first, walk_log.push(e));
            assert(walk_log.push(e).drop_last() =~= walk_log);
            lemma_follows_step(
                first.cached(),
                first.cache_capacity(),
                walk_log,
                mid.cached(),
                e,
                self.cached(),
            );
        }
        match sent {
            Ok(id) => Ok(Some(id)),
            Err(e) => Err(e),
        }
    }

    /// A path outside the sync root is refused before anything is asked.
    /// Else the store is asked for the directory, and the id it gives is
    /// handed to the cache, to be kept for a day. Where the store refuses,
    /// the cache stays as it was.
    fn create_dir(&mut self, local_fs_path: &str, parent_id: Option<&str>) -> (r: PiSyncResult<
        Option<String>,
    >)
        ensures
            final(self).same_setup(old(self)),
            final(self).extends(old(self)),
            final(self).warnings() == old(self).warnings(),
            !old(self).covers(local_fs_path@) ==> {
                &&& r == Err::<Option<String>, SyncerErrors>(SyncerErrors::NotUnderRoot)
                &&& final(self).record() == old(self).record()
            },
            old(self).covers(local_fs_path@) ==> directory_made(
                old(self).dir_name(local_fs_path@),
                match parent_id {
                    Some(p) => Some(p@),
                    None => None,
                },
                old(self).identifier(local_fs_path@),
                final(self).since(old(self)),
                given_text(r),
            ),
            final(self).cache_follows(old(self)),
            r is Err ==> final(self).cached() == old(self).cached() && final(self).lifetimes()
                == old(self).lifetimes(),
            r is Ok ==> final(self).lifetimes() == old(self).lifetimes().insert(
                old(self).identifier(local_fs_path@),
                CACHE_TTL_SECS,
            ),
            old(self).cache_capacity() > 0 ==> (r matches Ok(Some(id)) ==> final(
                self
            ).cached().contains_pair(old(self).identifier(local_fs_path@), id@)),
            old(self).cached().contains_key(old(self).identifier(local_fs_path@)) || old(
                self
            ).cached().dom().len() < old(self).cache_capacity() ==> (r matches Ok(Some(id))
                ==> final(self).cached() == old(self).cached().insert(
                old(self).identifier(local_fs_path@),
                id@,
            )),
    {
        let ghost first = *self;
        proof {
            lemma_follows_start(first.cached(), first.cache_capacity());
            self.lemma_grown(&first, Seq::empty());
        }
        let s = self.file(local_fs_path);
        let rest = match s.segments_below_root() {
            Ok(rest) => rest,
            Err(e) => {
                return Err(e);
            },
        };
        let unique_id = match s.get_unique_id() {
            Ok(u) => u,
            Err(e) => {
                return Err(e);
            },
        };
        let name = if rest.len() > 0 {
            rest[rest.len() - 1].clone()
        } else {
            self.drive_root.clone()
        };
        let parent = match parent_id {
            Some(p) => Some(p.to_owned()),
            None => None,
        };
        let q = Question::Create { name, parent, unique_id: unique_id.clone() };
        let made = self.perform(&q);
        let ghost e0 = self.record().last();
        let ghost mid = *self;
        proof {
            let none = Seq::<Exchange>::empty();
            assert(self.record() =~= first.record() + none.push(e0));
            self.lemma_grown(&first, none.push(e0));
            lemma_follows_step(
                first.cached(),
                first.cache_capacity(),
                none,
                first.cached(),
                e0,
                self.cached(),
            );
            assert(none.push(e0) =~= seq![e0]);
            assert(none.push(e0).drop_last() =~= none);
            assert(lifetimes_after(first.lifetimes(), none) == first.lifetimes());
            assert(lifetimes_after(first.lifetimes(), none.push(e0)) == first.lifetimes());
        }
        match made {
            Answer::Created(Ok(id)) => {
                let keep = Question::Store {
                    unique_id,
                    remote_id: id.clone(),
                    ttl_secs: CACHE_TTL_SECS,
                };
                let _ = self.perform(&keep);
                proof {
                    let e1 = self.record().last();
                    assert(seq![e0].push(e1).drop_last() =~= seq![e0]);
                    assert(lifetimes_after(first.lifetimes(), seq![e0].push(e1))
                        == first.lifetimes().insert(keep@->Store_unique_id, CACHE_TTL_SECS));
                    assert(self.record() =~= first.record() + seq![e0].push(e1));
                    self.lemma_grown(&first, seq![e0].push(e1));
                    lemma_follows_step(
                        first.cached(),
                        first.cache_capacity(),
                        seq![e0],
                        mid.cached(),
                        e1,
                        self.cached(),
                    );
                    assert(seq![e0].push(e1) =~= seq![e0, e1]);
                }
                Ok(Some(id))
            },
            Answer::Created(Err(e)) => Err(e),
            _ => Err(SyncerErrors::ProviderError),
        }
    }

    /// A path outside the sync root is refused before anything is asked.
    /// Else the store is asked once for the objects that carry the path's
    /// identifier; the last listed is the answer, and more than one is
    /// noted as a warning.
    fn id(&mut self, local_path: &str) -> (r: PiSyncResult<Option<String>>)
        ensures
            final(self).same_setup(old(self)),
            final(self).extends(old(self)),
            final(self).cached() == old(self).cached(),
            final(self).lifetimes() == old(self).lifetimes(),
            !old(self).covers(local_path@) ==> {
                &&& r == Err::<Option<String>, SyncerErrors>(SyncerErrors::NotUnderRoot)
                &&& final(self).record() == old(self).record()
            },
            old(self).covers(local_path@) ==> looked_up(
                old(self).identifier(local_path@),
                final(self).since(old(self)),
                given_text(r),
            ),
            final(self).warnings() == old(self).warnings() + ambiguities(
                final(self).since(old(self)),
            ),
            final(self).cache_follows(old(self)),
    {
        let ghost first = *self;
        proof {
            lemma_follows_start(first.cached(), first.cache_capacity());
            self.lemma_grown(&first, Seq::empty());
        }
        let s = self.file(local_path);
        let unique_id = match s.get_unique_id() {
            Ok(u) => u,
            Err(e) => {
                return Err(e);
            },
        };
        let q = Question::Find { unique_id };
        let found = self.perform(&q);
        let ghost e = self.record().last();
        proof {
            let none = Seq::<Exchange>::empty();
            assert(self.record() =~= first.record() + none.push(e));
            self.lemma_grown(&first, none.push(e));
            lemma_follows_step(
                first.cached(),
                first.cache_capacity(),
                none,
                first.cached(),
                e,
                self.cached(),
            );
            assert(none.push(e) =~= seq![e]);
            assert(none.push(e).drop_last() =~= none);
            assert(lifetimes_after(first.lifetimes(), none) == first.lifetimes());
            assert(lifetimes_after(first.lifetimes(), none.push(e)) == first.lifetimes());
        }
        if found.is_ambiguous() {
            match &q {
                Question::Find { unique_id } => {
                    self.warnings.push(unique_id.clone());
                },
                _ => {},
            }
        }
        proof {
            let none = Seq::<Exchange>::empty();
            assert(ambiguities(none) =~= Seq::<Seq<char>>::empty());
            assert(self.warnings() =~= first.warnings() + ambiguities(none.push(e)));
        }
        match found {
            Answer::Found(Ok(mut ids)) => Ok(ids.pop()),
            Answer::Found(Err(e)) => Err(e),
            _ => Err(SyncerErrors::ProviderError),
        }
    }

    /// One property: the key of the syncer, and the identifier.
    fn app_props_map(&self, id: &str) -> (r: Option<Vec<(String, String)>>)
        ensures
            r matches Some(props) && props.len() == 1 && props[0].0@ == PI_DRIVE_SYNC_PROPS_KEY@
                && props[0].1@ == id@,
    {
        Some(app_props(id))
    }

    /// The name is the last segment of the path.
    fn passes_filter(&self, local_fs_path: &str) -> (r: bool)
        ensures
            r == passes_rules(file_name_text(local_fs_path@), self.rules()),
    {
        let s = self.file(local_fs_path);
        let filename = match s.get_filename() {
            Some(name) => name,
            None => String::new(),
        };
        passes(filename.as_str(), &self.filters)
    }
}

/// A notice that something was created in the local tree.
pub struct ChangeEvent {
    /// The local path, unless it cannot be written as text.
    pub path: Option<String>,
    /// Whether the path leads to a file, as opposed to a directory.
    pub is_file: bool,
}

/// What became of a change event.
#[derive(Debug, PartialEq, Eq)]
pub enum Handled {
    /// The event had no path to go by.
    Dropped,
    /// The name did not pass the inclusion rules.
    FilteredOut,
    /// Directories are created when a file below them is placed, not before.
    SkippedDirectory,
    /// The file was placed; the store gave this id.
    Uploaded(Option<String>),
    /// Placing the file failed.
    Failed(SyncerErrors),
}

impl Handled {
    /// What the upload gave, for an event that led to one.
    pub open spec fn upload_result(self) -> Option<PiSyncResult<Option<Seq<char>>>> {
        match self {
            Handled::Uploaded(id) => Some(Ok(opt_text(id))),
            Handled::Failed(e) => Some(Err(e)),
            _ => None,
        }
    }
}

impl<H: RemoteDirectory> Drive3Client<H> {
    /// Makes sure that the remote root is there, as is done once before any
    /// path is walked: looks for it, and creates it where the store has
    /// none. Only a root that was created is handed to the cache.
    pub fn ensure_root(&mut self) -> (r: PiSyncResult<Option<String>>)
        ensures
            final(self).same_setup(old(self)),
            final(self).extends(old(self)),
            root_ensured(
                old(self).drive_root_text(),
                old(self).identifier(old(self).local_root_text()),
                final(self).since(old(self)),
                given_text(r),
            ),
            final(self).warnings() == old(self).warnings() + ambiguities(
                final(self).since(old(self)),
            ),
            final(self).cache_follows(old(self)),
            r is Err || final(self).since(old(self)).len() == 1 ==> final(self).cached() == old(
                self
            ).cached() && final(self).lifetimes() == old(self).lifetimes(),
            r is Ok && final(self).since(old(self)).len() > 1 ==> final(self).lifetimes() == old(
                self
            ).lifetimes().insert(
                old(self).identifier(old(self).local_root_text()),
                CACHE_TTL_SECS,
            ),
            old(self).cache_capacity() > 0 && final(self).since(old(self)).len() > 1 ==> (
            r matches Ok(Some(id)) ==> final(self).cached().contains_pair(
                old(self).identifier(old(self).local_root_text()),
                id@,
            )),
            (old(self).cached().contains_key(old(self).identifier(old(self).local_root_text()))
                || old(self).cached().dom().len() < old(self).cache_capacity()) && final(
                self
            ).since(old(self)).len() > 1 ==> (r matches Ok(Some(id)) ==> final(self).cached()
                == old(self).cached().insert(
                old(self).identifier(old(self).local_root_text()),
                id@,
            )),
    {
        let ghost first = *self;
        let root = self.local_root.clone();
        proof {
            lemma_root_in_itself(root@);
        }
        let found = self.id(root.as_str());
        let ghost mid = *self;
        match found {
            Ok(None) => {
                let made = self.create_dir(root.as_str(), None);
                proof {
                    let l1 = mid.since(&first);
                    let l2 = self.since(&mid);
                    mid.lemma_record_split(&first);
                    self.lemma_record_split(&mid);
                    assert(self.record() =~= first.record() + (l1 + l2));
                    self.lemma_grown(&first, l1 + l2);
                    lemma_root_made(
                        first.drive_root_text(),
                        first.identifier(first.local_root_text()),
                        l1,
                        l2,
                        given_text(made),
                    );
                    lemma_follows_in_two_runs(
                        first.cached(),
                        first.cache_capacity(),
                        l1,
                        mid.cached(),
                        l2,
                        self.cached(),
                    );
                    lemma_lifetimes_in_two_runs(first.lifetimes(), l1, l2);
                }
                made
            },
            other => other,
        }
    }

    /// Deals with one change event and says what became of it; it never
    /// fails. An event without path is dropped, one whose name does not pass
    /// the rules is filtered out, a directory is skipped: none of them asks
    /// anything. A file is placed as `upload_file` does.
    pub fn handle(&mut self, event: &ChangeEvent) -> (r: Handled)
        ensures
            final(self).same_setup(old(self)),
            final(self).extends(old(self)),
            final(self).warnings() == old(self).warnings() + ambiguities(
                final(self).since(old(self)),
            ),
            match event.path {
                None => r == Handled::Dropped,
                Some(p) => if !passes_rules(file_name_text(p@), old(self).rules()) {
                    r == Handled::FilteredOut
                } else if !event.is_file {
                    r == Handled::SkippedDirectory
                } else if !(old(self).covers(p@) && old(self).plan(p@).depth() > 0) {
                    &&& r == Handled::Failed(old(self).refusal(p@))
                    &&& final(self).record() == old(self).record()
                    &&& final(self).cached() == old(self).cached()
                } else {
                    r.upload_result() matches Some(given) && transferred(
                        old(self).plan(p@),
                        p@,
                        old(self).identifier(p@),
                        final(self).since(old(self)),
                        given,
                    )
                },
            },
            final(self).cache_follows(old(self)),
            r is Dropped || r is FilteredOut || r is SkippedDirectory ==> {
                &&& final(self).record() == old(self).record()
                &&& final(self).cached() == old(self).cached()
                &&& final(self).lifetimes() == old(self).lifetimes()
            },
    {
        let ghost first = *self;
        proof {
            self.lemma_grown(&first, Seq::empty());
            lemma_follows_start(first.cached(), first.cache_capacity());
        }
        let path = match &event.path {
            Some(p) => p,
            None => {
                return Handled::Dropped;
            },
        };
        if !self.passes_filter(path.as_str()) {
            return Handled::FilteredOut;
        }
        if !event.is_file {
            return Handled::SkippedDirectory;
        }
        match self.upload_file(path.as_str()) {
            Ok(id) => Handled::Uploaded(id),
            Err(e) => Handled::Failed(e),
        }
    }
}

} // verus!
