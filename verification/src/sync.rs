//! The traversal state machine of the synchronizer.
//!
//! The `Synchronizer` owns the pending-path queue, the manifest of keys
//! already handled, and the record of keys dispatched for upload in this
//! run. The surrounding program performs the filesystem and network
//! work, one event at a time: it asks for the next pending path, reports
//! listings and failures, and hands each regular file in; the machine
//! decides, for each file, whether it is uploaded and under which key.

use vstd::prelude::*;
use crate::keys::{
    spec_key,
    spec_join,
    str_seq_view,
    derive_key,
    join_key,
    key_wellformed,
    lemma_derived_key_wellformed,
    lemma_join_injective,
};
use crate::manifest::Manifest;

verus! {

/// What the synchronizer decides for one regular file.
#[derive(Debug)]
pub enum FileAction {
    /// Upload the file under this remote object key.
    Upload(String),
    /// The key was already handled: do not upload it again.
    SkipDuplicate,
    /// The path does not lie under the root: skip it and report.
    SkipInvalidPath,
}

/// Counts of per-path outcomes over one run. Every error during
/// traversal is recoverable; these totals are how partial failure is
/// reported to the caller.
#[derive(Clone, Copy, Debug, PartialEq, Eq, Structural)]
pub struct Totals {
    /// Files handed to the store and acknowledged.
    pub uploaded: u64,
    /// Files the store refused.
    pub upload_failures: u64,
    /// Files skipped because their key was already handled.
    pub duplicates: u64,
    /// Files that could not be opened for reading.
    pub unreadable: u64,
    /// Paths that do not lie under the root.
    pub invalid_paths: u64,
    /// Paths whose metadata could not be read.
    pub metadata_errors: u64,
    /// Directories whose children could not be listed.
    pub listing_errors: u64,
}

/// A counter stepped without overflow: it saturates at its limit.
pub open spec fn bump_spec(c: u64) -> u64 {
    if c < u64::MAX {
        (c + 1) as u64
    } else {
        c
    }
}

fn bump(c: u64) -> (r: u64)
    ensures
        r == bump_spec(c),
{
    if c < u64::MAX {
        c + 1
    } else {
        c
    }
}

/// The set of keys a run dispatches for upload, given the file paths it
/// encounters in order, the root, and the keys the manifest held when
/// the run began: every derivable key not already held, each once.
pub open spec fn run_keys(
    files: Seq<Seq<char>>,
    root: Seq<char>,
    seeded: Set<Seq<Seq<char>>>,
) -> Set<Seq<Seq<char>>>
    decreases files.len(),
{
    if files.len() == 0 {
        Set::empty()
    } else {
        let prev = run_keys(files.drop_last(), root, seeded);
        match spec_key(files.last(), root) {
            Some(k) => if seeded.contains(k) {
                prev
            } else {
                prev.insert(k)
            },
            None => prev,
        }
    }
}

/// The set of every derivable key of the given file paths.
pub open spec fn all_keys(files: Seq<Seq<char>>, root: Seq<char>) -> Set<Seq<Seq<char>>>
    decreases files.len(),
{
    if files.len() == 0 {
        Set::empty()
    } else {
        let prev = all_keys(files.drop_last(), root);
        match spec_key(files.last(), root) {
            Some(k) => prev.insert(k),
            None => prev,
        }
    }
}

/// The state of one synchronizer run.
pub struct Synchronizer {
    /// The resolved root all keys are relative to.
    pub root: String,
    /// Paths awaiting classification, oldest first.
    pub queue: Vec<String>,
    /// The keys handled so far: what the run was seeded with plus what
    /// it has dispatched.
    pub manifest: Manifest,
    /// The keys dispatched for upload in this run, in order.
    pub dispatched: Vec<Vec<String>>,
    /// The per-path outcome counts of this run.
    pub totals: Totals,
    /// Every file path handed in so far, in order.
    pub files: Ghost<Seq<Seq<char>>>,
    /// The manifest's keys when the run began.
    pub seeded: Ghost<Set<Seq<Seq<char>>>>,
    /// Every path taken off the queue so far, in order.
    pub visited: Ghost<Seq<Seq<char>>>,
    /// Every path ever placed in the queue, in arrival order.
    pub enqueued: Ghost<Seq<Seq<char>>>,
}

impl Synchronizer {
    /// The views of the pending paths, oldest first.
    pub open spec fn pending(self) -> Seq<Seq<char>> {
        str_seq_view(self.queue@)
    }

    /// The set of keys dispatched for upload in this run.
    pub open spec fn dispatched_set(self) -> Set<Seq<Seq<char>>> {
        Set::new(
            |k: Seq<Seq<char>>|
                exists|i: int|
                    0 <= i < self.dispatched@.len() && str_seq_view(self.dispatched@[i]@) == k,
        )
    }

    /// Well-formedness: the manifest holds exactly the seeded keys plus
    /// the dispatched ones; the dispatched keys are exactly the run's
    /// derivable new keys, each a well-formed key sequence, and no key
    /// is dispatched twice.
    pub open spec fn wf(self) -> bool {
        &&& self.manifest.key_set() == self.seeded@.union(self.dispatched_set())
        &&& self.dispatched_set() == run_keys(self.files@, self.root@, self.seeded@)
        &&& forall|i: int, j: int|
            0 <= i < j < self.dispatched@.len() ==> str_seq_view(self.dispatched@[i]@)
                != str_seq_view(self.dispatched@[j]@)
        &&& forall|i: int|
            0 <= i < self.dispatched@.len() ==> key_wellformed(
                str_seq_view((#[trigger] self.dispatched@[i])@),
            )
        &&& self.enqueued@ == self.visited@ + self.pending()
    }

    /// The key-tracking state — root, manifest, dispatched keys, files
    /// seen and the seed — is the same in both.
    pub open spec fn same_tracking(self, other: Synchronizer) -> bool {
        &&& other.root == self.root
        &&& other.manifest == self.manifest
        &&& other.dispatched == self.dispatched
        &&& other.files == self.files
        &&& other.seeded == self.seeded
    }

    /// A run over the given root, seeded with the keys the manifest
    /// already holds: those files are skipped as duplicates.
    pub fn with_manifest(root: String, manifest: Manifest) -> (s: Synchronizer)
        ensures
            s.wf(),
            s.root@ == root@,
            s.pending() =~= seq![root@],
            s.manifest == manifest,
            s.seeded@ == manifest.key_set(),
            s.files@ == Seq::<Seq<char>>::empty(),
            s.dispatched@.len() == 0,
            s.visited@ == Seq::<Seq<char>>::empty(),
            s.enqueued@ =~= seq![root@],
            s.totals == (Totals {
                uploaded: 0,
                upload_failures: 0,
                duplicates: 0,
                unreadable: 0,
                invalid_paths: 0,
                metadata_errors: 0,
                listing_errors: 0,
            }),
    {
        let mut queue: Vec<String> = Vec::new();
        queue.push(root.clone());
        let ghost queue_view = queue@;
        let s = Synchronizer {
            root,
            queue,
            manifest,
            dispatched: Vec::new(),
            totals: Totals {
                uploaded: 0,
                upload_failures: 0,
                duplicates: 0,
                unreadable: 0,
                invalid_paths: 0,
                metadata_errors: 0,
                listing_errors: 0,
            },
            files: Ghost(Seq::empty()),
            seeded: Ghost(manifest.key_set()),
            visited: Ghost(Seq::empty()),
            enqueued: Ghost(str_seq_view(queue_view)),
        };
        proof {
            assert(s.dispatched_set() =~= Set::<Seq<Seq<char>>>::empty());
            assert(s.manifest.key_set() =~= s.seeded@.union(s.dispatched_set()));
            assert(s.enqueued@ =~= s.visited@ + s.pending());
        }
        s
    }

    /// A fresh run over the given root: nothing is held against the
    /// files yet, so every derivable key will be dispatched.
    pub fn new(root: String) -> (s: Synchronizer)
        ensures
            s.wf(),
            s.root@ == root@,
            s.pending() =~= seq![root@],
            s.seeded@ == Set::<Seq<Seq<char>>>::empty(),
            s.files@ == Seq::<Seq<char>>::empty(),
            s.dispatched@.len() == 0,
            s.visited@ == Seq::<Seq<char>>::empty(),
            s.enqueued@ =~= seq![root@],
            s.totals == (Totals {
                uploaded: 0,
                upload_failures: 0,
                duplicates: 0,
                unreadable: 0,
                invalid_paths: 0,
                metadata_errors: 0,
                listing_errors: 0,
            }),
    {
        Self::with_manifest(root, Manifest::new())
    }

    /// Whether every pending path has been handled.
    pub fn is_done(&self) -> (done: bool)
        ensures
            done == (self.pending().len() == 0),
    {
        self.queue.len() == 0
    }

    /// Takes the oldest pending path, if any: each path placed in the
    /// queue comes out exactly once, in arrival order.
    pub fn next_path(&mut self) -> (next: Option<String>)
        requires
            old(self).wf(),
        ensures
            final(self).wf(),
            old(self).same_tracking(*final(self)),
            final(self).totals == old(self).totals,
            final(self).enqueued == old(self).enqueued,
            match next {
                Some(p) => {
                    &&& old(self).pending().len() > 0
                    &&& p@ == old(self).pending()[0]
                    &&& final(self).pending() == old(self).pending().drop_first()
                    &&& final(self).visited@ == old(self).visited@.push(p@)
                },
                None => {
                    &&& old(self).pending().len() == 0
                    &&& final(self).pending() == old(self).pending()
                    &&& final(self).visited == old(self).visited
                },
            },
    {
        if self.queue.len() == 0 {
            None
        } else {
            let p = self.queue.remove(0);
            self.visited = Ghost(self.visited@.push(p@));
            proof {
                assert(self.pending() =~= old(self).pending().drop_first());
                assert(self.enqueued@ =~= self.visited@ + self.pending());
            }
            Some(p)
        }
    }

    /// Appends a listed directory's children to the tail of the queue.
    pub fn enqueue_children(&mut self, children: Vec<String>)
        requires
            old(self).wf(),
        ensures
            final(self).wf(),
            old(self).same_tracking(*final(self)),
            final(self).totals == old(self).totals,
            final(self).visited == old(self).visited,
            final(self).pending() == old(self).pending() + str_seq_view(children@),
            final(self).enqueued@ == old(self).enqueued@ + str_seq_view(children@),
    {
        let ghost child_views = str_seq_view(children@);
        let mut rest = children;
        self.queue.append(&mut rest);
        self.enqueued = Ghost(self.enqueued@ + child_views);
        proof {
            assert(self.pending() =~= old(self).pending() + child_views);
            assert(self.enqueued@ =~= self.visited@ + self.pending());
        }
    }

    /// Notes a path whose metadata could not be read; the rest of the
    /// queue is untouched and the traversal goes on.
    pub fn record_metadata_error(&mut self)
        requires
            old(self).wf(),
        ensures
            final(self).wf(),
            old(self).same_tracking(*final(self)),
            final(self).queue == old(self).queue,
            final(self).visited == old(self).visited,
            final(self).enqueued == old(self).enqueued,
            final(self).totals == (Totals {
                metadata_errors: bump_spec(old(self).totals.metadata_errors),
                ..old(self).totals
            }),
    {
        self.totals.metadata_errors = bump(self.totals.metadata_errors);
    }

    /// Notes a directory whose children could not be listed: only that
    /// subtree is lost; every other pending path is untouched and the
    /// traversal goes on.
    pub fn record_listing_error(&mut self)
        requires
            old(self).wf(),
        ensures
            final(self).wf(),
            old(self).same_tracking(*final(self)),
            final(self).queue == old(self).queue,
            final(self).visited == old(self).visited,
            final(self).enqueued == old(self).enqueued,
            final(self).totals == (Totals {
                listing_errors: bump_spec(old(self).totals.listing_errors),
                ..old(self).totals
            }),
    {
        self.totals.listing_errors = bump(self.totals.listing_errors);
    }

    /// Notes a dispatched file that could not be opened for reading: it
    /// is skipped, and the traversal goes on.
    pub fn record_open_error(&mut self)
        requires
            old(self).wf(),
        ensures
            final(self).wf(),
            old(self).same_tracking(*final(self)),
            final(self).queue == old(self).queue,
            final(self).visited == old(self).visited,
            final(self).enqueued == old(self).enqueued,
            final(self).totals == (Totals {
                unreadable: bump_spec(old(self).totals.unreadable),
                ..old(self).totals
            }),
    {
        self.totals.unreadable = bump(self.totals.unreadable);
    }

    /// Notes the store's answer for a dispatched file; a refusal costs
    /// only that file, and the traversal goes on.
    pub fn record_upload_result(&mut self, ok: bool)
        requires
            old(self).wf(),
        ensures
            final(self).wf(),
            old(self).same_tracking(*final(self)),
            final(self).queue == old(self).queue,
            final(self).visited == old(self).visited,
            final(self).enqueued == old(self).enqueued,
            ok ==> final(self).totals == (Totals {
                uploaded: bump_spec(old(self).totals.uploaded),
                ..old(self).totals
            }),
            !ok ==> final(self).totals == (Totals {
                upload_failures: bump_spec(old(self).totals.upload_failures),
                ..old(self).totals
            }),
    {
        if ok {
            self.totals.uploaded = bump(self.totals.uploaded);
        } else {
            self.totals.upload_failures = bump(self.totals.upload_failures);
        }
    }

    /// Decides what to do with one regular file: derive its key; a path
    /// outside the root is skipped and reported; a key already handled
    /// is skipped; a new key is recorded and dispatched for upload under
    /// the joined, forward-slash remote key.
    pub fn process_file(&mut self, path: &String) -> (action: FileAction)
        requires
            old(self).wf(),
        ensures
            final(self).wf(),
            final(self).root == old(self).root,
            final(self).queue == old(self).queue,
            final(self).visited == old(self).visited,
            final(self).enqueued == old(self).enqueued,
            final(self).seeded == old(self).seeded,
            final(self).files@ == old(self).files@.push(path@),
            match spec_key(path@, old(self).root@) {
                None => {
                    &&& action is SkipInvalidPath
                    &&& final(self).manifest == old(self).manifest
                    &&& final(self).dispatched == old(self).dispatched
                    &&& final(self).totals == (Totals {
                        invalid_paths: bump_spec(old(self).totals.invalid_paths),
                        ..old(self).totals
                    })
                },
                Some(k) => if old(self).manifest.key_set().contains(k) {
                    &&& action is SkipDuplicate
                    &&& final(self).manifest == old(self).manifest
                    &&& final(self).dispatched == old(self).dispatched
                    &&& final(self).totals == (Totals {
                        duplicates: bump_spec(old(self).totals.duplicates),
                        ..old(self).totals
                    })
                } else {
                    &&& match action {
                        FileAction::Upload(remote) => remote@ == spec_join(k),
                        _ => false,
                    }
                    &&& final(self).manifest.key_set() == old(self).manifest.key_set().insert(k)
                    &&& final(self).dispatched@.len() == old(self).dispatched@.len() + 1
                    &&& final(self).dispatched@.drop_last() == old(self).dispatched@
                    &&& str_seq_view(final(self).dispatched@.last()@) == k
                    &&& final(self).dispatched_set() == old(self).dispatched_set().insert(k)
                    &&& final(self).totals == old(self).totals
                },
            },
    {
        proof {
            assert(self.files@.push(path@).drop_last() =~= self.files@);
        }
        let key = derive_key(path.as_str(), self.root.as_str());
        self.files = Ghost(self.files@.push(path@));
        match key {
            None => {
                self.totals.invalid_paths = bump(self.totals.invalid_paths);
                FileAction::SkipInvalidPath
            },
            Some(segments) => {
                let ghost kv = str_seq_view(segments@);
                if self.manifest.contains(&segments) {
                    proof {
                        let disp = self.dispatched_set();
                        if !self.seeded@.contains(kv) {
                            assert(self.seeded@.union(disp).contains(kv));
                            assert(disp.insert(kv) =~= disp);
                        }
                    }
                    self.totals.duplicates = bump(self.totals.duplicates);
                    FileAction::SkipDuplicate
                } else {
                    let remote = join_key(&segments);
                    let recorded = clone_key(&segments);
                    let ghost before = *self;
                    self.manifest.record(recorded);
                    self.dispatched.push(segments);
                    proof {
                        lemma_derived_key_wellformed(path@, old(self).root@);
                        assert(!before.seeded@.union(before.dispatched_set()).contains(kv));
                        assert forall|k2: Seq<Seq<char>>|
                            self.dispatched_set().contains(k2) <==> (
                            before.dispatched_set().contains(k2) || k2 == kv) by {
                            let n = before.dispatched@.len() as int;
                            if before.dispatched_set().contains(k2) {
                                let i = choose|i: int|
                                    0 <= i < n && str_seq_view(before.dispatched@[i]@) == k2;
                                assert(str_seq_view(self.dispatched@[i]@) == k2);
                            }
                            if k2 == kv {
                                assert(str_seq_view(self.dispatched@[n]@) == k2);
                            }
                            if self.dispatched_set().contains(k2) {
                                let i = choose|i: int|
                                    0 <= i < self.dispatched@.len() && str_seq_view(
                                        self.dispatched@[i]@,
                                    ) == k2;
                                if i < n {
                                    assert(str_seq_view(before.dispatched@[i]@) == k2);
                                }
                            }
                        }
                        assert(self.dispatched_set() =~= before.dispatched_set().insert(kv));
                        assert(self.manifest.key_set() =~= self.seeded@.union(
                            self.dispatched_set(),
                        ));
                        assert(self.dispatched@.drop_last() =~= before.dispatched@);
                        assert forall|i: int|
                            0 <= i < before.dispatched@.len() implies str_seq_view(
                            before.dispatched@[i]@,
                        ) != kv by {
                            if str_seq_view(before.dispatched@[i]@) == kv {
                                assert(before.dispatched_set().contains(kv));
                            }
                        }
                    }
                    FileAction::Upload(remote)
                }
            },
        }
    }

    /// The keys dispatched for upload so far, in dispatch order.
    pub fn dispatched_keys(&self) -> (keys: &Vec<Vec<String>>)
        ensures
            keys == &self.dispatched,
    {
        &self.dispatched
    }

    /// How many pending paths are left.
    pub fn pending_count(&self) -> (n: usize)
        ensures
            n == self.pending().len(),
    {
        self.queue.len()
    }
}

fn clone_key(key: &Vec<String>) -> (copy: Vec<String>)
    ensures
        str_seq_view(copy@) == str_seq_view(key@),
{
    let mut copy: Vec<String> = Vec::new();
    let mut i: usize = 0;
    while i < key.len()
        invariant
            i <= key@.len(),
            copy@.len() == i,
            forall|j: int| 0 <= j < i ==> copy@[j] == key@[j],
        decreases key@.len() - i,
    {
        copy.push(key[i].clone());
        i = i + 1;
    }
    proof {
        assert(str_seq_view(copy@) =~= str_seq_view(key@));
    }
    copy
}

/// Law: a run's dispatched keys are complete and minimal — for a
/// well-formed synchronizer they are exactly the derivable keys of the
/// files it has seen, excluding only those its manifest held at the
/// start, each dispatched once.
pub proof fn lemma_dispatched_exactly_new_keys(s: Synchronizer)
    requires
        s.wf(),
    ensures
        s.dispatched_set() == run_keys(s.files@, s.root@, s.seeded@),
{
}

/// Law: with a tracker that starts empty — one not persisted across
/// runs — a run dispatches every derivable key of the files it sees:
/// nothing carries over from any earlier run.
pub proof fn lemma_fresh_run_dispatches_all(files: Seq<Seq<char>>, root: Seq<char>)
    ensures
        run_keys(files, root, Set::empty()) == all_keys(files, root),
    decreases files.len(),
{
    if files.len() > 0 {
        lemma_fresh_run_dispatches_all(files.drop_last(), root);
    }
}

/// Law: with a manifest already holding every derivable key of the
/// files, a run dispatches nothing.
pub proof fn lemma_seeded_run_dispatches_none(
    files: Seq<Seq<char>>,
    root: Seq<char>,
    seeded: Set<Seq<Seq<char>>>,
)
    requires
        all_keys(files, root).subset_of(seeded),
    ensures
        run_keys(files, root, seeded) == Set::<Seq<Seq<char>>>::empty(),
    decreases files.len(),
{
    if files.len() > 0 {
        assert forall|k: Seq<Seq<char>>|
            all_keys(files.drop_last(), root).contains(k) implies seeded.contains(k) by {
            assert(all_keys(files, root).contains(k));
        }
        lemma_seeded_run_dispatches_none(files.drop_last(), root, seeded);
        match spec_key(files.last(), root) {
            Some(k) => {
                assert(all_keys(files, root).contains(k));
            },
            None => {},
        }
    }
}

/// Law: queue discipline — every path ever placed in the queue is
/// either already visited or still pending, each exactly once: the
/// arrival-order history splits into the visited paths followed by the
/// pending ones, so no path is dropped or handled twice.
pub proof fn lemma_each_queued_path_handled_once(s: Synchronizer)
    requires
        s.wf(),
    ensures
        s.enqueued@ == s.visited@ + s.pending(),
{
}

/// Law: distinct dispatched keys carry distinct remote keys — joining
/// with the canonical separator cannot make two different keys of one
/// run collide on the remote store.
pub proof fn lemma_remote_keys_distinct(s: Synchronizer, i: int, j: int)
    requires
        s.wf(),
        0 <= i < j < s.dispatched@.len(),
    ensures
        spec_join(str_seq_view(s.dispatched@[i]@)) != spec_join(str_seq_view(s.dispatched@[j]@)),
{
    let a = str_seq_view(s.dispatched@[i]@);
    let b = str_seq_view(s.dispatched@[j]@);
    if spec_join(a) == spec_join(b) {
        lemma_join_injective(a, b);
    }
}

/// Law: cross-run idempotence with a persisted manifest — a second run
/// seeded with the final manifest of a completed fresh run over the same
/// files and root dispatches nothing.
pub proof fn lemma_rerun_with_persisted_manifest(first: Synchronizer, second: Synchronizer)
    requires
        first.wf(),
        second.wf(),
        first.seeded@ == Set::<Seq<Seq<char>>>::empty(),
        second.seeded@ == first.manifest.key_set(),
        second.files@ == first.files@,
        second.root@ == first.root@,
    ensures
        second.dispatched_set() == Set::<Seq<Seq<char>>>::empty(),
{
    lemma_fresh_run_dispatches_all(first.files@, first.root@);
    assert(first.manifest.key_set() =~= all_keys(first.files@, first.root@));
    lemma_seeded_run_dispatches_none(second.files@, second.root@, second.seeded@);
}

} // verus!
