//! The traversal engine's decisions. Workers share one `TraversalState`
//! behind a lock: each takes a task, enumerates the directory outside the
//! lock, turns the listing into an entry with `process_listing`, and reports
//! back with `complete`. A worker stops only when the queue is empty and no
//! directory is in flight, since an in-flight directory may still add work.

use vstd::prelude::*;
use vstd::string::StrSliceExecFns;
use vstd::std_specs::hash::DefaultHasherAdditionalSpecFns;
use std::collections::VecDeque;
use std::collections::hash_map::DefaultHasher;
use crate::entry::{copy_string, DirEntry};
use crate::pathset::{names_fingerprint, names_hash_input, PathSet};
use crate::strmap::{counted, StrMap};
use crate::skip::{ascii_case_eq, SkipRules};
use crate::text::{join, join_path, names_sorted, names_view, sort_names};

verus! {

/// One child found while enumerating a directory.
#[derive(Debug)]
pub struct ChildInfo {
    pub name: String,
    pub is_dir: bool,
    pub is_symlink: bool,
}

/// Whether a rule in `rules` matches `name`, ignoring ASCII case.
pub open spec fn skipped(name: Seq<char>, rules: Set<Seq<char>>) -> bool {
    exists|rule: Seq<char>| rules.contains(rule) && ascii_case_eq(name, rule)
}

/// The names of the children that no rule skips, in listing order.
pub open spec fn kept_names(cs: Seq<ChildInfo>, rules: Set<Seq<char>>) -> Seq<Seq<char>>
    decreases cs.len(),
{
    if cs.len() == 0 {
        Seq::empty()
    } else if skipped(cs.last().name@, rules) {
        kept_names(cs.drop_last(), rules)
    } else {
        kept_names(cs.drop_last(), rules).push(cs.last().name@)
    }
}

/// The paths of the kept children that are directories and not symbolic
/// links, in listing order: the directories the walk goes on to.
pub open spec fn followed(path: Seq<char>, cs: Seq<ChildInfo>, rules: Set<Seq<char>>) -> Seq<
    Seq<char>,
>
    decreases cs.len(),
{
    if cs.len() == 0 {
        Seq::empty()
    } else if !skipped(cs.last().name@, rules) && cs.last().is_dir && !cs.last().is_symlink {
        followed(path, cs.drop_last(), rules).push(join_path(path, cs.last().name@))
    } else {
        followed(path, cs.drop_last(), rules)
    }
}

proof fn lemma_kept_not_skipped(cs: Seq<ChildInfo>, rules: Set<Seq<char>>)
    ensures
        forall|i: int|
            0 <= i < kept_names(cs, rules).len() ==> !skipped(#[trigger] kept_names(cs, rules)[i], rules),
    decreases cs.len(),
{
    if cs.len() > 0 {
        lemma_kept_not_skipped(cs.drop_last(), rules);
        let k0 = kept_names(cs.drop_last(), rules);
        assert forall|i: int| 0 <= i < kept_names(cs, rules).len() implies !skipped(
            #[trigger] kept_names(cs, rules)[i],
            rules,
        ) by {
            if i < k0.len() {
                assert(kept_names(cs, rules)[i] == k0[i]);
            }
        }
    }
}

/// How many of the children are directories that a rule skips.
pub open spec fn skipped_dirs(cs: Seq<ChildInfo>, rules: Set<Seq<char>>) -> nat
    decreases cs.len(),
{
    if cs.len() == 0 {
        0
    } else {
        skipped_dirs(cs.drop_last(), rules) + if cs.last().is_dir && skipped(cs.last().name@, rules) {
            1nat
        } else {
            0nat
        }
    }
}

/// Turns one directory's listing into its entry, the subdirectories to
/// queue, and, for each skipped subdirectory, the rule that skipped it.
/// Skipped names are in neither the entry nor the queue; symbolic links are
/// listed but not followed; the children are sorted, and the content hash is
/// the fingerprint of the sorted names.
pub fn process_listing(
    path: &String,
    name: String,
    listing: &Vec<ChildInfo>,
    rules: &SkipRules,
    now: i64,
) -> (r: (DirEntry, Vec<String>, Vec<String>))
    ensures
        r.0.path@ == path@,
        r.0.name@ == name@,
        r.0.modified == now,
        r.0.content_hash == DefaultHasher::spec_finish(names_hash_input(r.0@.children)),
        r.0.symlink_target is None,
        r.0.is_hidden == (name@.len() > 0 && name@[0] == '.'),
        forall|i: int| 0 <= i < r.0@.children.len() ==> !skipped(#[trigger] r.0@.children[i], rules@),
        r.0.is_dir,
        names_sorted(r.0@.children),
        r.0@.children.to_multiset() == kept_names(listing@, rules@).to_multiset(),
        names_view(r.1@) == followed(path@, listing@, rules@),
        r.2@.len() == skipped_dirs(listing@, rules@),
        forall|i: int| 0 <= i < r.2@.len() ==> rules@.contains(#[trigger] r.2@[i]@),
{
    let mut children: Vec<String> = Vec::new();
    let mut subdirs: Vec<String> = Vec::new();
    let mut skipped_by: Vec<String> = Vec::new();
    let mut i: usize = 0;
    while i < listing.len()
        invariant
            i <= listing@.len(),
            names_view(children@) == kept_names(listing@.take(i as int), rules@),
            names_view(subdirs@) == followed(path@, listing@.take(i as int), rules@),
            skipped_by@.len() == skipped_dirs(listing@.take(i as int), rules@),
            forall|j: int| 0 <= j < skipped_by@.len() ==> rules@.contains(#[trigger] skipped_by@[j]@),
        decreases listing@.len() - i,
    {
        let child = &listing[i];
        let ghost t = listing@.take(i + 1);
        assert(t.drop_last() =~= listing@.take(i as int));
        assert(t.last() == listing@[i as int]);
        match rules.matching_rule(child.name.as_str()) {
            None => {
                children.push(copy_string(&child.name));
                if child.is_dir && !child.is_symlink {
                    subdirs.push(join(path, &child.name));
                }
            },
            Some(rule) => {
                if child.is_dir {
                    skipped_by.push(rule);
                }
            },
        }
        i += 1;
        assert(names_view(children@) =~= kept_names(listing@.take(i as int), rules@));
        assert(names_view(subdirs@) =~= followed(path@, listing@.take(i as int), rules@));
    }
    assert(listing@.take(i as int) =~= listing@);
    sort_names(&mut children);
    proof {
        broadcast use vstd::seq_lib::group_to_multiset_ensures;
        let kept = kept_names(listing@, rules@);
        lemma_kept_not_skipped(listing@, rules@);
        assert forall|i: int| 0 <= i < names_view(children@).len() implies !skipped(
            #[trigger] names_view(children@)[i],
            rules@,
        ) by {
            let c = names_view(children@)[i];
            assert(names_view(children@).contains(c));
            assert(kept.to_multiset().count(c) > 0);
            assert(kept.contains(c));
        }
    }
    let is_hidden = name.as_str().unicode_len() > 0 && name.as_str().get_char(0) == '.';
    let content_hash = names_fingerprint(&children);
    let entry = DirEntry {
        path: copy_string(path),
        name,
        modified: now,
        content_hash,
        children,
        symlink_target: None,
        is_hidden,
        is_dir: true,
    };
    assert(entry@.children == names_view(entry.children@));
    (entry, subdirs, skipped_by)
}

/// What a worker does next.
#[derive(Debug, PartialEq, Eq)]
pub enum Task {
    /// Enumerate this directory, now claimed by the worker.
    Work(String),
    /// The queue is empty but directories are in flight: back off and ask again.
    Wait,
    /// The queue is empty and nothing is in flight: the walk is over.
    Done,
}

/// The shared state of one walk: the queue of directories to visit, the
/// claims of the directories in flight, and the directories already done.
pub struct TraversalState {
    work_queue: VecDeque<String>,
    in_progress: Vec<String>,
    finished: PathSet,
    skip_stats: StrMap,
}

impl TraversalState {
    pub closed spec fn queue(&self) -> Seq<Seq<char>> {
        self.work_queue@.map_values(|s: String| s@)
    }

    /// The directories in flight, in the order they were claimed.
    pub closed spec fn claimed(&self) -> Seq<Seq<char>> {
        names_view(self.in_progress@)
    }

    pub closed spec fn finished(&self) -> Set<Seq<char>> {
        self.finished@
    }

    /// How many subdirectories each rule has skipped so far.
    pub closed spec fn skip_counts(&self) -> Map<Seq<char>, u64> {
        self.skip_stats@
    }

    /// Ends the walk, keeping the skip counts.
    pub fn into_skip_stats(self) -> (r: StrMap)
        requires
            self.wf(),
        ensures
            r.wf(),
            r@ == self.skip_counts(),
    {
        self.skip_stats
    }

    /// The skip counts.
    pub fn skip_stats(&self) -> (r: &StrMap)
        requires
            self.wf(),
        ensures
            r.wf(),
            r@ == self.skip_counts(),
    {
        &self.skip_stats
    }

    /// Directories claimed so far: in flight or done.
    pub open spec fn seen(&self) -> Set<Seq<char>> {
        self.claimed().to_set().union(self.finished())
    }

    pub closed spec fn wf(&self) -> bool {
        &&& self.finished.wf()
        &&& self.skip_stats.wf()
        &&& self.claimed().no_duplicates()
        &&& forall|i: int| 0 <= i < self.claimed().len() ==> !self.finished@.contains(#[trigger] self.claimed()[i])
    }

    /// A walk that starts at `root`.
    pub fn new(root: String) -> (r: TraversalState)
        ensures
            r.wf(),
            r.queue() == seq![root@],
            r.claimed() == Seq::<Seq<char>>::empty(),
            r.finished() == Set::<Seq<char>>::empty(),
            r.skip_counts() == Map::<Seq<char>, u64>::empty(),
    {
        let mut work_queue: VecDeque<String> = VecDeque::new();
        work_queue.push_back(root);
        let r = TraversalState {
            work_queue,
            in_progress: Vec::new(),
            finished: PathSet::new(),
            skip_stats: StrMap::new(),
        };
        assert(r.queue() =~= seq![root@]);
        assert(r.claimed() =~= Seq::<Seq<char>>::empty());
        r
    }

    /// The number of directories in flight.
    pub fn in_flight(&self) -> (r: usize)
        ensures
            r == self.claimed().len(),
    {
        self.in_progress.len()
    }

    fn is_claimed(&self, p: &String) -> (r: bool)
        ensures
            r == self.claimed().contains(p@),
    {
        let mut i: usize = 0;
        while i < self.in_progress.len()
            invariant
                i <= self.in_progress@.len(),
                forall|j: int| 0 <= j < i ==> self.claimed()[j] != p@,
            decreases self.in_progress@.len() - i,
        {
            if self.in_progress[i] == *p {
                assert(self.claimed()[i as int] == p@);
                return true;
            }
            i += 1;
        }
        false
    }

    fn claim_position(&self, p: &String) -> (r: usize)
        requires
            self.claimed().contains(p@),
        ensures
            r < self.claimed().len(),
            self.claimed()[r as int] == p@,
            forall|j: int| 0 <= j < r ==> self.claimed()[j] != p@,
    {
        let mut i: usize = 0;
        while i < self.in_progress.len()
            invariant
                i <= self.in_progress@.len(),
                self.claimed().contains(p@),
                forall|j: int| 0 <= j < i ==> self.claimed()[j] != p@,
            decreases self.in_progress@.len() - i,
        {
            if self.in_progress[i] == *p {
                return i;
            }
            i += 1;
        }
        proof {
            let j = choose|j: int| 0 <= j < self.claimed().len() && self.claimed()[j] == p@;
        }
        0
    }

    /// Takes the next directory off the queue and claims it. Paths already
    /// claimed or done are dropped on the way: each path is claimed at most
    /// once in a walk.
    pub fn next_task(&mut self) -> (r: Task)
        requires
            old(self).wf(),
        ensures
            final(self).wf(),
            final(self).finished() == old(self).finished(),
            final(self).skip_counts() == old(self).skip_counts(),
            match r {
                Task::Work(p) => {
                    &&& !old(self).seen().contains(p@)
                    &&& final(self).claimed() == old(self).claimed().push(p@)
                    &&& exists|k: int|
                        1 <= k <= old(self).queue().len() && old(self).queue()[k - 1] == p@
                            && final(self).queue() == old(self).queue().skip(k) && forall|j: int|
                            0 <= j < k - 1 ==> old(self).seen().contains(
                                #[trigger] old(self).queue()[j],
                            )
                },
                Task::Wait => {
                    &&& final(self).queue().len() == 0
                    &&& final(self).claimed() == old(self).claimed()
                    &&& old(self).claimed().len() > 0
                    &&& forall|j: int|
                        0 <= j < old(self).queue().len() ==> old(self).seen().contains(
                            #[trigger] old(self).queue()[j],
                        )
                },
                Task::Done => {
                    &&& final(self).queue().len() == 0
                    &&& final(self).claimed() == old(self).claimed()
                    &&& old(self).claimed().len() == 0
                    &&& forall|j: int|
                        0 <= j < old(self).queue().len() ==> old(self).seen().contains(
                            #[trigger] old(self).queue()[j],
                        )
                },
            },
    {
        let ghost q0 = self.queue();
        let ghost seen0 = self.seen();
        let n0 = self.work_queue.len();
        let mut dropped: usize = 0;
        loop
            invariant
                q0.len() == n0,
                self.wf(),
                self.finished() == old(self).finished(),
                self.skip_counts() == old(self).skip_counts(),
                self.claimed() == old(self).claimed(),
                q0 == old(self).queue(),
                seen0 == old(self).seen(),
                self.seen() == seen0,
                dropped <= q0.len(),
                self.queue() == q0.skip(dropped as int),
                forall|j: int| 0 <= j < dropped ==> seen0.contains(#[trigger] q0[j]),
            decreases q0.len() - dropped,
        {
            let ghost before = self.queue();
            match self.work_queue.pop_front() {
                None => {
                    assert(before.len() == 0);
                    if self.in_progress.len() == 0 {
                        return Task::Done;
                    } else {
                        return Task::Wait;
                    }
                },
                Some(p) => {
                    assert(before[0] == p@);
                    assert(self.queue() =~= before.drop_first());
                    assert(q0[dropped as int] == p@);
                    let claimed = self.is_claimed(&p);
                    let done = self.finished.contains(&p);
                    if !claimed && !done {
                        let ghost c0 = self.claimed();
                        self.in_progress.push(copy_string(&p));
                        assert(self.claimed() =~= c0.push(p@));
                        assert(self.queue() =~= q0.skip(dropped + 1));
                        assert forall|i: int| 0 <= i < self.claimed().len() implies !self.finished@.contains(
                            #[trigger] self.claimed()[i],
                        ) by {
                            if i < c0.len() {
                                assert(self.claimed()[i] == c0[i]);
                            }
                        }
                        assert(self.claimed().no_duplicates()) by {
                            assert forall|a: int, b: int| 0 <= a < b < self.claimed().len() implies self.claimed()[a]
                                != self.claimed()[b] by {
                                if b == c0.len() {
                                    assert(c0.contains(c0[a]));
                                }
                            }
                        }
                        return Task::Work(p);
                    }
                    assert(seen0.contains(p@));
                    dropped += 1;
                    assert(self.queue() =~= q0.skip(dropped as int));
                },
            }
        }
    }

    /// Reports a claimed directory as done: its subdirectories join the end of
    /// the queue, each rule in `skipped_by` counts one more skipped
    /// subdirectory, and the claim is released. A directory that could not be
    /// enumerated is reported with no subdirectories.
    pub fn complete(&mut self, path: &String, subdirs: Vec<String>, skipped_by: &Vec<String>)
        requires
            old(self).wf(),
            old(self).claimed().contains(path@),
        ensures
            final(self).wf(),
            final(self).skip_counts() == counted(old(self).skip_counts(), names_view(skipped_by@)),
            final(self).queue() == old(self).queue() + names_view(subdirs@),
            final(self).claimed() == old(self).claimed().remove(old(self).claimed().index_of(path@)),
            final(self).finished() == old(self).finished().insert(path@),
            final(self).seen() == old(self).seen(),
    {
        self.skip_stats.count_each(skipped_by);
        let ghost q0 = self.queue();
        let ghost c0 = self.claimed();
        let mut i: usize = 0;
        while i < subdirs.len()
            invariant
                i <= subdirs@.len(),
                self.in_progress == old(self).in_progress,
                self.finished == old(self).finished,
                self.skip_stats.wf(),
                self.skip_stats@ == counted(old(self).skip_counts(), names_view(skipped_by@)),
                self.queue() == q0 + names_view(subdirs@.take(i as int)),
            decreases subdirs@.len() - i,
        {
            let ghost before = self.queue();
            let item = copy_string(&subdirs[i]);
            let ghost iv = item@;
            self.work_queue.push_back(item);
            assert(self.queue() =~= before.push(iv));
            assert(names_view(subdirs@.take(i + 1)) =~= names_view(subdirs@.take(i as int)).push(
                subdirs@[i as int]@,
            ));
            i += 1;
            assert(self.queue() =~= q0 + names_view(subdirs@.take(i as int)));
        }
        assert(subdirs@.take(i as int) =~= subdirs@);
        let k = self.claim_position(path);
        proof {
            c0.index_of_first_ensures(path@);
            assert(c0.index_of(path@) == k);
        }
        self.in_progress.remove(k);
        self.finished.insert(copy_string(path));
        assert(self.claimed() =~= c0.remove(k as int));
        proof {
            assert forall|a: int| 0 <= a < self.claimed().len() implies !self.finished@.contains(
                #[trigger] self.claimed()[a],
            ) by {
                let o = if a < k { a } else { a + 1 };
                assert(self.claimed()[a] == c0[o]);
                assert(c0[o] != c0[k as int]);
            }
            assert(self.claimed().no_duplicates()) by {
                assert forall|a: int, b: int| 0 <= a < b < self.claimed().len() implies self.claimed()[a]
                    != self.claimed()[b] by {
                    let oa = if a < k { a } else { a + 1 };
                    let ob = if b < k { b } else { b + 1 };
                    assert(self.claimed()[a] == c0[oa]);
                    assert(self.claimed()[b] == c0[ob]);
                }
            }
            assert(self.seen() =~= old(self).seen()) by {
                assert forall|x: Seq<char>| #[trigger] old(self).claimed().to_set().contains(x) implies self.seen().contains(x) by {
                    let j = choose|j: int| 0 <= j < c0.len() && c0[j] == x;
                    if j != k {
                        let o = if j < k { j } else { j - 1 };
                        assert(self.claimed()[o] == x);
                    }
                }
                assert forall|x: Seq<char>| #[trigger] self.claimed().to_set().contains(x) implies old(self).seen().contains(x) by {
                    let j = choose|j: int| 0 <= j < self.claimed().len() && self.claimed()[j] == x;
                    let o = if j < k { j } else { j + 1 };
                    assert(c0[o] == x);
                }
            }
        }
    }
}

proof fn lemma_seen_grows(seens: Seq<Set<Seq<char>>>, i: int, j: int, x: Seq<char>)
    requires
        0 <= i <= j < seens.len(),
        forall|k: int| 0 <= k < seens.len() - 1 ==> (#[trigger] seens[k]).subset_of(seens[k + 1]),
        seens[i].contains(x),
    ensures
        seens[j].contains(x),
    decreases j - i,
{
    if i < j {
        lemma_seen_grows(seens, i, j - 1, x);
        assert(seens[j - 1].subset_of(seens[j]));
    }
}

/// No path is claimed twice in a walk. Take any run of calls on one
/// `TraversalState`: `seens[i]` is `seen()` before call `i` and `claims[i]`
/// the path that call `i` claimed, if any. The contracts of `next_task` and
/// `complete` give the requirements: `seen` never shrinks, and a call that
/// claims a path claims one not yet seen and leaves it seen. Then the claimed
/// paths are pairwise different, however many times a path was queued.
pub proof fn lemma_claims_unique(seens: Seq<Set<Seq<char>>>, claims: Seq<Option<Seq<char>>>)
    requires
        seens.len() == claims.len() + 1,
        forall|k: int| 0 <= k < claims.len() ==> (#[trigger] seens[k]).subset_of(seens[k + 1]),
        forall|k: int|
            0 <= k < claims.len() && (#[trigger] claims[k]) is Some ==> !seens[k].contains(
                claims[k]->0,
            ) && seens[k + 1].contains(claims[k]->0),
    ensures
        forall|i: int, j: int|
            0 <= i < j < claims.len() && (#[trigger] claims[i]) is Some && (#[trigger] claims[j]) is Some
                ==> claims[i]->0 != claims[j]->0,
{
    assert forall|i: int, j: int|
        0 <= i < j < claims.len() && (#[trigger] claims[i]) is Some && (#[trigger] claims[j]) is Some
            implies claims[i]->0 != claims[j]->0 by {
        assert forall|k: int| 0 <= k < seens.len() - 1 implies (#[trigger] seens[k]).subset_of(
            seens[k + 1],
        ) by {
            assert(k < claims.len());
        }
        lemma_seen_grows(seens, i + 1, j, claims[i]->0);
    }
}

/// The children still to be queued for a finite tree: for each of the first
/// `n` directories of `dirs` that is not done, its number of subdirectories.
pub open spec fn owed(
    dirs: Seq<Seq<char>>,
    subdirs_of: Map<Seq<char>, Seq<Seq<char>>>,
    finished: Set<Seq<char>>,
    n: int,
) -> nat
    decreases n,
{
    if n <= 0 {
        0
    } else {
        owed(dirs, subdirs_of, finished, n - 1) + if finished.contains(dirs[n - 1]) {
            0nat
        } else {
            subdirs_of[dirs[n - 1]].len()
        }
    }
}

/// What is left of a walk over a finite tree: the queued paths plus the
/// subdirectories that directories not yet done will still queue.
pub open spec fn walk_measure(
    queue: Seq<Seq<char>>,
    dirs: Seq<Seq<char>>,
    subdirs_of: Map<Seq<char>, Seq<Seq<char>>>,
    finished: Set<Seq<char>>,
) -> nat {
    queue.len() + owed(dirs, subdirs_of, finished, dirs.len() as int)
}

proof fn lemma_owed_finish(
    dirs: Seq<Seq<char>>,
    subdirs_of: Map<Seq<char>, Seq<Seq<char>>>,
    finished: Set<Seq<char>>,
    p: Seq<char>,
    n: int,
)
    requires
        0 <= n <= dirs.len(),
        dirs.no_duplicates(),
        !finished.contains(p),
    ensures
        (exists|i: int| 0 <= i < n && dirs[i] == p) ==> owed(dirs, subdirs_of, finished.insert(p), n)
            + subdirs_of[p].len() == owed(dirs, subdirs_of, finished, n),
        !(exists|i: int| 0 <= i < n && dirs[i] == p) ==> owed(dirs, subdirs_of, finished.insert(p), n)
            == owed(dirs, subdirs_of, finished, n),
    decreases n,
{
    if n > 0 {
        lemma_owed_finish(dirs, subdirs_of, finished, p, n - 1);
        if dirs[n - 1] == p {
            assert forall|i: int| 0 <= i < n - 1 implies dirs[i] != p by {
                assert(dirs[i] != dirs[n - 1]);
            }
        } else if exists|i: int| 0 <= i < n && dirs[i] == p {
            let i = choose|i: int| 0 <= i < n && dirs[i] == p;
            assert(i < n - 1);
        }
    }
}

/// A walk over a finite tree ends. Take the tree as its directories `dirs`
/// (no repeats) and the subdirectories each one lists. A claim (`next_task`
/// giving `Work`: the queue loses at least the claimed path, nothing is done
/// anew) makes the measure smaller; completing a claimed tree directory with
/// the subdirectories it lists leaves the measure as it was. So a walk makes
/// at most `walk_measure` of its start claims, each completed once, and then
/// `next_task` can only answer `Done`.
pub proof fn lemma_walk_measure(
    dirs: Seq<Seq<char>>,
    subdirs_of: Map<Seq<char>, Seq<Seq<char>>>,
    queue: Seq<Seq<char>>,
    finished: Set<Seq<char>>,
    taken: int,
    p: Seq<char>,
)
    requires
        dirs.no_duplicates(),
        1 <= taken <= queue.len(),
        dirs.contains(p),
        !finished.contains(p),
    ensures
        walk_measure(queue.skip(taken), dirs, subdirs_of, finished) < walk_measure(
            queue,
            dirs,
            subdirs_of,
            finished,
        ),
        walk_measure(queue + subdirs_of[p], dirs, subdirs_of, finished.insert(p)) == walk_measure(
            queue,
            dirs,
            subdirs_of,
            finished,
        ),
{
    lemma_owed_finish(dirs, subdirs_of, finished, p, dirs.len() as int);
}

} // verus!
