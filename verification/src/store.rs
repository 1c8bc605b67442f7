//! The task store: an identifier-keyed collection of tasks, ordered by
//! identifier, with smallest-unclaimed-slot identifier allocation and
//! query operations. The store is bound at construction to the path it will
//! later be saved to.

use vstd::pervasive::VecAdditionalExecFns;
use vstd::prelude::*;

use crate::codec::{
    chars_to_string, enc_store, lemma_parse_store_wf, lemma_store_round_trip, parse_store,
    parse_store_exec, render_store, str_chars,
};
use crate::task::{entry_views, Task, TaskView};

verus! {

/// The mathematical content of a [`TaskStore`]: the identifier-to-task
/// mapping as a sequence of pairs in ascending identifier order, and the
/// path the store is bound to.
pub ghost struct StoreView {
    pub entries: Seq<(u32, TaskView)>,
    pub path: Seq<char>,
}

/// The kind of listing a query asks for.
#[derive(Clone, Copy, PartialEq, Eq, Structural, Debug)]
pub enum ListKind {
    All,
    Running,
    Completed,
}

/// Whether a task belongs in a listing of the given kind.
pub open spec fn matches_kind(kind: ListKind, t: TaskView) -> bool {
    match kind {
        ListKind::All => true,
        ListKind::Running => !t.is_completed(),
        ListKind::Completed => t.is_completed(),
    }
}

/// Whether some entry of `s` carries the identifier `id`.
pub open spec fn contains_id(s: Seq<(u32, TaskView)>, id: u32) -> bool {
    exists|i: int| 0 <= i < s.len() && s[i].0 == id
}

/// The entries are in strictly ascending identifier order, every
/// identifier is positive, and every task is well formed.
pub open spec fn entries_wf(s: Seq<(u32, TaskView)>) -> bool {
    &&& forall|i: int, j: int| 0 <= i < j < s.len() ==> s[i].0 < s[j].0
    &&& forall|i: int| 0 <= i < s.len() ==> (#[trigger] s[i]).0 >= 1
    &&& forall|i: int| 0 <= i < s.len() ==> (#[trigger] s[i]).1.wf()
}

/// `id` is the identifier the smallest-unclaimed-slot policy assigns
/// against the entries `s`: the least positive integer not yet present.
pub open spec fn id_allocated(s: Seq<(u32, TaskView)>, id: u32) -> bool {
    &&& id >= 1
    &&& !contains_id(s, id)
    &&& forall|k: u32| 1 <= k < id ==> contains_id(s, k)
}

/// The identifier-keyed collection of tasks, bound to the file path it is
/// saved to.
#[derive(Debug)]
pub struct TaskStore {
    tasks: Vec<(u32, Task)>,
    save_path: String,
}

impl View for TaskStore {
    type V = StoreView;

    closed spec fn view(&self) -> StoreView {
        StoreView { entries: entry_views(self.tasks@), path: self.save_path@ }
    }
}

impl TaskStore {
    /// The store's entries are sorted, uniquely keyed and well formed.
    pub open spec fn wf(&self) -> bool {
        entries_wf(self@.entries)
    }

    /// A new, empty store bound to `path`.
    pub fn empty(path: String) -> (r: TaskStore)
        ensures
            r@.entries == Seq::<(u32, TaskView)>::empty(),
            r@.path == path@,
            r.wf(),
    {
        let r = TaskStore { tasks: Vec::new(), save_path: path };
        proof {
            assert(r@.entries =~= Seq::<(u32, TaskView)>::empty());
        }
        r
    }

    /// The path this store was bound to at construction, used by every save.
    pub fn save_path(&self) -> (r: &String)
        ensures
            r@ == self@.path,
    {
        &self.save_path
    }

    /// How many tasks the store holds.
    pub fn len(&self) -> (r: usize)
        ensures
            r == self@.entries.len(),
    {
        self.tasks.len()
    }

    /// Inserts `task` under a fresh identifier — the smallest positive
    /// integer not already claimed, so identifiers vacated by [`remove`]
    /// are reused — and returns a reference to the stored task.
    ///
    /// [`remove`]: TaskStore::remove
    pub fn add(&mut self, task: Task) -> (r: &Task)
        requires
            old(self).wf(),
            task.wf(),
            old(self)@.entries.len() < 0xFFFF_FFFFu32,
        ensures
            final(self).wf(),
            final(self)@.path == old(self)@.path,
            r@ == task@,
            exists|id: u32, pos: int|
                {
                    &&& id_allocated(old(self)@.entries, id)
                    &&& 0 <= pos <= old(self)@.entries.len()
                    &&& final(self)@.entries == #[trigger] old(self)@.entries.insert(
                        pos,
                        (id, task@),
                    )
                },
    {
        let ghost olds = self@.entries;
        let n = self.tasks.len();
        // Find the smallest unclaimed identifier by one pass over the
        // ascending identifiers.
        let mut acc: u32 = 1;
        let mut i: usize = 0;
        while i < n
            invariant
                n == olds.len(),
                olds.len() < 0xFFFF_FFFFu32,
                self@.entries == olds,
                entries_wf(olds),
                0 <= i <= n,
                1 <= acc,
                acc as int <= i + 1,
                forall|k: u32| 1 <= k < acc ==> contains_id(olds, k),
                forall|j: int| 0 <= j < i ==> olds[j].0 != acc,
                i < n ==> acc <= olds[i as int].0,
            decreases n - i,
        {
            if self.tasks[i].0 == acc {
                proof {
                    assert(olds[i as int].0 == acc);
                    assert(contains_id(olds, acc));
                    assert(forall|j: int| 0 <= j < i ==> olds[j].0 < olds[i as int].0);
                    assert(i + 1 < n ==> olds[i as int].0 < olds[i + 1].0);
                }
                acc = acc + 1;
            } else {
                proof {
                    assert(acc < olds[i as int].0);
                    assert(i + 1 < n ==> olds[i as int].0 < olds[i + 1].0);
                }
            }
            i = i + 1;
        }
        let new_id = acc;
        proof {
            assert(!contains_id(olds, new_id)) by {
                assert(forall|j: int| 0 <= j < olds.len() ==> olds[j].0 != new_id);
            }
            assert(id_allocated(olds, new_id));
        }
        // Find the position that keeps the identifiers ascending.
        let mut pos: usize = 0;
        while pos < n && self.tasks[pos].0 < new_id
            invariant
                n == olds.len(),
                self@.entries == olds,
                entries_wf(olds),
                0 <= pos <= n,
                forall|j: int| 0 <= j < pos ==> olds[j].0 < new_id,
            decreases n - pos,
        {
            pos = pos + 1;
        }
        proof {
            if pos < olds.len() {
                assert(olds[pos as int].0 != new_id);
                assert(olds[pos as int].0 > new_id);
            }
        }
        self.tasks.insert(pos, (new_id, task));
        proof {
            assert(self@.entries =~= olds.insert(pos as int, (new_id, task@)));
            assert forall|i2: int, j2: int|
                0 <= i2 < j2 < self@.entries.len() implies self@.entries[i2].0
                < self@.entries[j2].0 by {
                assert(forall|j: int|
                    pos < j < olds.len() + 1 ==> (#[trigger] self@.entries[j]).0 == olds[j - 1].0
                        && olds[j - 1].0 > new_id);
            }
        }
        &self.tasks[pos].1
    }

    /// Removes and returns the task stored under `id`; on an absent
    /// identifier the store is left unchanged and `None` is returned.
    #[verifier::loop_isolation(false)]
    pub fn remove(&mut self, id: &u32) -> (r: Option<Task>)
        requires
            old(self).wf(),
        ensures
            final(self).wf(),
            final(self)@.path == old(self)@.path,
            r is Some <==> contains_id(old(self)@.entries, *id),
            match r {
                Some(t) => exists|idx: int|
                    {
                        &&& 0 <= idx < old(self)@.entries.len()
                        &&& (#[trigger] old(self)@.entries[idx]).0 == *id
                        &&& t@ == old(self)@.entries[idx].1
                        &&& final(self)@.entries == old(self)@.entries.remove(idx)
                    },
                None => final(self)@ == old(self)@,
            },
    {
        let ghost olds = self@.entries;
        let n = self.tasks.len();
        let mut i: usize = 0;
        while i < n
            invariant
                n == olds.len(),
                self@.entries == olds,
                self@.path == old(self)@.path,
                entries_wf(olds),
                0 <= i <= n,
                forall|j: int| 0 <= j < i ==> olds[j].0 != *id,
            decreases n - i,
        {
            if self.tasks[i].0 == *id {
                proof {
                    assert(olds[i as int].0 == *id);
                    assert(contains_id(olds, *id));
                }
                let ghost oldtasks = self.tasks@;
                let (_k, t) = self.tasks.remove(i);
                proof {
                    assert(self@.entries =~= olds.remove(i as int));
                    assert(t == oldtasks[i as int].1);
                    assert(olds[i as int] == (oldtasks[i as int].0, oldtasks[i as int].1@));
                    assert(t@ == olds[i as int].1);
                }
                return Some(t);
            }
            i = i + 1;
        }
        proof {
            assert(!contains_id(olds, *id)) by {
                assert(forall|j: int| 0 <= j < olds.len() ==> olds[j].0 != *id);
            }
        }
        None
    }

    /// A shared reference to the task stored under `id`, if any.
    #[verifier::loop_isolation(false)]
    pub fn get_by_id(&self, id: u32) -> (r: Option<&Task>)
        requires
            self.wf(),
        ensures
            r is Some <==> contains_id(self@.entries, id),
            match r {
                Some(t) => exists|idx: int|
                    {
                        &&& 0 <= idx < self@.entries.len()
                        &&& (#[trigger] self@.entries[idx]).0 == id
                        &&& t@ == self@.entries[idx].1
                    },
                None => true,
            },
    {
        let n = self.tasks.len();
        let mut i: usize = 0;
        while i < n
            invariant
                n == self@.entries.len(),
                0 <= i <= n,
                forall|j: int| 0 <= j < i ==> self@.entries[j].0 != id,
            decreases n - i,
        {
            if self.tasks[i].0 == id {
                proof {
                    assert(self@.entries[i as int].0 == id);
                    assert(contains_id(self@.entries, id));
                }
                return Some(&self.tasks[i].1);
            }
            i = i + 1;
        }
        proof {
            assert(!contains_id(self@.entries, id)) by {
                assert(forall|j: int|
                    0 <= j < self@.entries.len() ==> self@.entries[j].0 != id);
            }
        }
        None
    }

    /// A mutable reference to the task stored under `id`, if any: the
    /// caller's writes through it become the stored task. On an absent
    /// identifier the store is left unchanged.
    #[verifier::loop_isolation(false)]
    pub fn get_mut<'a>(&'a mut self, id: u32) -> (r: Option<&'a mut Task>)
        requires
            old(self).wf(),
        ensures
            r is Some <==> contains_id(old(self)@.entries, id),
            final(self)@.path == old(self)@.path,
            match r {
                Some(t) => exists|idx: int|
                    {
                        &&& 0 <= idx < old(self)@.entries.len()
                        &&& (#[trigger] old(self)@.entries[idx]).0 == id
                        &&& (*t)@ == old(self)@.entries[idx].1
                        &&& final(self)@.entries =~= old(self)@.entries.update(
                            idx,
                            (id, (*final(t))@),
                        )
                    },
                None => final(self)@ == old(self)@,
            },
    {
        let ghost olds = self@.entries;
        let n = self.tasks.len();
        let mut i: usize = 0;
        while i < n
            invariant
                n == olds.len(),
                self@.entries == olds,
                self@.path == old(self)@.path,
                0 <= i <= n,
                forall|j: int| 0 <= j < i ==> olds[j].0 != id,
            decreases n - i,
        {
            if self.tasks[i].0 == id {
                proof {
                    assert(olds[i as int].0 == id);
                    assert(contains_id(olds, id));
                }
                return Some(&mut self.tasks[i].1);
            }
            i = i + 1;
        }
        proof {
            assert(!contains_id(olds, id)) by {
                assert(forall|j: int| 0 <= j < olds.len() ==> olds[j].0 != id);
            }
        }
        None
    }

    /// Stores `task` under the identifier `id`, replacing what was there or
    /// inserting a new entry, and returns a reference to the stored task.
    #[verifier::loop_isolation(false)]
    pub fn update(&mut self, id: u32, task: Task) -> (r: &Task)
        requires
            old(self).wf(),
            task.wf(),
            id >= 1,
        ensures
            final(self).wf(),
            final(self)@.path == old(self)@.path,
            r@ == task@,
            contains_id(old(self)@.entries, id) ==> exists|idx: int|
                {
                    &&& 0 <= idx < old(self)@.entries.len()
                    &&& (#[trigger] old(self)@.entries[idx]).0 == id
                    &&& final(self)@.entries == old(self)@.entries.update(idx, (id, task@))
                },
            !contains_id(old(self)@.entries, id) ==> exists|pos: int|
                {
                    &&& 0 <= pos <= old(self)@.entries.len()
                    &&& final(self)@.entries == #[trigger] old(self)@.entries.insert(
                        pos,
                        (id, task@),
                    )
                },
    {
        let ghost olds = self@.entries;
        let n = self.tasks.len();
        let mut pos: usize = 0;
        while pos < n && self.tasks[pos].0 < id
            invariant
                n == olds.len(),
                self@.entries == olds,
                self@.path == old(self)@.path,
                0 <= pos <= n,
                forall|j: int| 0 <= j < pos ==> olds[j].0 < id,
            decreases n - pos,
        {
            pos = pos + 1;
        }
        if pos < n && self.tasks[pos].0 == id {
            proof {
                assert(olds[pos as int].0 == id);
                assert(contains_id(olds, id));
            }
            self.tasks.set(pos, (id, task));
            proof {
                assert(self@.entries =~= olds.update(pos as int, (id, task@)));
            }
            &self.tasks[pos].1
        } else {
            proof {
                assert(!contains_id(olds, id)) by {
                    assert forall|j: int| 0 <= j < olds.len() implies olds[j].0 != id by {
                        if j < pos {
                        } else {
                            assert(olds[pos as int].0 > id);
                            assert(olds[j].0 >= olds[pos as int].0);
                        }
                    }
                }
            }
            self.tasks.insert(pos, (id, task));
            proof {
                assert(self@.entries =~= olds.insert(pos as int, (id, task@)));
                assert forall|i2: int, j2: int|
                    0 <= i2 < j2 < self@.entries.len() implies self@.entries[i2].0
                    < self@.entries[j2].0 by {
                    assert(forall|j: int|
                        pos < j < olds.len() + 1 ==> (#[trigger] self@.entries[j]).0 == olds[j
                            - 1].0 && olds[j - 1].0 > id);
                }
            }
            &self.tasks[pos].1
        }
    }

    /// All entries whose task belongs in a listing of kind `kind`, in
    /// ascending identifier order.
    #[verifier::loop_isolation(false)]
    pub fn filter(&self, kind: ListKind) -> (r: Vec<(u32, Task)>)
        requires
            self.wf(),
        ensures
            entry_views(r@) == self@.entries.filter(
                |p: (u32, TaskView)| matches_kind(kind, p.1),
            ),
    {
        let ghost pred = |p: (u32, TaskView)| matches_kind(kind, p.1);
        let n = self.tasks.len();
        let mut out: Vec<(u32, Task)> = Vec::new();
        let mut i: usize = 0;
        proof {
            assert(entry_views(out@) =~= Seq::<(u32, TaskView)>::empty());
            assert(self@.entries.subrange(0, 0) =~= Seq::<(u32, TaskView)>::empty());
            reveal(Seq::filter);
        }
        while i < n
            invariant
                n == self@.entries.len(),
                0 <= i <= n,
                entry_views(out@) == self@.entries.subrange(0, i as int).filter(pred),
                pred == (|p: (u32, TaskView)| matches_kind(kind, p.1)),
            decreases n - i,
        {
            let keep = match kind {
                ListKind::All => true,
                ListKind::Running => !self.tasks[i].1.is_completed(),
                ListKind::Completed => self.tasks[i].1.is_completed(),
            };
            let ghost pre_out = entry_views(out@);
            if keep {
                let t = self.tasks[i].1.clone();
                out.push((self.tasks[i].0, t));
                proof {
                    assert(entry_views(out@) =~= pre_out.push(self@.entries[i as int]));
                }
            }
            proof {
                reveal(Seq::filter);
                let sub1 = self@.entries.subrange(0, i + 1);
                assert(sub1.drop_last() =~= self@.entries.subrange(0, i as int));
                assert(sub1.last() == self@.entries[i as int]);
                assert(pred(self@.entries[i as int]) == keep);
                assert(entry_views(out@) == sub1.filter(pred));
            }
            i = i + 1;
        }
        proof {
            assert(self@.entries.subrange(0, n as int) =~= self@.entries);
        }
        out
    }

    /// Every entry, in ascending identifier order.
    pub fn all(&self) -> (r: Vec<(u32, Task)>)
        requires
            self.wf(),
        ensures
            entry_views(r@) == self@.entries,
    {
        let r = self.filter(ListKind::All);
        proof {
            lemma_filter_all_keeps_everything(self@.entries);
        }
        r
    }

    /// The entries whose task is still running, in ascending identifier
    /// order.
    pub fn running_tasks(&self) -> (r: Vec<(u32, Task)>)
        requires
            self.wf(),
        ensures
            entry_views(r@) == self@.entries.filter(
                |p: (u32, TaskView)| matches_kind(ListKind::Running, p.1),
            ),
    {
        self.filter(ListKind::Running)
    }

    /// The entries whose task is completed, in ascending identifier order.
    pub fn completed_tasks(&self) -> (r: Vec<(u32, Task)>)
        requires
            self.wf(),
        ensures
            entry_views(r@) == self@.entries.filter(
                |p: (u32, TaskView)| matches_kind(ListKind::Completed, p.1),
            ),
    {
        self.filter(ListKind::Completed)
    }

    /// The entries whose task is still running, in ascending identifier
    /// order.
    pub fn active_tasks(&self) -> (r: Vec<(u32, Task)>)
        requires
            self.wf(),
        ensures
            entry_views(r@) == self@.entries.filter(
                |p: (u32, TaskView)| matches_kind(ListKind::Running, p.1),
            ),
    {
        self.filter(ListKind::Running)
    }
}

/// The path a store built without one is bound to: the empty path.
pub fn default_path() -> (r: String)
    ensures
        r@ == Seq::<char>::empty(),
{
    String::new()
}

/// The smallest-unclaimed-slot policy determines the identifier uniquely:
/// two identifiers both allocated against the same entries are equal.
pub proof fn lemma_allocated_id_unique(s: Seq<(u32, TaskView)>, id1: u32, id2: u32)
    requires
        id_allocated(s, id1),
        id_allocated(s, id2),
    ensures
        id1 == id2,
{
    if id1 < id2 {
        assert(contains_id(s, id1));
    }
    if id2 < id1 {
        assert(contains_id(s, id2));
    }
}

/// With no removals, allocation counts upward: on a store whose
/// identifiers are exactly `1..=n`, the allocated identifier is `n + 1`.
/// Applied after each of a sequence of `add` calls starting from the empty
/// store, it shows the calls receive exactly the identifiers 1, 2, 3, ...
/// in order.
pub proof fn lemma_alloc_extends_compact(s: Seq<(u32, TaskView)>, n: u32, id: u32)
    requires
        forall|k: u32| 1 <= k <= n ==> contains_id(s, k),
        forall|i: int| 0 <= i < s.len() ==> 1 <= (#[trigger] s[i]).0 <= n,
        id_allocated(s, id),
        n < 0xFFFF_FFFFu32,
    ensures
        id == n + 1,
{
    if id <= n {
        assert(contains_id(s, id));
    }
    if id > n + 1 {
        assert(contains_id(s, (n + 1) as u32));
    }
}

/// The identifier vacated by a removal is the one handed out next: on a
/// store whose identifiers are exactly `1..=n` except `id0`, the allocated
/// identifier is `id0` again.
pub proof fn lemma_alloc_reuses_removed(s: Seq<(u32, TaskView)>, n: u32, id0: u32, id: u32)
    requires
        1 <= id0 <= n,
        forall|k: u32| 1 <= k <= n && k != id0 ==> contains_id(s, k),
        forall|i: int| 0 <= i < s.len() ==> 1 <= (#[trigger] s[i]).0 <= n && s[i].0 != id0,
        id_allocated(s, id),
    ensures
        id == id0,
{
    if id < id0 {
        assert(contains_id(s, id));
    }
    if id > id0 {
        assert(contains_id(s, id0));
    }
}

/// Why loading or saving a store can fail.
#[derive(Clone, Copy, PartialEq, Eq, Structural, Debug)]
pub enum StoreError {
    /// A file system failure other than a missing file on load.
    Io,
    /// The store file exists but does not hold a store.
    CorruptStore,
    /// The requested task identifier is not in the store.
    NotFound,
}

impl TaskStore {
    /// Builds the store from what was read at `path`. No file yet (`None`)
    /// gives a new empty store — a first run succeeds with no tasks. Text
    /// that parses as a store file gives its entries. Any other text is a
    /// corrupt store. Either way the store is bound to `path`.
    pub fn from_load(path: String, contents: Option<&str>) -> (r: Result<TaskStore, StoreError>)
        ensures
            match contents {
                None => r matches Ok(st) && st@.entries == Seq::<(u32, TaskView)>::empty()
                    && st@.path == path@ && st.wf(),
                Some(c) => match parse_store(c@) {
                    Some(v) => r matches Ok(st) && st@.entries == v && st@.path == path@
                        && st.wf(),
                    None => r matches Err(e) && e == StoreError::CorruptStore,
                },
            },
    {
        match contents {
            None => Ok(TaskStore::empty(path)),
            Some(c) => {
                let chars = str_chars(c);
                match parse_store_exec(&chars) {
                    None => Err(StoreError::CorruptStore),
                    Some(v) => {
                        let st = TaskStore { tasks: v, save_path: path };
                        proof {
                            lemma_parse_store_wf(c@);
                        }
                        Ok(st)
                    },
                }
            },
        }
    }

    /// The text a save writes for this store: the full current mapping in
    /// the persisted layout. The bound path is not part of the text.
    pub fn save_output(&self) -> (r: String)
        requires
            self.wf(),
        ensures
            r@ == enc_store(self@.entries),
    {
        let chars = render_store(&self.tasks);
        chars_to_string(&chars)
    }
}

/// The round-trip law of the store file: the text that `save_output`
/// renders for a well-formed store parses back — as `from_load` reads it —
/// to exactly the same entries: the same identifiers, names, tags and
/// start and end timestamps.
pub proof fn lemma_save_then_load(st: StoreView)
    requires
        entries_wf(st.entries),
    ensures
        parse_store(enc_store(st.entries)) == Some(st.entries),
{
    lemma_store_round_trip(st.entries);
}

/// The listing kind that accepts everything filters nothing out.
pub proof fn lemma_filter_all_keeps_everything(s: Seq<(u32, TaskView)>)
    ensures
        s.filter(|p: (u32, TaskView)| matches_kind(ListKind::All, p.1)) == s,
    decreases s.len(),
{
    reveal(Seq::filter);
    if s.len() > 0 {
        lemma_filter_all_keeps_everything(s.drop_last());
        assert(s.drop_last().push(s.last()) =~= s);
    }
}

} // verus!
