//! Pre-validated command objects handed to the core by the command-line
//! layer, and the computations those commands ask of the store.

use vstd::prelude::*;

use crate::store::{contains_id, id_allocated, matches_kind, ListKind, StoreError, TaskStore};
use crate::task::{entry_views, Task, TaskView};
use crate::time::Timestamp;

verus! {

/// What a listing command asks for.
pub struct ListArgs {
    /// The kind of tasks to list.
    pub kind: ListKind,
}

/// What a start command asks for: a named task, optionally backdated,
/// with its tags already split.
pub struct StartArgs {
    /// Name of the task.
    pub name: String,
    /// Start time of the task; the current time when absent.
    pub start_time: Option<Timestamp>,
    /// Tags for the task.
    pub tags: Vec<String>,
}

/// What a completion command asks for.
pub struct CompleteArgs {
    /// Task identifier.
    pub id: u32,
    /// Completion time for the task; the current time when absent.
    pub end_time: Option<Timestamp>,
}

/// What a deletion command asks for.
pub struct DeleteArgs {
    /// Task identifier.
    pub id: u32,
}

/// The entries a listing command shows: those of the asked-for kind, in
/// ascending identifier order.
pub fn handle_list(store: &TaskStore, args: &ListArgs) -> (r: Vec<(u32, Task)>)
    requires
        store.wf(),
    ensures
        entry_views(r@) == store@.entries.filter(
            |p: (u32, TaskView)| matches_kind(args.kind, p.1),
        ),
{
    store.filter(args.kind)
}

/// Where the run of characters other than commas that starts at `i` ends.
pub open spec fn segment_end(s: Seq<char>, i: int) -> int
    decreases s.len() - i,
{
    if 0 <= i < s.len() && s[i] != ',' {
        segment_end(s, i + 1)
    } else {
        i
    }
}

pub proof fn lemma_segment_end_bounds(s: Seq<char>, i: int)
    requires
        0 <= i <= s.len(),
    ensures
        i <= segment_end(s, i) <= s.len(),
        forall|t: int| i <= t < segment_end(s, i) ==> s[t] != ',',
        segment_end(s, i) < s.len() ==> s[segment_end(s, i)] == ',',
    decreases s.len() - i,
{
    if i < s.len() && s[i] != ',' {
        lemma_segment_end_bounds(s, i + 1);
    }
}

/// The comma-separated segments of `s` from position `i` on: the text up
/// to each comma, and the text after the last one. The empty text has one
/// segment, itself empty, as splitting on a separator does.
pub open spec fn split_commas_from(s: Seq<char>, i: int) -> Seq<Seq<char>>
    decreases s.len() - i,
    via split_commas_from_dec
{
    let e = segment_end(s, i);
    if !(0 <= i <= s.len()) {
        Seq::<Seq<char>>::empty()
    } else if e >= s.len() {
        seq![s.subrange(i, s.len() as int)]
    } else {
        seq![s.subrange(i, e)] + split_commas_from(s, e + 1)
    }
}

#[via_fn]
proof fn split_commas_from_dec(s: Seq<char>, i: int) {
    if 0 <= i <= s.len() {
        lemma_segment_end_bounds(s, i);
    }
}

/// The comma-separated segments of the whole of `s`.
pub open spec fn split_commas(s: Seq<char>) -> Seq<Seq<char>> {
    split_commas_from(s, 0)
}

/// Splits a comma-separated tag list into the tags, in order: the text up
/// to each comma and the text after the last one, each possibly empty.
pub fn split_tags(s: &str) -> (r: Vec<String>)
    ensures
        r.deep_view() == split_commas(s@),
{
    let chars = crate::codec::str_chars(s);
    let mut out: Vec<String> = Vec::new();
    split_tags_from(&chars, 0, &mut out);
    proof {
        assert(out.deep_view() =~= Seq::<Seq<char>>::empty() + split_commas_from(s@, 0));
    }
    out
}

/// Appends the segments of `s` from `i` on to `out`.
fn split_tags_from(s: &Vec<char>, i: usize, out: &mut Vec<String>)
    requires
        i <= s@.len(),
    ensures
        final(out).deep_view() == old(out).deep_view() + split_commas_from(s@, i as int),
    decreases s@.len() - i,
{
    proof {
        lemma_segment_end_bounds(s@, i as int);
    }
    let ghost e = segment_end(s@, i as int);
    let mut j: usize = i;
    let mut seg: Vec<char> = Vec::new();
    while j < s.len() && s[j] != ','
        invariant
            i <= j <= s@.len(),
            j <= e <= s@.len(),
            e == segment_end(s@, i as int),
            forall|t: int| i <= t < e ==> s@[t] != ',',
            e < s@.len() ==> s@[e as int] == ',',
            seg@ == s@.subrange(i as int, j as int),
        decreases s@.len() - j,
    {
        assert(j < e) by {
            if j == e {
                assert(e < s@.len());
            }
        }
        seg.push(s[j]);
        proof {
            assert(seg@ =~= s@.subrange(i as int, j + 1 as int));
        }
        j = j + 1;
    }
    assert(j == e) by {
        if j < e {
            assert(s@[j as int] != ',');
        }
    }
    let segment = crate::codec::chars_to_string(&seg);
    let ghost oldviews = out.deep_view();
    out.push(segment);
    proof {
        assert(out.deep_view() =~= oldviews + seq![s@.subrange(i as int, e)]);
    }
    if j < s.len() {
        // A comma follows: the rest of the text has further segments.
        split_tags_from(s, j + 1, out);
        proof {
            assert(out.deep_view() =~= oldviews + split_commas_from(s@, i as int));
        }
    } else {
        proof {
            assert(s@.subrange(i as int, e) =~= s@.subrange(i as int, s@.len() as int));
            assert(out.deep_view() =~= oldviews + split_commas_from(s@, i as int));
        }
    }
}

/// The store change a start command makes: a task with the given name and
/// tags, started at the given instant — or at the current time when none
/// was given — is put in under a fresh identifier, the smallest positive
/// integer not already claimed.
pub fn handle_start(store: &mut TaskStore, args: StartArgs) -> (r: &Task)
    requires
        old(store).wf(),
        old(store)@.entries.len() < 0xFFFF_FFFFu32,
        args.start_time matches Some(t) ==> t.valid(),
    ensures
        final(store).wf(),
        final(store)@.path == old(store)@.path,
        r@.name == args.name@,
        r@.tags == args.tags.deep_view(),
        r@.end_time is None,
        args.start_time matches Some(t) ==> r@.start_time == t,
        exists|id: u32, pos: int|
            {
                &&& id_allocated(old(store)@.entries, id)
                &&& 0 <= pos <= old(store)@.entries.len()
                &&& final(store)@.entries == #[trigger] old(store)@.entries.insert(
                    pos,
                    (id, r@),
                )
            },
{
    let task = match args.start_time {
        Some(st) => Task::new(args.name, args.tags, st, None),
        None => Task::create_now(args.name, args.tags),
    };
    store.add(task)
}

/// The store change a completion command makes: the task under the given
/// identifier is completed at the given instant — or at the current time
/// when none was given — overwriting any earlier completion. An absent
/// identifier is the command layer's "not found" failure, and leaves the
/// store unchanged.
pub fn handle_complete(store: &mut TaskStore, args: CompleteArgs) -> (r: Result<(), StoreError>)
    requires
        old(store).wf(),
        args.end_time matches Some(e) ==> e.valid(),
    ensures
        final(store).wf(),
        final(store)@.path == old(store)@.path,
        r is Ok <==> contains_id(old(store)@.entries, args.id),
        match r {
            Ok(_) => exists|idx: int|
                {
                    &&& 0 <= idx < old(store)@.entries.len()
                    &&& (#[trigger] old(store)@.entries[idx]).0 == args.id
                    &&& final(store)@.entries == old(store)@.entries.update(
                        idx,
                        (args.id, final(store)@.entries[idx].1),
                    )
                    &&& final(store)@.entries[idx].1.name == old(store)@.entries[idx].1.name
                    &&& final(store)@.entries[idx].1.tags == old(store)@.entries[idx].1.tags
                    &&& final(store)@.entries[idx].1.start_time == old(
                        store,
                    )@.entries[idx].1.start_time
                    &&& final(store)@.entries[idx].1.is_completed()
                    &&& (args.end_time matches Some(e) ==> final(store)@.entries[idx].1.end_time
                        == Some(e))
                },
            Err(e) => e == StoreError::NotFound && final(store)@ == old(store)@,
        },
{
    match store.get_mut(args.id) {
        None => Err(StoreError::NotFound),
        Some(task) => {
            match args.end_time {
                Some(end) => task.complete_at(end),
                None => task.complete_now(),
            }
            Ok(())
        },
    }
}

/// The store change a deletion command makes: the task under the given
/// identifier is removed and handed back. An absent identifier is the
/// command layer's "not found" failure, and leaves the store unchanged.
pub fn handle_delete(store: &mut TaskStore, args: DeleteArgs) -> (r: Result<Task, StoreError>)
    requires
        old(store).wf(),
    ensures
        final(store).wf(),
        final(store)@.path == old(store)@.path,
        r is Ok <==> contains_id(old(store)@.entries, args.id),
        match r {
            Ok(t) => exists|idx: int|
                {
                    &&& 0 <= idx < old(store)@.entries.len()
                    &&& (#[trigger] old(store)@.entries[idx]).0 == args.id
                    &&& t@ == old(store)@.entries[idx].1
                    &&& final(store)@.entries == old(store)@.entries.remove(idx)
                },
            Err(e) => e == StoreError::NotFound && final(store)@ == old(store)@,
        },
{
    match store.remove(&args.id) {
        None => Err(StoreError::NotFound),
        Some(t) => Ok(t),
    }
}

} // verus!
