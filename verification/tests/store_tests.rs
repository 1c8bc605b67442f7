use tasktrack::args::{handle_complete, handle_delete, handle_start, CompleteArgs, DeleteArgs, StartArgs};
use tasktrack::store::{ListKind, StoreError, TaskStore};
use tasktrack::task::Task;
use tasktrack::time::Timestamp;

fn ts(year: i32, month: u8, day: u8, hour: u8, minute: u8, second: u8) -> Timestamp {
    Timestamp::new(year, month, day, hour, minute, second, 0, 7200).unwrap()
}

fn running_task(name: &str) -> Task {
    Task::new(name.to_string(), Vec::new(), ts(2021, 5, 4, 8, 0, 0), None)
}

fn store() -> TaskStore {
    TaskStore::from_load("store.txt".to_string(), None).unwrap()
}

#[test]
fn sequential_adds_allocate_one_through_n() {
    let mut st = store();
    for _ in 0..5 {
        st.add(running_task("t"));
    }
    let ids: Vec<u32> = st.all().into_iter().map(|(id, _)| id).collect();
    assert_eq!(ids, vec![1, 2, 3, 4, 5]);
}

#[test]
fn add_reuses_removed_id() {
    let mut st = store();
    st.add(running_task("a"));
    st.add(running_task("b"));
    st.add(running_task("c"));
    let removed = st.remove(&2);
    assert!(removed.is_some());
    assert_eq!(removed.unwrap().name, "b");
    st.add(running_task("d"));
    let all = st.all();
    let ids: Vec<u32> = all.iter().map(|(id, _)| *id).collect();
    assert_eq!(ids, vec![1, 2, 3]);
    assert_eq!(all[1].1.name, "d");
}

#[test]
fn alloc_skips_to_smallest_gap() {
    // A store holding identifiers 1, 2 and 4 allocates 3, not 5.
    let mut st = store();
    st.add(running_task("a"));
    st.add(running_task("b"));
    st.add(running_task("c"));
    st.add(running_task("d"));
    st.remove(&3);
    st.add(running_task("e"));
    let ids: Vec<u32> = st.all().into_iter().map(|(id, _)| id).collect();
    assert_eq!(ids, vec![1, 2, 3, 4]);
    assert_eq!(st.get_by_id(3).unwrap().name, "e");
}

#[test]
fn remove_absent_leaves_store_unchanged() {
    let mut st = store();
    st.add(running_task("a"));
    st.add(running_task("b"));
    assert!(st.remove(&7).is_none());
    assert_eq!(st.len(), 2);
    let ids: Vec<u32> = st.all().into_iter().map(|(id, _)| id).collect();
    assert_eq!(ids, vec![1, 2]);
}

#[test]
fn empty_store_add_lists_one_running_entry() {
    let mut st = store();
    assert_eq!(st.len(), 0);
    st.add(Task {
        name: "write spec".to_string(),
        tags: Vec::new(),
        start_time: ts(2021, 5, 4, 8, 0, 0),
        end_time: None,
    });
    assert_eq!(st.len(), 1);
    let running = st.running_tasks();
    assert_eq!(running.len(), 1);
    assert_eq!(running[0].0, 1);
    assert_eq!(running[0].1.name, "write spec");
    assert!(st.completed_tasks().is_empty());
}

#[test]
fn completing_one_of_two_splits_the_listings() {
    let mut st = store();
    st.add(running_task("one"));
    st.add(running_task("two"));
    let t1 = ts(2021, 5, 4, 9, 30, 0);
    st.get_mut(2).unwrap().complete_at(t1);
    let completed = st.completed_tasks();
    let running = st.running_tasks();
    assert_eq!(completed.len(), 1);
    assert_eq!(completed[0].0, 2);
    assert_eq!(running.len(), 1);
    assert_eq!(running[0].0, 1);
}

#[test]
fn get_mut_absent_is_none() {
    let mut st = store();
    st.add(running_task("a"));
    assert!(st.get_mut(9).is_none());
}

#[test]
fn filter_all_returns_everything_in_order() {
    let mut st = store();
    st.add(running_task("a"));
    let mut done = running_task("b");
    done.complete_at(ts(2021, 5, 4, 9, 0, 0));
    st.add(done);
    let all = st.filter(ListKind::All);
    assert_eq!(all.len(), 2);
    assert_eq!(all[0].0, 1);
    assert_eq!(all[1].0, 2);
    assert_eq!(st.active_tasks().len(), 1);
}

#[test]
fn update_replaces_and_inserts() {
    let mut st = store();
    st.add(running_task("a"));
    st.update(1, running_task("b"));
    assert_eq!(st.get_by_id(1).unwrap().name, "b");
    assert_eq!(st.len(), 1);
    st.update(5, running_task("c"));
    assert_eq!(st.get_by_id(5).unwrap().name, "c");
    assert_eq!(st.len(), 2);
}

#[test]
fn save_then_load_reproduces_the_mapping() {
    let mut st = store();
    st.add(Task::new(
        "write spec".to_string(),
        vec!["doc".to_string(), "deep work".to_string()],
        ts(2021, 5, 4, 8, 32, 15),
        None,
    ));
    st.add(Task::new(
        "review".to_string(),
        Vec::new(),
        Timestamp::new(2020, 2, 29, 23, 59, 59, 123_456_789, -3600).unwrap(),
        Some(ts(2021, 5, 4, 9, 0, 0)),
    ));
    let text = st.save_output();
    let reloaded = TaskStore::from_load("store.txt".to_string(), Some(&text)).unwrap();
    let before = st.all();
    let after = reloaded.all();
    assert_eq!(before.len(), after.len());
    for (b, a) in before.iter().zip(after.iter()) {
        assert_eq!(b.0, a.0);
        assert_eq!(b.1.name, a.1.name);
        assert_eq!(b.1.tags, a.1.tags);
        assert_eq!(b.1.start_time, a.1.start_time);
        assert_eq!(b.1.end_time, a.1.end_time);
    }
}

#[test]
fn missing_file_loads_as_empty_store() {
    let st = TaskStore::from_load("absent.txt".to_string(), None).unwrap();
    assert_eq!(st.len(), 0);
    assert_eq!(st.save_path().as_str(), "absent.txt");
    // A subsequent save has well-formed output for the file to be created
    // from.
    let text = st.save_output();
    assert_eq!(text, "tasks 0 ");
}

#[test]
fn corrupt_text_is_rejected() {
    for bad in [
        "",
        "nonsense",
        "tasks ",
        "tasks x ",
        "tasks 1 ",
        "tasks 0 trailing",
        // Month out of range.
        "tasks 1 1 1 a 0 2021 13 4 8 0 0 0 7200 R ",
        // Identifiers out of order.
        "tasks 2 2 1 a 0 2021 5 4 8 0 0 0 7200 R 1 1 b 0 2021 5 4 8 0 0 0 7200 R ",
        // Identifier zero.
        "tasks 1 0 1 a 0 2021 5 4 8 0 0 0 7200 R ",
    ] {
        let r = TaskStore::from_load("p".to_string(), Some(bad));
        assert!(
            matches!(r, Err(StoreError::CorruptStore)),
            "accepted: {:?}",
            bad
        );
    }
}

#[test]
fn saved_text_has_the_expected_layout() {
    let mut st = store();
    st.add(Task::new(
        "ab".to_string(),
        vec!["x".to_string()],
        ts(2021, 5, 4, 8, 32, 15),
        None,
    ));
    assert_eq!(st.save_output(), "tasks 1 1 2 ab 1 1 x 2021 5 4 8 32 15 0 7200 R ");
}

#[test]
fn start_command_adds_a_running_task() {
    let mut st = store();
    let stored_name = {
        let stored = handle_start(
            &mut st,
            StartArgs {
                name: "deep work".to_string(),
                start_time: Some(ts(2021, 5, 4, 7, 45, 0)),
                tags: vec!["focus".to_string()],
            },
        );
        assert!(!stored.is_completed());
        stored.name.clone()
    };
    assert_eq!(stored_name, "deep work");
    assert_eq!(st.running_tasks().len(), 1);
}

#[test]
fn complete_command_on_absent_id_is_not_found() {
    let mut st = store();
    st.add(running_task("a"));
    let r = handle_complete(
        &mut st,
        CompleteArgs {
            id: 4,
            end_time: None,
        },
    );
    assert!(matches!(r, Err(StoreError::NotFound)));
    assert_eq!(st.running_tasks().len(), 1);
}

#[test]
fn complete_command_sets_the_end_timestamp() {
    let mut st = store();
    st.add(running_task("a"));
    let end = ts(2021, 5, 4, 9, 0, 0);
    let r = handle_complete(
        &mut st,
        CompleteArgs {
            id: 1,
            end_time: Some(end),
        },
    );
    assert!(r.is_ok());
    assert_eq!(st.get_by_id(1).unwrap().end_time, Some(end));
}

#[test]
fn delete_command_on_absent_id_is_not_found() {
    let mut st = store();
    st.add(running_task("a"));
    let r = handle_delete(&mut st, DeleteArgs { id: 2 });
    assert!(matches!(r, Err(StoreError::NotFound)));
    assert_eq!(st.len(), 1);
    let deleted = handle_delete(&mut st, DeleteArgs { id: 1 }).unwrap();
    assert_eq!(deleted.name, "a");
    assert_eq!(st.len(), 0);
}
