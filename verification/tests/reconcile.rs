use list_sync::list_sync;
use std::cell::Cell;

#[derive(Debug, Clone, PartialEq)]
enum Event {
    Insert(u32),
    Update(u32, u32),
    Delete(u32),
}

fn same(a: &u32, b: &u32) -> bool {
    *a == *b
}

fn log_insert(log: &mut Vec<Event>, b: &u32) -> Result<(), String> {
    log.push(Event::Insert(*b));
    Ok(())
}

fn log_update(log: &mut Vec<Event>, a: &u32, b: &u32) -> Result<(), String> {
    log.push(Event::Update(*a, *b));
    Ok(())
}

fn log_delete(log: &mut Vec<Event>, a: &u32) -> Result<(), String> {
    log.push(Event::Delete(*a));
    Ok(())
}

/// Runs a reconciliation that records every invocation, and returns the record.
fn record(original: &Vec<u32>, changes: &Vec<u32>) -> Vec<Event> {
    let mut log: Vec<Event> = Vec::new();
    let res = list_sync(original, changes, &mut log, same, log_insert, log_update, log_delete);
    assert_eq!(res, Ok(()));
    log
}

#[test]
fn test_list_sync() {
    let original: Vec<usize> = vec![1, 2, 3, 4];
    let changes: Vec<usize> = vec![1, 2, 5];

    let mut output: Vec<usize> = original.clone();

    let _: Result<(), ()> = list_sync(
        &original,
        &changes,
        &mut output,
        |a, b| *a == *b,
        |c: &mut Vec<usize>, b| {
            c.push(*b);
            Ok(())
        },
        |_, _, _| Ok(()),
        |c: &mut Vec<usize>, a| {
            match c.iter().position(|x| x == a) {
                Some(p) => {
                    c.remove(p);
                },
                None => {},
            }
            Ok(())
        },
    );

    assert_eq!(output, vec![1, 2, 5]);
}

#[test]
fn sync_reports_success() {
    let original: Vec<usize> = vec![1, 2, 3, 4];
    let changes: Vec<usize> = vec![1, 2, 5];
    let mut output: Vec<usize> = original.clone();
    let res: Result<(), ()> = list_sync(
        &original,
        &changes,
        &mut output,
        |a, b| *a == *b,
        |c: &mut Vec<usize>, b| {
            c.push(*b);
            Ok(())
        },
        |_, _, _| Ok(()),
        |c: &mut Vec<usize>, a| {
            c.retain(|x| x != a);
            Ok(())
        },
    );
    assert_eq!(res, Ok(()));
    assert_eq!(output, vec![1, 2, 5]);
}

#[test]
fn records_the_whole_plan_in_order() {
    let log = record(&vec![1, 2, 3, 4], &vec![1, 2, 5]);
    assert_eq!(
        log,
        vec![
            Event::Update(1, 1),
            Event::Update(2, 2),
            Event::Delete(3),
            Event::Delete(4),
            Event::Insert(5),
        ]
    );
}

#[test]
fn only_a_change_is_one_insert() {
    let log = record(&vec![], &vec![7]);
    assert_eq!(log, vec![Event::Insert(7)]);
}

#[test]
fn only_an_original_is_one_delete() {
    let log = record(&vec![7], &vec![]);
    assert_eq!(log, vec![Event::Delete(7)]);
}

#[test]
fn equal_originals_are_each_updated() {
    let log = record(&vec![1, 1], &vec![1]);
    assert_eq!(log, vec![Event::Update(1, 1), Event::Update(1, 1)]);
}

#[test]
fn equal_changes_each_update_the_original() {
    let log = record(&vec![1], &vec![1, 1]);
    assert_eq!(log, vec![Event::Update(1, 1), Event::Update(1, 1)]);
}

#[test]
fn both_empty_invokes_nothing() {
    let calls = Cell::new(0u32);
    let mut context: Vec<Event> = vec![Event::Insert(9)];
    let res: Result<(), String> = list_sync(
        &Vec::<u32>::new(),
        &Vec::<u32>::new(),
        &mut context,
        |_, _| {
            calls.set(calls.get() + 1);
            true
        },
        |_: &mut Vec<Event>, _| Err(String::from("insert")),
        |_: &mut Vec<Event>, _, _| Err(String::from("update")),
        |_: &mut Vec<Event>, _| Err(String::from("delete")),
    );
    assert_eq!(res, Ok(()));
    assert_eq!(context, vec![Event::Insert(9)]);
    assert_eq!(calls.get(), 0);
}

#[test]
fn failing_delete_on_second_original_halts_before_inserts() {
    let original: Vec<u32> = vec![1, 2, 3];
    let changes: Vec<u32> = vec![8, 9];
    let mut log: Vec<Event> = Vec::new();
    let res = list_sync(
        &original,
        &changes,
        &mut log,
        same,
        log_insert,
        log_update,
        |log: &mut Vec<Event>, a: &u32| {
            if *a == 2 {
                Err(String::from("cannot delete 2"))
            } else {
                log.push(Event::Delete(*a));
                Ok(())
            }
        },
    );
    assert_eq!(res, Err(String::from("cannot delete 2")));
    assert_eq!(log, vec![Event::Delete(1)]);
}

#[test]
fn failing_update_halts_the_scan_of_its_original() {
    let original: Vec<u32> = vec![1, 2];
    let changes: Vec<u32> = vec![1, 1, 2, 3];
    let mut log: Vec<Event> = Vec::new();
    let asked = Cell::new(0u32);
    let res = list_sync(
        &original,
        &changes,
        &mut log,
        |a: &u32, b: &u32| {
            asked.set(asked.get() + 1);
            *a == *b
        },
        log_insert,
        |log: &mut Vec<Event>, a: &u32, b: &u32| {
            if log.len() == 1 {
                Err(format!("update {} {}", a, b))
            } else {
                log.push(Event::Update(*a, *b));
                Ok(())
            }
        },
        log_delete,
    );
    assert_eq!(res, Err(String::from("update 1 1")));
    assert_eq!(log, vec![Event::Update(1, 1)]);
    assert_eq!(asked.get(), 2);
}

#[test]
fn failing_insert_keeps_what_was_done() {
    let original: Vec<u32> = vec![1, 2];
    let changes: Vec<u32> = vec![2, 5, 6, 7];
    let mut log: Vec<Event> = Vec::new();
    let res = list_sync(
        &original,
        &changes,
        &mut log,
        same,
        |log: &mut Vec<Event>, b: &u32| {
            if *b == 6 {
                Err(6u32)
            } else {
                log.push(Event::Insert(*b));
                Ok(())
            }
        },
        |log: &mut Vec<Event>, a: &u32, b: &u32| {
            log.push(Event::Update(*a, *b));
            Ok(())
        },
        |log: &mut Vec<Event>, a: &u32| {
            log.push(Event::Delete(*a));
            Ok(())
        },
    );
    assert_eq!(res, Err(6));
    assert_eq!(log, vec![Event::Delete(1), Event::Update(2, 2), Event::Insert(5)]);
}

#[test]
fn first_error_wins() {
    let original: Vec<u32> = vec![1, 2, 3];
    let changes: Vec<u32> = vec![4];
    let mut deleted: Vec<u32> = Vec::new();
    let res: Result<(), u32> = list_sync(
        &original,
        &changes,
        &mut deleted,
        same,
        |_: &mut Vec<u32>, b: &u32| Err(100 + *b),
        |_: &mut Vec<u32>, _: &u32, _: &u32| Ok(()),
        |deleted: &mut Vec<u32>, a: &u32| {
            deleted.push(*a);
            Err(*a)
        },
    );
    assert_eq!(res, Err(1));
    assert_eq!(deleted, vec![1]);
}

#[test]
fn every_original_is_updated_or_deleted_once() {
    let original: Vec<u32> = vec![3, 1, 4, 1, 5, 9, 2, 6];
    let changes: Vec<u32> = vec![2, 7, 1, 8, 2, 8];
    let log = record(&original, &changes);
    for a in original.iter() {
        let updates = log.iter().filter(|e| matches!(e, Event::Update(x, _) if x == a)).count();
        let deletes = log.iter().filter(|e| **e == Event::Delete(*a)).count();
        let copies = original.iter().filter(|x| *x == a).count();
        let partners = changes.iter().filter(|b| *b == a).count();
        assert_eq!(updates, copies * partners);
        if partners > 0 {
            assert!(updates >= 1);
            assert_eq!(deletes, 0);
        } else {
            assert_eq!(updates, 0);
            assert_eq!(deletes, copies);
        }
    }
}

#[test]
fn every_change_is_updated_or_inserted_once() {
    let original: Vec<u32> = vec![3, 1, 4, 1, 5, 9, 2, 6];
    let changes: Vec<u32> = vec![2, 7, 1, 8, 2, 8];
    let log = record(&original, &changes);
    for b in changes.iter() {
        let updates = log.iter().filter(|e| matches!(e, Event::Update(_, x) if x == b)).count();
        let inserts = log.iter().filter(|e| **e == Event::Insert(*b)).count();
        let copies = changes.iter().filter(|x| *x == b).count();
        let partners = original.iter().filter(|a| *a == b).count();
        assert_eq!(updates, copies * partners);
        if partners > 0 {
            assert!(updates >= 1);
            assert_eq!(inserts, 0);
        } else {
            assert_eq!(updates, 0);
            assert_eq!(inserts, copies);
        }
    }
}

#[test]
fn one_update_for_each_matching_pair() {
    let original: Vec<u32> = vec![1, 1, 2];
    let changes: Vec<u32> = vec![1, 3, 1];
    let log = record(&original, &changes);
    assert_eq!(
        log,
        vec![
            Event::Update(1, 1),
            Event::Update(1, 1),
            Event::Update(1, 1),
            Event::Update(1, 1),
            Event::Delete(2),
            Event::Insert(3),
        ]
    );
}

#[test]
fn updates_follow_both_orders() {
    let original: Vec<(u32, char)> = vec![(1, 'a'), (2, 'b'), (1, 'c')];
    let changes: Vec<(u32, char)> = vec![(1, 'x'), (3, 'y'), (1, 'z'), (2, 'w')];
    let mut log: Vec<String> = Vec::new();
    let res: Result<(), ()> = list_sync(
        &original,
        &changes,
        &mut log,
        |a: &(u32, char), b: &(u32, char)| a.0 == b.0,
        |log: &mut Vec<String>, b: &(u32, char)| {
            log.push(format!("+{}", b.1));
            Ok(())
        },
        |log: &mut Vec<String>, a: &(u32, char), b: &(u32, char)| {
            log.push(format!("{}{}", a.1, b.1));
            Ok(())
        },
        |log: &mut Vec<String>, a: &(u32, char)| {
            log.push(format!("-{}", a.1));
            Ok(())
        },
    );
    assert_eq!(res, Ok(()));
    assert_eq!(log, vec!["ax", "az", "bw", "cx", "cz", "+y"]);
}

#[test]
fn lists_of_different_types() {
    let original: Vec<String> = vec![String::from("10"), String::from("x"), String::from("30")];
    let changes: Vec<i64> = vec![30, 40, 10, 40];
    let mut log: Vec<String> = Vec::new();
    let res: Result<(), ()> = list_sync(
        &original,
        &changes,
        &mut log,
        |a: &String, b: &i64| *a == b.to_string(),
        |log: &mut Vec<String>, b: &i64| {
            log.push(format!("insert {}", b));
            Ok(())
        },
        |log: &mut Vec<String>, a: &String, b: &i64| {
            log.push(format!("update {} {}", a, b));
            Ok(())
        },
        |log: &mut Vec<String>, a: &String| {
            log.push(format!("delete {}", a));
            Ok(())
        },
    );
    assert_eq!(res, Ok(()));
    assert_eq!(
        log,
        vec!["update 10 10", "delete x", "update 30 30", "insert 40", "insert 40"]
    );
}

#[test]
fn match_need_not_be_an_equivalence() {
    let original: Vec<u32> = vec![5, 1, 3];
    let changes: Vec<u32> = vec![2, 4, 0];
    let mut log: Vec<Event> = Vec::new();
    let res = list_sync(
        &original,
        &changes,
        &mut log,
        |a: &u32, b: &u32| *a < *b,
        log_insert,
        log_update,
        log_delete,
    );
    assert_eq!(res, Ok(()));
    assert_eq!(
        log,
        vec![
            Event::Delete(5),
            Event::Update(1, 2),
            Event::Update(1, 4),
            Event::Update(3, 4),
            Event::Insert(0),
        ]
    );
}

#[test]
fn predicate_is_asked_on_every_pair_in_each_pass() {
    let original: Vec<u32> = vec![1, 2, 3];
    let changes: Vec<u32> = vec![3, 4, 1, 1];
    let asked = Cell::new(0usize);
    let mut log: Vec<Event> = Vec::new();
    let res = list_sync(
        &original,
        &changes,
        &mut log,
        |a: &u32, b: &u32| {
            asked.set(asked.get() + 1);
            *a == *b
        },
        log_insert,
        log_update,
        log_delete,
    );
    assert_eq!(res, Ok(()));
    assert_eq!(asked.get(), 2 * original.len() * changes.len());
    assert_eq!(
        log,
        vec![
            Event::Update(1, 1),
            Event::Update(1, 1),
            Event::Delete(2),
            Event::Update(3, 3),
            Event::Insert(4),
        ]
    );
}

#[test]
fn lists_are_left_as_they_were() {
    let original: Vec<u32> = vec![4, 4, 2];
    let changes: Vec<u32> = vec![2, 9];
    let _ = record(&original, &changes);
    assert_eq!(original, vec![4, 4, 2]);
    assert_eq!(changes, vec![2, 9]);
}

#[test]
fn context_can_be_a_plain_counter() {
    let original: Vec<u8> = vec![1, 2, 3, 4];
    let changes: Vec<u8> = vec![3, 4, 5];
    let mut counts: (u32, u32, u32) = (0, 0, 0);
    let res: Result<(), ()> = list_sync(
        &original,
        &changes,
        &mut counts,
        |a: &u8, b: &u8| a == b,
        |c: &mut (u32, u32, u32), _: &u8| {
            c.0 += 1;
            Ok(())
        },
        |c: &mut (u32, u32, u32), _: &u8, _: &u8| {
            c.1 += 1;
            Ok(())
        },
        |c: &mut (u32, u32, u32), _: &u8| {
            c.2 += 1;
            Ok(())
        },
    );
    assert_eq!(res, Ok(()));
    assert_eq!(counts, (1, 2, 2));
}
