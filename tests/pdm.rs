use pdm_tool::{
    add_end, add_entry, add_start, get_critical_tasks, propagate_backward, propagate_forward,
    ScheduleError, TaskMap, END_ID, START_ID,
};

const MEDIUM_TEST_INPUT: [&str; 12] = [
    "A 2",
    "B 3",
    "C 2",
    "D 3 A",
    "E 2 B,C",
    "F 1 A,B",
    "G 4 A",
    "H 5 C",
    "I 3 D,F",
    "J 3 E,G",
    "K 2 I",
    "L 2 K",
];

const MEDIUM_TEST_EXPECTED_EARLY_START: [(&str, u32); 14] = [
    (START_ID, 0),
    ("A", 0),
    ("B", 0),
    ("C", 0),
    ("D", 2),
    ("E", 3),
    ("F", 3),
    ("G", 2),
    ("H", 2),
    ("I", 5),
    ("J", 6),
    ("K", 8),
    ("L", 10),
    (END_ID, 12),
];

const MEDIUM_TEST_EXPECTED_EARLY_FINISH: [(&str, u32); 14] = [
    (START_ID, 0),
    ("A", 2),
    ("B", 3),
    ("C", 2),
    ("D", 5),
    ("E", 5),
    ("F", 4),
    ("G", 6),
    ("H", 7),
    ("I", 8),
    ("J", 9),
    ("K", 10),
    ("L", 12),
    (END_ID, 12),
];

const MEDIUM_TEST_EXPECTED_LATE_FINISH: [(&str, u32); 14] = [
    (START_ID, 0),
    ("A", 2),
    ("B", 4),
    ("C", 7),
    ("D", 5),
    ("E", 9),
    ("F", 5),
    ("G", 9),
    ("H", 12),
    ("I", 8),
    ("J", 12),
    ("K", 10),
    ("L", 12),
    (END_ID, 12),
];

const MEDIUM_TEST_EXPECTED_LATE_START: [(&str, u32); 14] = [
    (START_ID, 0),
    ("A", 0),
    ("B", 1),
    ("C", 5),
    ("D", 2),
    ("E", 7),
    ("F", 4),
    ("G", 5),
    ("H", 7),
    ("I", 5),
    ("J", 9),
    ("K", 8),
    ("L", 10),
    (END_ID, 12),
];

const MEDIUM_TEST_EXPECTED_CRITICAL_TASKS: [&str; 7] = [START_ID, "A", "D", "I", "K", "L", END_ID];

fn includes_str(vec: &Vec<String>, target: &str) -> bool {
    for elem in vec.iter() {
        if *elem == *target {
            return true;
        }
    }
    false
}

fn medium_map() -> TaskMap {
    let mut map = TaskMap::new();
    for line in MEDIUM_TEST_INPUT.iter() {
        add_entry(line, &mut map).unwrap();
    }
    add_start(&mut map).unwrap();
    add_end(&mut map).unwrap();
    map
}

#[test]
fn test_single_ok() {
    let mut map = TaskMap::new();
    add_entry("A 2", &mut map).unwrap();

    let e = map.get("A").unwrap();
    assert_eq!(e.id, "A".to_string());
    assert_eq!(e.early_start, 0);
    assert_eq!(e.early_finish, 0);
    assert_eq!(e.late_start, u32::MAX);
    assert_eq!(e.late_finish, u32::MAX);
    assert_eq!(e.duration, 2);
    assert_eq!(e.pred.len(), 0);
    assert_eq!(e.succ.len(), 0);
    assert_eq!(map.len(), 1);
}

#[test]
fn test_dup_node() {
    let mut map = TaskMap::new();
    add_entry("A 2", &mut map).unwrap();
    assert_eq!(add_entry("A 2", &mut map), Err(ScheduleError::DuplicateId));
}

#[test]
fn test_bad_dur_node() {
    let mut map = TaskMap::new();
    assert_eq!(add_entry("A B", &mut map), Err(ScheduleError::InvalidDuration));
}

#[test]
fn test_no_node() {
    let mut map = TaskMap::new();
    assert_eq!(add_entry("", &mut map), Err(ScheduleError::MalformedRecord));
}

#[test]
fn test_no_dur() {
    let mut map = TaskMap::new();
    assert_eq!(add_entry("A", &mut map), Err(ScheduleError::MalformedRecord));
}

#[test]
fn test_should_exist() {
    let mut map = TaskMap::new();
    assert_eq!(add_entry("A 2 B", &mut map), Err(ScheduleError::UnknownDependency));
}

#[test]
fn test_self_dep() {
    let mut map = TaskMap::new();
    assert_eq!(add_entry("A 2 A", &mut map), Err(ScheduleError::UnknownDependency));
}

#[test]
fn test_double_no_deps() {
    let mut map = TaskMap::new();
    add_entry("A 2", &mut map).unwrap();
    add_entry("B 1", &mut map).unwrap();

    let e = map.get("A").unwrap();
    assert_eq!(e.id, "A".to_string());
    assert_eq!(e.early_start, 0);
    assert_eq!(e.early_finish, 0);
    assert_eq!(e.late_start, u32::MAX);
    assert_eq!(e.late_finish, u32::MAX);
    assert_eq!(e.duration, 2);
    assert_eq!(e.pred.len(), 0);
    assert_eq!(e.succ.len(), 0);

    let e = map.get("B").unwrap();
    assert_eq!(e.id, "B".to_string());
    assert_eq!(e.early_start, 0);
    assert_eq!(e.early_finish, 0);
    assert_eq!(e.late_start, u32::MAX);
    assert_eq!(e.late_finish, u32::MAX);
    assert_eq!(e.duration, 1);
    assert_eq!(e.pred.len(), 0);
    assert_eq!(e.succ.len(), 0);

    assert_eq!(map.len(), 2);
}

#[test]
fn test_three_full_deps() {
    let mut map = TaskMap::new();
    add_entry("A 2", &mut map).unwrap();
    add_entry("B 1 A", &mut map).unwrap();
    add_entry("C 3 A,B", &mut map).unwrap();

    let e = map.get("A").unwrap();
    assert_eq!(e.id, "A".to_string());
    assert_eq!(e.early_start, 0);
    assert_eq!(e.early_finish, 0);
    assert_eq!(e.late_start, u32::MAX);
    assert_eq!(e.late_finish, u32::MAX);
    assert_eq!(e.duration, 2);
    assert_eq!(e.pred.len(), 0);
    assert_eq!(e.succ.len(), 2);
    let mut t = e.succ_ids();
    t.sort();
    assert_eq!(t, ["B", "C"]);

    let e = map.get("B").unwrap();
    assert_eq!(e.id, "B".to_string());
    assert_eq!(e.early_start, 0);
    assert_eq!(e.early_finish, 0);
    assert_eq!(e.late_start, u32::MAX);
    assert_eq!(e.late_finish, u32::MAX);
    assert_eq!(e.duration, 1);
    assert_eq!(e.pred.len(), 1);
    assert_eq!(e.succ.len(), 1);
    assert_eq!(e.pred_ids(), ["A"]);
    assert_eq!(e.succ_ids(), ["C"]);

    let e = map.get("C").unwrap();
    assert_eq!(e.id, "C".to_string());
    assert_eq!(e.early_start, 0);
    assert_eq!(e.early_finish, 0);
    assert_eq!(e.late_start, u32::MAX);
    assert_eq!(e.late_finish, u32::MAX);
    assert_eq!(e.duration, 3);
    assert_eq!(e.pred.len(), 2);
    assert_eq!(e.succ.len(), 0);
    let mut t = e.pred_ids();
    t.sort();
    assert_eq!(t, ["A", "B"]);

    assert_eq!(map.len(), 3);
}

#[test]
fn test_add_start() {
    let mut map = TaskMap::new();
    add_entry("A 2", &mut map).unwrap();
    add_start(&mut map).unwrap();
    let start = map.get(START_ID).unwrap();
    let task = map.get("A").unwrap();
    assert_eq!(start.succ.len(), 1);
    assert_eq!(start.succ_ids(), ["A"]);
    assert_eq!(task.pred.len(), 1);
    assert_eq!(task.pred_ids(), [START_ID]);
}

#[test]
fn test_add_end() {
    let mut map = TaskMap::new();
    add_entry("A 2", &mut map).unwrap();
    add_end(&mut map).unwrap();
    let task = map.get("A").unwrap();
    let end = map.get(END_ID).unwrap();
    assert_eq!(task.succ.len(), 1);
    assert_eq!(task.succ_ids(), [END_ID]);
    assert_eq!(end.pred.len(), 1);
    assert_eq!(end.pred_ids(), ["A"]);
}

#[test]
fn test_medium_propagate_forward() {
    let mut map = medium_map();
    assert_eq!(map.len(), MEDIUM_TEST_INPUT.len() + 2);

    propagate_forward(&mut map).unwrap();

    for elem in MEDIUM_TEST_EXPECTED_EARLY_START.iter() {
        let (id, expected) = *elem;
        let task = map.get(id).unwrap();
        assert!(task.early_start == expected, "{}", id);
    }

    for elem in MEDIUM_TEST_EXPECTED_EARLY_FINISH.iter() {
        let (id, expected) = *elem;
        let task = map.get(id).unwrap();
        assert!(task.early_finish == expected, "{}", id);
    }
}

#[test]
fn test_medium_propagate_backward() {
    let mut map = medium_map();
    assert_eq!(map.len(), MEDIUM_TEST_INPUT.len() + 2);

    propagate_forward(&mut map).unwrap();
    propagate_backward(&mut map);

    for elem in MEDIUM_TEST_EXPECTED_LATE_START.iter() {
        let (id, expected) = *elem;
        let task = map.get(id).unwrap();
        println!("\n\nexpected: {:?}, actual: {:?}\n", expected, task.late_start);
        assert!(task.late_start == expected, "{}", id);
    }

    for elem in MEDIUM_TEST_EXPECTED_LATE_FINISH.iter() {
        let (id, expected) = *elem;
        let task = map.get(id).unwrap();
        assert!(task.late_finish == expected, "{}", id);
    }
}

#[test]
fn test_medium_get_critical_tasks() {
    let mut map = medium_map();
    assert_eq!(map.len(), MEDIUM_TEST_INPUT.len() + 2);

    propagate_forward(&mut map).unwrap();
    propagate_backward(&mut map);
    let actual = get_critical_tasks(&map);
    assert_eq!(actual.len(), MEDIUM_TEST_EXPECTED_CRITICAL_TASKS.len());
    for expected_id in MEDIUM_TEST_EXPECTED_CRITICAL_TASKS.iter() {
        assert!(
            includes_str(&actual, expected_id),
            "Didn't find expected {:?} in actual {:?}",
            expected_id,
            actual
        );
    }
}
