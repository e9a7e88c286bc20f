use pdm_tool::record::{parse_duration, split};
use pdm_tool::{
    add_end, add_entry, add_start, get_critical_tasks, propagate_backward, propagate_forward,
    ScheduleError, Task, TaskMap, END_ID, START_ID,
};

const DIAMOND: [&str; 12] = [
    "A 2",
    "B 3",
    "C 2",
    "D 3 A",
    "E 2 B,C",
    "F 1 A,B",
    "G 4 A",
    "H 5 C",
    "I 3 D,F",
    "J 3 E,G",
    "K 2 I",
    "L 2 K",
];

fn scheduled(lines: &[&str]) -> TaskMap {
    let mut map = TaskMap::new();
    for line in lines {
        add_entry(line, &mut map).unwrap();
    }
    add_start(&mut map).unwrap();
    add_end(&mut map).unwrap();
    assert!(map.is_anchored());
    propagate_forward(&mut map).unwrap();
    propagate_backward(&mut map);
    map
}

fn times(map: &TaskMap) -> Vec<(String, u32, u32, u32, u32)> {
    map.tasks()
        .iter()
        .map(|t| (t.id.clone(), t.early_start, t.early_finish, t.late_start, t.late_finish))
        .collect()
}

#[test]
fn single_task_scenario() {
    let map = scheduled(&["A 2"]);
    let a = map.get("A").unwrap();
    assert_eq!(a.early_start, 0);
    assert_eq!(a.early_finish, 2);
    assert_eq!(get_critical_tasks(&map), ["START", "A", "END"]);
}

#[test]
fn two_task_chain_scenario() {
    let map = scheduled(&["A 2", "B 1 A"]);
    let b = map.get("B").unwrap();
    assert_eq!(b.early_start, 2);
    assert_eq!(b.early_finish, 3);
    assert!(map.get("A").unwrap().is_critical());
    assert!(b.is_critical());
    assert_eq!(get_critical_tasks(&map), ["START", "A", "B", "END"]);
}

#[test]
fn diamond_makespan_and_path() {
    let map = scheduled(&DIAMOND);
    let end = map.get(END_ID).unwrap();
    assert_eq!(end.early_finish, 12);
    assert_eq!(end.late_finish, 12);
    assert_eq!(get_critical_tasks(&map), ["START", "A", "D", "I", "K", "L", "END"]);
}

#[test]
fn spans_equal_durations() {
    let map = scheduled(&DIAMOND);
    for t in map.tasks() {
        assert_eq!(t.early_finish, t.early_start + t.duration, "{}", t.id);
        assert_eq!(t.late_finish - t.late_start, t.duration, "{}", t.id);
    }
}

#[test]
fn slack_is_never_negative() {
    let map = scheduled(&DIAMOND);
    for t in map.tasks() {
        assert!(t.early_start <= t.late_start, "{}", t.id);
        assert!(t.early_finish <= t.late_finish, "{}", t.id);
    }
}

#[test]
fn start_is_pinned_at_zero() {
    let map = scheduled(&DIAMOND);
    let start = map.get(START_ID).unwrap();
    assert_eq!(start.early_start, 0);
    assert_eq!(start.late_start, 0);
}

#[test]
fn end_finishes_with_last_sink() {
    let map = scheduled(&DIAMOND);
    let end = map.get(END_ID).unwrap();
    let mut preds = end.pred_ids();
    preds.sort();
    assert_eq!(preds, ["H", "J", "L"]);
    let latest = preds.iter().map(|p| map.get(p).unwrap().early_finish).max().unwrap();
    assert_eq!(latest, 12);
    assert_eq!(end.early_finish, latest);
    assert_eq!(end.early_finish, end.late_finish);
}

#[test]
fn critical_list_is_exactly_zero_slack() {
    let map = scheduled(&DIAMOND);
    let path = get_critical_tasks(&map);
    for t in map.tasks() {
        assert_eq!(path.contains(&t.id), t.is_critical(), "{}", t.id);
    }
    assert!(path.contains(&START_ID.to_string()));
    assert!(path.contains(&END_ID.to_string()));
}

#[test]
fn passes_are_idempotent() {
    let mut map = scheduled(&DIAMOND);
    let first = times(&map);
    propagate_forward(&mut map).unwrap();
    assert_eq!(times(&map), first);
    propagate_backward(&mut map);
    assert_eq!(times(&map), first);
}

#[test]
fn duplicate_leaves_registry_unchanged() {
    let mut map = TaskMap::new();
    add_entry("A 2", &mut map).unwrap();
    assert_eq!(add_entry("A 5", &mut map), Err(ScheduleError::DuplicateId));
    assert_eq!(map.len(), 1);
    let a = map.get("A").unwrap();
    assert_eq!(a.duration, 2);
    assert_eq!(a.pred.len(), 0);
    assert_eq!(a.succ.len(), 0);
}

#[test]
fn unknown_dependency_is_refused() {
    let mut map = TaskMap::new();
    add_entry("A 2", &mut map).unwrap();
    assert_eq!(add_entry("B 1 A,C", &mut map), Err(ScheduleError::UnknownDependency));
    assert_eq!(map.len(), 1);
    assert_eq!(map.get("A").unwrap().succ.len(), 0);
}

#[test]
fn empty_registry_wires_anchors_together() {
    let map = scheduled(&[]);
    assert_eq!(map.len(), 2);
    assert_eq!(map.get(START_ID).unwrap().succ_ids(), [END_ID]);
    assert_eq!(map.get(END_ID).unwrap().pred_ids(), [START_ID]);
    assert_eq!(map.get(END_ID).unwrap().early_finish, 0);
    assert_eq!(get_critical_tasks(&map), [START_ID, END_ID]);
}

#[test]
fn end_before_start_also_anchors() {
    let mut map = TaskMap::new();
    add_entry("A 2", &mut map).unwrap();
    add_end(&mut map).unwrap();
    assert!(!map.is_anchored());
    add_start(&mut map).unwrap();
    assert!(map.is_anchored());
    propagate_forward(&mut map).unwrap();
    propagate_backward(&mut map);
    assert_eq!(get_critical_tasks(&map), ["START", "A", "END"]);
}

#[test]
fn repeated_dependency_counts_once() {
    let mut map = TaskMap::new();
    add_entry("A 2", &mut map).unwrap();
    add_entry("B 1", &mut map).unwrap();
    add_entry("C 3 B,A,B", &mut map).unwrap();
    assert_eq!(map.get("C").unwrap().pred_ids(), ["B", "A"]);
    assert_eq!(map.get("B").unwrap().succ_ids(), ["C"]);
    assert_eq!(map.get("A").unwrap().succ_ids(), ["C"]);
}

#[test]
fn duration_field_forms() {
    assert_eq!(parse_duration("+5"), Some(5));
    assert_eq!(parse_duration("007"), Some(7));
    assert_eq!(parse_duration("4294967295"), Some(u32::MAX));
    assert_eq!(parse_duration("4294967296"), None);
    assert_eq!(parse_duration("-1"), None);
    assert_eq!(parse_duration("+"), None);
    assert_eq!(parse_duration(""), None);
    assert_eq!(parse_duration("1x"), None);
}

#[test]
fn split_keeps_empty_pieces() {
    assert_eq!(split("a,,b", ','), ["a", "", "b"]);
    assert_eq!(split("", ','), [""]);
    assert_eq!(split("A 2 ", ' '), ["A", "2", ""]);
}

#[test]
fn malformed_records() {
    let mut map = TaskMap::new();
    assert_eq!(add_entry("A 2 B C", &mut map), Err(ScheduleError::MalformedRecord));
    assert_eq!(add_entry("A  2", &mut map), Err(ScheduleError::InvalidDuration));
    assert_eq!(add_entry("A 2 ", &mut map), Err(ScheduleError::UnknownDependency));
    assert_eq!(map.len(), 0);
}

#[test]
fn finish_beyond_u32_overflows() {
    let mut map = TaskMap::new();
    add_entry("A 4294967295", &mut map).unwrap();
    add_entry("B 1 A", &mut map).unwrap();
    add_start(&mut map).unwrap();
    add_end(&mut map).unwrap();
    assert_eq!(propagate_forward(&mut map), Err(ScheduleError::TimeOverflow));
}

#[test]
fn largest_duration_fits() {
    let map = scheduled(&["A 4294967295"]);
    assert_eq!(map.get(END_ID).unwrap().early_finish, u32::MAX);
    assert_eq!(map.get("A").unwrap().late_start, 0);
}

#[test]
fn anchor_name_collisions() {
    let mut map = TaskMap::new();
    add_entry("START 1", &mut map).unwrap();
    assert_eq!(add_start(&mut map), Err(ScheduleError::DuplicateId));
    add_end(&mut map).unwrap();
    assert_eq!(add_end(&mut map), Err(ScheduleError::DuplicateId));
    assert_eq!(map.len(), 2);
}

#[test]
fn fresh_task_values() {
    let t = Task::new("X".to_string(), 4);
    assert_eq!(t.id, "X");
    assert_eq!(t.duration, 4);
    assert_eq!((t.early_start, t.early_finish), (0, 0));
    assert_eq!((t.late_start, t.late_finish), (u32::MAX, u32::MAX));
    assert!(!t.is_critical());
    let shared = Task::rc_new("Y".to_string(), 1);
    assert_eq!(shared.id, "Y");
    assert_eq!(shared.duration, 1);
    assert!(shared.pred_ids().is_empty());
}

#[test]
fn insert_by_fields() {
    let mut map = TaskMap::new();
    map.insert("A".to_string(), 2, &vec![]).unwrap();
    map.insert("B".to_string(), 3, &vec!["A".to_string()]).unwrap();
    assert_eq!(
        map.insert("A".to_string(), 1, &vec![]),
        Err(ScheduleError::DuplicateId)
    );
    assert_eq!(map.find(&"B".to_string()), Some(1));
    assert_eq!(map.get("B").unwrap().pred_ids(), ["A"]);
    assert_eq!(map.task(0).succ_ids(), ["B"]);
    assert_eq!(map.start_index(), None);
    add_start(&mut map).unwrap();
    assert_eq!(map.start_index(), Some(2));
    assert_eq!(map.end_index(), None);
}

#[test]
fn tasks_compare_by_id() {
    let mut a = Task::new("A".to_string(), 1);
    let b = Task::new("A".to_string(), 7);
    a.early_start = 3;
    assert!(a == b);
    assert!(Task::new("B".to_string(), 1) != b);
}
