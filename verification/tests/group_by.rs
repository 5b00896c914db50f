use task_scheduler::group_by::GroupBy;

#[test]
fn groups_come_in_order_of_their_keys() {
    let items = vec![31i64, 12, 25, 11, 37, 20];
    let groups = items.group_by(|v| *v / 10);
    assert_eq!(
        groups,
        vec![(1, vec![12, 11]), (2, vec![25, 20]), (3, vec![31, 37])]
    );
}

#[test]
fn an_empty_list_has_no_groups() {
    let items: Vec<String> = Vec::new();
    assert!(items.group_by(|v| v.len() as i64).is_empty());
}

#[test]
fn items_need_not_be_copied() {
    let items = vec!["bb".to_string(), "a".to_string(), "cc".to_string()];
    let groups = items.group_by(|v| v.len() as i64);
    assert_eq!(
        groups,
        vec![
            (1, vec!["a".to_string()]),
            (2, vec!["bb".to_string(), "cc".to_string()])
        ]
    );
}

#[test]
fn every_item_lands_in_one_group() {
    let items: Vec<i64> = (0..100).map(|i| (i * 37) % 101 - 50).collect();
    let groups = items.clone().group_by(|v| v.rem_euclid(7));
    let mut seen: Vec<i64> = Vec::new();
    for (key, members) in &groups {
        assert!(!members.is_empty());
        for member in members {
            assert_eq!(member.rem_euclid(7), *key);
            seen.push(*member);
        }
    }
    let mut all = items;
    all.sort();
    seen.sort();
    assert_eq!(seen, all);
    assert_eq!(groups.len(), 7);
}
