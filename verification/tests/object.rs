use khel::object::{Group, Groups};

fn group(ids: &[u32]) -> Group {
    Group { vec: ids.to_vec() }
}

fn sorted(mut names: Vec<String>) -> Vec<String> {
    names.sort();
    names
}

#[test]
fn group_insert_and_remove() {
    let mut g = Group::default();
    assert_eq!(g.size(), 0);
    g.insert(3);
    g.insert(5);
    g.insert(3);
    assert_eq!(g.vec, vec![3, 5, 3]);
    assert_eq!(g.size(), 3);
    g.remove(3);
    assert_eq!(g.vec, vec![5]);
    g.remove(7);
    assert_eq!(g.vec, vec![5]);
    g.remove(5);
    assert_eq!(g.size(), 0);
}

#[test]
fn group_contains() {
    let g = group(&[1, 2, 4]);
    assert!(g.contains(1));
    assert!(g.contains(4));
    assert!(!g.contains(3));
    assert!(!Group::default().contains(0));
}

#[test]
fn group_for_each_id() {
    let g = group(&[4, 2, 9]);
    let mut seen = Vec::new();
    g.for_each_id(|id| seen.push(id));
    assert_eq!(seen, vec![4, 2, 9]);
}

#[test]
fn group_for_each_id_enumerated() {
    let mut g = group(&[4, 2, 9]);
    let seen = std::cell::RefCell::new(Vec::new());
    g.for_each_id_enumerated(|index, id| seen.borrow_mut().push((index, id)));
    assert_eq!(seen.into_inner(), vec![(0, 4), (1, 2), (2, 9)]);
    assert_eq!(g.vec, vec![4, 2, 9]);
}

#[test]
fn groups_insert_and_get() {
    let mut groups = Groups::default();
    assert!(!groups.contains(&"hit_objects".to_string()));
    groups.insert("hit_objects".to_string(), vec![]);
    groups.insert("timing_lines".to_string(), vec![7, 8]);
    assert!(groups.contains(&"hit_objects".to_string()));
    assert_eq!(groups.get("hit_objects".to_string()).vec, Vec::<u32>::new());
    assert_eq!(groups.get("timing_lines".to_string()).vec, vec![7, 8]);
    groups.insert("timing_lines".to_string(), vec![1]);
    assert_eq!(groups.get("timing_lines".to_string()).vec, vec![1]);
    assert_eq!(groups.get("hit_objects".to_string()).size(), 0);
}

#[test]
fn groups_change_one_group() {
    let mut groups = Groups::default();
    groups.insert("a".to_string(), vec![1, 2]);
    groups.insert("b".to_string(), vec![2, 3]);
    groups.insert_into_group("a".to_string(), 9);
    assert_eq!(groups.get("a".to_string()).vec, vec![1, 2, 9]);
    assert_eq!(groups.get("b".to_string()).vec, vec![2, 3]);
    groups.remove_from_group("b".to_string(), 2);
    assert_eq!(groups.get("a".to_string()).vec, vec![1, 2, 9]);
    assert_eq!(groups.get("b".to_string()).vec, vec![3]);
    groups.get_mut("b".to_string()).insert(4);
    assert_eq!(groups.get("b".to_string()).vec, vec![3, 4]);
    assert_eq!(groups.get("a".to_string()).vec, vec![1, 2, 9]);
}

#[test]
fn groups_remove_from_all() {
    let mut groups = Groups::default();
    groups.insert("a".to_string(), vec![1, 2, 1]);
    groups.insert("b".to_string(), vec![2, 3]);
    groups.insert("c".to_string(), vec![1]);
    groups.remove_from_all_groups(1);
    assert_eq!(groups.get("a".to_string()).vec, vec![2]);
    assert_eq!(groups.get("b".to_string()).vec, vec![2, 3]);
    assert_eq!(groups.get("c".to_string()).vec, Vec::<u32>::new());
    assert!(groups.contains(&"c".to_string()));
}

#[test]
fn groups_names() {
    let mut groups = Groups::default();
    groups.insert("a".to_string(), vec![1, 2]);
    groups.insert("b".to_string(), vec![2, 3]);
    groups.insert("c".to_string(), vec![]);
    assert_eq!(sorted(groups.names(2)), vec!["a", "b"]);
    assert_eq!(sorted(groups.names(3)), vec!["b"]);
    assert_eq!(sorted(groups.names(4)), Vec::<String>::new());
    groups.insert_into_group("a".to_string(), 2);
    assert_eq!(sorted(groups.names(2)), vec!["a", "b"]);
}

#[test]
fn groups_clone() {
    let mut groups = Groups::default();
    groups.insert("a".to_string(), vec![1, 2]);
    let mut copy = groups.clone();
    copy.insert_into_group("a".to_string(), 3);
    assert_eq!(groups.get("a".to_string()).vec, vec![1, 2]);
    assert_eq!(copy.get("a".to_string()).vec, vec![1, 2, 3]);
}
