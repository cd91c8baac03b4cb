use redr::order::{sorted_order, Ascending, DeepestFirst, Descending, Ranked};
use redr::path::{copy_bytes, copy_names, same_bytes, DirPath};

fn path(names: &[&str]) -> DirPath {
    DirPath {
        names: names.iter().map(|n| n.as_bytes().to_vec()).collect(),
    }
}

#[test]
fn sorting_keeps_the_order_of_ties() {
    let keys: Vec<Descending> = [2, 5, 2, 9, 5].iter().map(|n| Descending(*n)).collect();
    assert_eq!(sorted_order(&keys), vec![3, 1, 4, 0, 2]);
    let keys: Vec<Ascending> = [2, -5, 2, 0].iter().map(|n| Ascending(*n)).collect();
    assert_eq!(sorted_order(&keys), vec![1, 3, 0, 2]);
    let keys: Vec<DeepestFirst> = [1, 1, 3].iter().map(|n| DeepestFirst(*n)).collect();
    assert_eq!(sorted_order(&keys), vec![2, 0, 1]);
    assert!(sorted_order(&Vec::<Ascending>::new()).is_empty());
}

#[test]
fn paths_are_ordered_component_by_component() {
    let keys = vec![
        path(&["a.b"]),
        path(&["a", "z"]),
        path(&["a"]),
        path(&[]),
        path(&["B"]),
        path(&["a", "b", "c"]),
    ];
    assert_eq!(sorted_order(&keys), vec![3, 4, 2, 5, 1, 0]);
    assert!(path(&["a"]).may_precede(&path(&["a"])));
    assert!(!path(&["b"]).may_precede(&path(&["a", "z"])));
}

#[test]
fn places_of_paths() {
    let p = path(&["a", "b"]);
    assert!(p.is_within(&path(&["a"])));
    assert!(p.is_within(&p));
    assert!(p.is_within(&path(&[])));
    assert!(!p.is_within(&path(&["a", "b", "c"])));
    assert!(!path(&["ab"]).is_within(&path(&["a"])));
    assert!(p.same(&path(&["a", "b"])));
    assert!(!p.same(&path(&["a"])));
    assert!(p.parent().unwrap().same(&path(&["a"])));
    assert!(path(&[]).parent().is_none());
    assert!(p.join(&path(&["c"])).same(&path(&["a", "b", "c"])));
    assert!(p.copy().same(&p));
}

#[test]
fn bytes_and_names() {
    assert!(same_bytes(&vec![1, 2], &vec![1, 2]));
    assert!(!same_bytes(&vec![1, 2], &vec![1]));
    assert!(!same_bytes(&vec![1, 2], &vec![1, 3]));
    assert_eq!(copy_bytes(&vec![7, 8]), vec![7, 8]);
    assert_eq!(copy_names(&path(&["a", "b"]).names, 1), path(&["a"]).names);
}
