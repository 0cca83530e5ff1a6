use go_profile_lsp::costs::ordered_lines;
use go_profile_lsp::costs::FileCosts;
use go_profile_lsp::costs::LineCost;
use std::collections::BTreeMap;

fn cost(flat: i64, cumulative: i64) -> LineCost {
    LineCost { flat, cumulative }
}

#[test]
fn values_add_up() {
    assert_eq!(LineCost::default(), cost(0, 0));
    assert_eq!(cost(1, 2).increase(5, true), Some(cost(6, 7)));
    assert_eq!(cost(1, 2).increase(5, false), Some(cost(1, 7)));
    assert_eq!(cost(0, i64::MAX).increase(1, false), None);
    assert_eq!(cost(i64::MIN, 0).increase(-1, true), None);
    assert_eq!(cost(i64::MIN, 0).increase(-1, false), Some(cost(i64::MIN, -1)));
}

#[test]
fn files_hold_lines() {
    let mut costs = FileCosts::new();
    assert!(costs.is_empty());
    costs.open("a.go".to_string());
    costs.open("b.go".to_string());
    assert_eq!(costs.len(), 2);
    assert!(costs.increase(1, 9, 4, true));
    assert!(costs.increase(1, 9, 3, false));
    assert!(costs.increase(1, 2, 1, false));
    assert!(!costs.increase(1, 9, i64::MAX, false));
    assert_eq!(costs.get("b.go").unwrap().get(&9), Some(&cost(4, 7)));
    assert!(costs.get("a.go").unwrap().is_empty());
    assert!(!costs.contains_key("c.go"));
    let (name, lines) = costs.entry(1);
    assert_eq!(name, "b.go");
    assert_eq!(ordered_lines(lines), vec![(2, cost(0, 1)), (9, cost(4, 7))]);
}

#[test]
fn a_file_is_replaced() {
    let mut costs = FileCosts::new();
    let mut lines = BTreeMap::new();
    lines.insert(1, cost(1, 1));
    costs.insert("a.go".to_string(), lines.clone());
    lines.insert(2, cost(2, 2));
    costs.insert("a.go".to_string(), lines);
    assert_eq!(costs.len(), 1);
    assert_eq!(costs.get("a.go").unwrap().len(), 2);
    let copy = costs.clone();
    costs.insert("b.go".to_string(), BTreeMap::new());
    assert_eq!(copy.len(), 1);
    assert_eq!(costs.len(), 2);
}
