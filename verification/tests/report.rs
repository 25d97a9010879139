use memory_analyser::report::count_order;
use memory_analyser::usage::Output;

fn entries(v: &[(&str, u64)]) -> Vec<(String, u64)> {
    v.iter().map(|(n, c)| (n.to_string(), *c)).collect()
}

#[test]
fn counts_are_ordered_by_count_then_name() {
    let v = entries(&[("b", 3), ("a", 3), ("z", 1), ("ab", 3), ("", 7)]);
    assert_eq!(count_order(&v), vec![2, 1, 3, 0, 4]);
    assert!(count_order(&Vec::new()).is_empty());
}

#[test]
fn names_compare_bytewise() {
    // 'Z' (0x5a) sorts before 'a' (0x61); a prefix sorts first
    let v = entries(&[("a", 1), ("Z", 1), ("aa", 1), ("\u{e9}", 1)]);
    assert_eq!(count_order(&v), vec![1, 0, 2, 3]);
}

#[test]
fn output_orders() {
    let mut o = Output::new();
    o.count_variant("E", "A");
    o.count_variant("E", "A");
    o.count_variant("E", "B");
    o.count_variant("F", "A");
    o.count_variant("D", "X");
    // totals: E 3, F 1, D 1; F and D tie, D first by name
    assert_eq!(o.enum_order(), vec![2, 1, 0]);
    o.root_type_counts = entries(&[("T", 2), ("S", 2), ("R", 1)]);
    assert_eq!(o.root_type_order(), vec![2, 1, 0]);
    o.usage = entries(&[(".b", 1), ("", 9), (".a", 5)]);
    assert_eq!(o.usage_order(), vec![1, 2, 0]);
}
