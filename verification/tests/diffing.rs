use markup_diff::setdiff::{diff, DiffResult};

fn strings(v: &[&str]) -> Vec<String> {
    v.iter().map(|s| s.to_string()).collect()
}

#[test]
fn empty_collections_report_all_zeros() {
    let r = diff(&Vec::new(), &Vec::new());
    assert_eq!(r.total, 0);
    assert_eq!(r.common, 0);
    assert_eq!(r.different, 0);
    assert_eq!(r.total_distinct_a, 0);
    assert_eq!(r.total_distinct_b, 0);
    assert_eq!(r.percent_different(), 0);
}

#[test]
fn identical_collections_have_zero_percent() {
    let a = strings(&["x", "y", "z"]);
    let r = diff(&a, &a.clone());
    assert_eq!(r.different, 0);
    assert_eq!(r.common, 3);
    assert_eq!(r.total, 3);
    assert_eq!(r.percent_different(), 0);
}

#[test]
fn disjoint_nonempty_collections_have_hundred_percent() {
    let a = strings(&["a", "b"]);
    let b = strings(&["c", "d", "e"]);
    let r = diff(&a, &b);
    assert_eq!(r.common, 0);
    assert_eq!(r.different, 5);
    assert_eq!(r.total, 5);
    assert_eq!(r.percent_different(), 100);
}

#[test]
fn percent_is_symmetric() {
    let a = strings(&["a", "b", "c"]);
    let b = strings(&["b", "c", "d", "e"]);
    let ab = diff(&a, &b);
    let ba = diff(&b, &a);
    assert_eq!(ab.percent_different(), ba.percent_different());
    assert_eq!(ab.different, ba.different);
    assert_eq!(ab.total, ba.total);
    assert_eq!(ab.common, ba.common);
    assert_eq!(ab.total_distinct_a, ba.total_distinct_b);
    assert_eq!(ab.total_distinct_b, ba.total_distinct_a);
}

#[test]
fn duplicates_collapse_to_distinct_sets() {
    let a = strings(&["a", "a", "a", "b"]);
    let b = strings(&["b", "b", "a"]);
    let r = diff(&a, &b);
    assert_eq!(r.total_distinct_a, 2);
    assert_eq!(r.total_distinct_b, 2);
    assert_eq!(r.common, 2);
    assert_eq!(r.different, 0);
    assert_eq!(r.total, 2);
    assert_eq!(r.percent_different(), 0);
}

#[test]
fn counts_partition_the_union() {
    let a = strings(&["a", "b", "c"]);
    let b = strings(&["c", "d"]);
    let r = diff(&a, &b);
    assert_eq!(r.total_distinct_a, 3);
    assert_eq!(r.total_distinct_b, 2);
    assert_eq!(r.common, 1);
    assert_eq!(r.different, 3);
    assert_eq!(r.total, 4);
    assert_eq!(r.common + r.different, r.total);
    // 100 * 3 / 4, rounded down
    assert_eq!(r.percent_different(), 75);
}

#[test]
fn percent_rounds_down() {
    let r = DiffResult { total_distinct_a: 3, total_distinct_b: 2, total: 3, common: 1, different: 2 };
    // 100 * 2 / 3 = 66.66..., reported as 66
    assert_eq!(r.percent_different(), 66);
}
