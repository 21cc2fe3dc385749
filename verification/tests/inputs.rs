use nordocs::inputs::{insert_input, remove_input};

fn names(m: &[(String, u32)]) -> Vec<&str> {
    m.iter().map(|(k, _)| k.as_str()).collect()
}

#[test]
fn insert_keeps_names_sorted_and_single() {
    let mut m: Vec<(String, u32)> = Vec::new();
    for (k, v) in [("title", 1), ("body", 2), ("zeta", 3), ("alpha", 4), ("body", 5), ("titles", 6)] {
        insert_input(&mut m, k.to_string(), v);
    }
    assert_eq!(names(&m), vec!["alpha", "body", "title", "titles", "zeta"]);
    assert_eq!(m[1], ("body".to_string(), 5));
}

#[test]
fn remove_drops_only_that_name() {
    let mut m: Vec<(String, u32)> = Vec::new();
    for (k, v) in [("a", 1), ("b", 2), ("c", 3)] {
        insert_input(&mut m, k.to_string(), v);
    }
    let m = remove_input(m, "b");
    assert_eq!(m, vec![("a".to_string(), 1), ("c".to_string(), 3)]);
    let m = remove_input(m, "missing");
    assert_eq!(names(&m), vec!["a", "c"]);
}
