use bisectrunk::scan::select_commits;

fn numbers(n: usize) -> Vec<String> {
    (0..n).map(|value| value.to_string()).collect()
}

#[test]
fn stride_and_sample_selection_are_stable() {
    let commits = (0..10).map(|value| value.to_string()).collect::<Vec<_>>();
    assert_eq!(select_commits(commits.clone(), 3, None), ["0", "3", "6", "9"]);
    assert_eq!(select_commits(commits, 1, Some(4)), ["0", "3", "6", "9"]);
}

#[test]
fn sample_edge_cases() {
    assert_eq!(select_commits(numbers(10), 1, Some(1)), ["5"]);
    assert_eq!(select_commits(numbers(3), 1, Some(5)), ["0", "1", "2"]);
    assert!(select_commits(numbers(3), 1, Some(0)).is_empty());
    assert!(select_commits(Vec::new(), 1, Some(2)).is_empty());
    assert_eq!(select_commits(numbers(5), 1, Some(2)), ["0", "4"]);
}

#[test]
fn stride_edge_cases() {
    assert_eq!(select_commits(numbers(5), 1, None), ["0", "1", "2", "3", "4"]);
    assert_eq!(select_commits(numbers(5), 0, None), ["0", "1", "2", "3", "4"]);
    assert_eq!(select_commits(numbers(5), 10, None), ["0"]);
    assert!(select_commits(Vec::new(), 2, None).is_empty());
}
