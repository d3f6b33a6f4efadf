use bitmap::Run;

#[test]
fn test_intersect_sparse_runs() {
    assert_eq!(
        Run::new(2, 4).intersect(&Run::new(1, 3)),
        Some(Run::new(2, 2))
    );
    assert_eq!(
        Run::new(3, 2).intersect(&Run::new(1, 4)),
        Some(Run::new(3, 2))
    );
    assert_eq!(
        Run::new(2, 2).intersect(&Run::new(3, 2)),
        Some(Run::new(3, 1))
    );
    assert_eq!(Run::new(2, 1).intersect(&Run::new(4, 1)), None);
    assert_eq!(Run::new(4, 1).intersect(&Run::new(2, 1)), None);
}

#[test]
fn test_union_sparse_runs() {
    assert_eq!(Run::new(2, 4).union(&Run::new(1, 3)), Some(Run::new(1, 5)));
    assert_eq!(Run::new(3, 2).union(&Run::new(1, 4)), Some(Run::new(1, 4)));
    assert_eq!(Run::new(2, 2).union(&Run::new(3, 2)), Some(Run::new(2, 3)));
    assert_eq!(Run::new(2, 1).union(&Run::new(4, 1)), None);
    assert_eq!(Run::new(4, 1).union(&Run::new(2, 1)), None);
}

#[test]
fn test_run_end_and_contains() {
    let run = Run::new(3, 4);
    assert_eq!(run.start, 3);
    assert_eq!(run.length, 4);
    assert_eq!(run.end(), 7);
    assert!(!run.contains(2));
    assert!(run.contains(3));
    assert!(run.contains(6));
    assert!(run.contains(7));
    assert!(!run.contains(8));
    assert_eq!(Run::new(5, 0).end(), 5);
    assert!(Run::new(5, 0).contains(5));
    assert!(!Run::new(5, 0).contains(6));
    assert_eq!(Run::new(0, usize::MAX).end(), usize::MAX);
}

#[test]
fn test_run_matches() {
    assert!(Run::new(2, 4).matches(&Run::new(1, 3)));
    assert!(Run::new(1, 3).matches(&Run::new(2, 4)));
    assert!(Run::new(2, 1).matches(&Run::new(3, 1)));
    assert!(Run::new(3, 1).matches(&Run::new(2, 1)));
    assert!(!Run::new(2, 1).matches(&Run::new(4, 1)));
    assert!(!Run::new(4, 1).matches(&Run::new(2, 1)));
    assert!(Run::new(2, 0).matches(&Run::new(2, 0)));
}

#[test]
fn test_run_touching_runs() {
    assert_eq!(Run::new(2, 1).intersect(&Run::new(3, 1)), Some(Run::new(3, 0)));
    assert_eq!(Run::new(3, 1).intersect(&Run::new(2, 1)), Some(Run::new(3, 0)));
    assert_eq!(Run::new(2, 1).union(&Run::new(3, 1)), Some(Run::new(2, 2)));
    assert_eq!(Run::new(3, 1).union(&Run::new(2, 1)), Some(Run::new(2, 2)));
    assert_eq!(Run::new(0, 5).intersect(&Run::new(0, 5)), Some(Run::new(0, 5)));
    assert_eq!(Run::new(0, 5).union(&Run::new(0, 5)), Some(Run::new(0, 5)));
    assert_eq!(Run::new(0, 9).intersect(&Run::new(3, 2)), Some(Run::new(3, 2)));
    assert_eq!(Run::new(3, 2).union(&Run::new(0, 9)), Some(Run::new(0, 9)));
}
