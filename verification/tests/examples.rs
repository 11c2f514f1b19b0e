use edalign::{align, align_within, compute_alignment, AlignError, AlignMode, AlignTask};

#[test]
fn edlib_test() {
    let target = b"AAACCCTTT";
    let query = b"CCC";
    let task = AlignTask::Alignment;
    let mode = AlignMode::Infix;
    let aln = align(query, target, mode, task);
    assert_eq!(aln.dist(), 0);
    assert_eq!(aln.operations(), Some([0, 0, 0].as_slice()));
}

#[test]
fn infix_exact_match_location() {
    let aln = align(b"CCC", b"AAACCCTTT", AlignMode::Infix, AlignTask::Alignment);
    assert_eq!(aln.dist(), 0);
    assert_eq!(aln.location(), Some((3, 6)));
    assert_eq!(aln.operations(), Some([0, 0, 0].as_slice()));
}

#[test]
fn infix_with_one_mismatch() {
    let aln = align(b"CCCCC", b"ACCGCCT", AlignMode::Infix, AlignTask::Alignment);
    assert_eq!(aln.dist(), 1);
    assert_eq!(aln.location(), Some((1, 6)));
    assert_eq!(aln.operations(), Some([0, 0, 3, 0, 0].as_slice()));
}

#[test]
fn prefix_with_gap_on_each_side() {
    let aln = align(b"CGTCCG", b"ACGTCGT", AlignMode::Prefix, AlignTask::Alignment);
    assert_eq!(aln.dist(), 2);
    assert_eq!(aln.location(), Some((0, 6)));
    assert_eq!(aln.operations(), Some([2, 0, 0, 0, 0, 1, 0].as_slice()));
}

#[test]
fn global_distance_of_two_empty_sequences() {
    let aln = align(b"", b"", AlignMode::Global, AlignTask::Distance);
    assert_eq!(aln.dist(), 0);
    assert_eq!(aln.distance(), Some(0));
    assert!(!aln.exceeded());
}

#[test]
fn global_bound_exceeded() {
    let aln = align_within(b"ACGT", b"AC", AlignMode::Global, AlignTask::Alignment, Some(1));
    assert!(aln.exceeded());
    assert_eq!(aln.distance(), None);
    assert_eq!(aln.location(), None);
    assert!(aln.locations().is_none());
    assert!(aln.operations().is_none());
    let exact = align_within(b"ACGT", b"AC", AlignMode::Global, AlignTask::Distance, Some(2));
    assert_eq!(exact.distance(), Some(2));
}

#[test]
fn negative_bound_is_rejected() {
    let r = compute_alignment(b"ACGT", b"AC", AlignMode::Global, AlignTask::Distance, Some(-1));
    assert!(matches!(r, Err(AlignError::InvalidBound)));
    let ok = compute_alignment(b"ACGT", b"AC", AlignMode::Global, AlignTask::Distance, Some(5));
    assert_eq!(ok.unwrap().dist(), 2);
}
