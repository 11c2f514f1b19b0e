use edalign::alphabet::encode;
use edalign::block::step_block;
use edalign::edit::decode;
use edalign::pattern::{block_count, build_pattern};
use edalign::{compute_alignment, AlignError, AlignMode, AlignTask, Operation};

#[test]
fn codes_follow_first_appearance() {
    let e = encode(b"TGTA", b"CATG");
    assert_eq!(e.size, 4);
    assert_eq!(e.query, vec![0, 1, 0, 2]);
    assert_eq!(e.target, vec![3, 2, 0, 1]);
    let none = encode(b"", b"");
    assert_eq!(none.size, 0);
    assert!(none.query.is_empty() && none.target.is_empty());
    let one = encode(b"", b"zzzz");
    assert_eq!(one.size, 1);
    assert_eq!(one.target, vec![0, 0, 0, 0]);
}

#[test]
fn all_bytes_get_distinct_codes() {
    let q: Vec<u8> = (0..=255u8).rev().collect();
    let e = encode(&q, &q);
    assert_eq!(e.size, 256);
    for (i, &c) in e.query.iter().enumerate() {
        assert_eq!(c as usize, i);
    }
    assert_eq!(e.query, e.target);
}

#[test]
fn masks_mark_the_positions_of_each_code() {
    let mut codes = vec![0u8; 70];
    codes[1] = 1;
    codes[64] = 1;
    codes[69] = 2;
    let p = build_pattern(codes, 3);
    assert_eq!(p.masks.len(), 3);
    assert_eq!(p.masks[1], vec![0b10, 0b1]);
    assert_eq!(p.masks[2], vec![0, 1 << 5]);
    assert_eq!(p.masks[0], vec![!0b10u64, 0b011110]);
    assert_eq!(block_count(0), 0);
    assert_eq!(block_count(1), 1);
    assert_eq!(block_count(64), 1);
    assert_eq!(block_count(65), 2);
}

#[test]
fn block_step_on_the_first_column() {
    // Rows 1, 2, 3, ... of the first column; the symbol agrees with row 3 alone.
    let out = step_block(!0, 0, 0b100, 1);
    // The next column, from the top: 1 1 2 2 3 4 ... beside 0 1 2 3 4 5 ...
    assert_eq!(out.ph & 0b1111, 0b0000);
    assert_eq!(out.mh & 0b1111, 0b1100);
    assert_eq!(out.pv & 0b1111, 0b1010);
    assert_eq!(out.mv & 0b1111, 0b0000);
    assert_eq!(out.hout, -1);
    let flat = step_block(!0, 0, 0, 1);
    assert_eq!((flat.ph, flat.mh, flat.hout), (0, 0, 0));
    assert_eq!((flat.pv, flat.mv), (!1u64, 0));
    let free = step_block(!0, 0, 0, 0);
    assert_eq!((free.ph, free.mh, free.hout), (0, 0, 0));
    assert_eq!((free.pv, free.mv), (!0u64, 0));
}

#[test]
fn codes_and_operations() {
    assert_eq!(Operation::Match.code(), 0);
    assert_eq!(Operation::InsertionToTarget.code(), 1);
    assert_eq!(Operation::DeletionFromTarget.code(), 2);
    assert_eq!(Operation::Mismatch.code(), 3);
    for c in 0..4u8 {
        assert_eq!(Operation::from_code(c).unwrap().code(), c);
    }
    assert_eq!(Operation::from_code(4), None);
    assert_eq!(decode(&[0, 3, 1, 2]), Some(vec![Operation::Match, Operation::Mismatch, Operation::InsertionToTarget, Operation::DeletionFromTarget]));
    assert_eq!(decode(&[0, 9]), None);
}

#[test]
fn general_call_reports_errors_and_results() {
    let bad = compute_alignment(b"A", b"A", AlignMode::Infix, AlignTask::Alignment, Some(i64::MIN));
    assert!(matches!(bad, Err(AlignError::InvalidBound)));
    let zero = compute_alignment(b"A", b"A", AlignMode::Infix, AlignTask::Alignment, Some(0)).unwrap();
    assert_eq!(zero.distance(), Some(0));
    let over = compute_alignment(b"A", b"C", AlignMode::Infix, AlignTask::Alignment, Some(0)).unwrap();
    assert!(over.exceeded());
    let free = compute_alignment(b"TTT", b"ATTTA", AlignMode::Infix, AlignTask::Alignment, None).unwrap();
    assert_eq!(free.location(), Some((1, 4)));
    let huge = compute_alignment(b"TTT", b"ATTTA", AlignMode::Global, AlignTask::Distance, Some(i64::MAX)).unwrap();
    assert_eq!(huge.dist(), 2);
}

#[test]
fn tasks_are_ordered_by_cost() {
    assert!(AlignTask::Distance < AlignTask::Location);
    assert!(AlignTask::Location < AlignTask::Alignment);
    let mut tasks = vec![AlignTask::Alignment, AlignTask::Distance, AlignTask::Location];
    tasks.sort();
    assert_eq!(tasks, vec![AlignTask::Distance, AlignTask::Location, AlignTask::Alignment]);
}
