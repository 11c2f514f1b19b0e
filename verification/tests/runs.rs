use edalign::runs::{decode_runs, encode_runs, Run};
use edalign::text::{encode_operations_as_text, runs_to_text, text_to_runs};
use edalign::{align, AlignMode, AlignTask, Operation};

fn run(count: usize, op: Operation) -> Run {
    Run { count, op }
}

#[test]
fn empty_path_has_no_runs() {
    assert_eq!(encode_runs(&[]), vec![]);
    assert_eq!(runs_to_text(&[]), "");
    assert_eq!(encode_operations_as_text(&[]), "");
    assert_eq!(text_to_runs(""), Some(vec![]));
}

#[test]
fn equal_neighbours_are_merged_in_order() {
    let ops = [
        Operation::Match,
        Operation::Match,
        Operation::Match,
        Operation::Mismatch,
        Operation::InsertionToTarget,
        Operation::InsertionToTarget,
        Operation::DeletionFromTarget,
        Operation::Match,
    ];
    let runs = encode_runs(&ops);
    assert_eq!(
        runs,
        vec![
            run(3, Operation::Match),
            run(1, Operation::Mismatch),
            run(2, Operation::InsertionToTarget),
            run(1, Operation::DeletionFromTarget),
            run(1, Operation::Match),
        ]
    );
    assert_eq!(decode_runs(&runs), ops.to_vec());
    assert_eq!(encode_operations_as_text(&ops), "3=1X2I1D1=");
}

#[test]
fn counts_are_written_in_decimal() {
    let runs = [run(10, Operation::Match), run(1234567, Operation::DeletionFromTarget), run(9, Operation::Mismatch), run(100, Operation::InsertionToTarget)];
    let text = runs_to_text(&runs);
    assert_eq!(text, "10=1234567D9X100I");
    assert_eq!(text_to_runs(&text), Some(runs.to_vec()));
    let big = [run(usize::MAX, Operation::Match)];
    let text = runs_to_text(&big);
    assert_eq!(text, format!("{}=", usize::MAX));
    assert_eq!(text_to_runs(&text), Some(big.to_vec()));
}

#[test]
fn text_and_runs_round_trip() {
    let a = align(b"CGTCCG", b"ACGTCGT", AlignMode::Prefix, AlignTask::Alignment);
    let ops = a.path().unwrap();
    let text = encode_operations_as_text(&ops);
    assert_eq!(text, "1D4=1I1=");
    let runs = text_to_runs(&text).unwrap();
    assert_eq!(runs, encode_runs(&ops));
    assert_eq!(decode_runs(&runs), ops);
    assert_eq!(runs_to_text(&runs), text);
}

#[test]
fn result_as_text() {
    let a = align(b"CCCCC", b"ACCGCCT", AlignMode::Infix, AlignTask::Alignment);
    assert_eq!(a.text(), Some(String::from("2=1X2=")));
    let l = align(b"CCCCC", b"ACCGCCT", AlignMode::Infix, AlignTask::Location);
    assert_eq!(l.text(), None);
    let e = align(b"", b"", AlignMode::Global, AlignTask::Alignment);
    assert_eq!(e.text(), Some(String::new()));
}

#[test]
fn malformed_text_is_turned_down() {
    assert_eq!(text_to_runs("3"), None);
    assert_eq!(text_to_runs("="), None);
    assert_eq!(text_to_runs("0="), None);
    assert_eq!(text_to_runs("03="), None);
    assert_eq!(text_to_runs("3M"), None);
    assert_eq!(text_to_runs("3=X"), None);
    assert_eq!(text_to_runs("3= 1X"), None);
    assert_eq!(text_to_runs("3=\u{e9}"), None);
    assert_eq!(text_to_runs("99999999999999999999999999="), None);
    let over = format!("{}0=", usize::MAX);
    assert_eq!(text_to_runs(&over), None);
    assert_eq!(text_to_runs("30=2X"), Some(vec![run(30, Operation::Match), run(2, Operation::Mismatch)]));
    assert_eq!(text_to_runs("1=1="), Some(vec![run(1, Operation::Match), run(1, Operation::Match)]));
}
