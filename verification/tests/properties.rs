use edalign::edit::{decode, replays};
use edalign::{align, align_within, AlignMode, AlignTask, Operation};

fn sequence(seed: u64, len: usize, letters: u8) -> Vec<u8> {
    let mut state = seed.wrapping_mul(6364136223846793005).wrapping_add(1442695040888963407);
    let mut out = Vec::with_capacity(len);
    for _ in 0..len {
        state = state.wrapping_mul(6364136223846793005).wrapping_add(1442695040888963407);
        out.push(b'A' + ((state >> 33) % letters as u64) as u8);
    }
    out
}

fn mutate(seed: u64, src: &[u8], every: usize) -> Vec<u8> {
    let mut state = seed.wrapping_mul(2862933555777941757).wrapping_add(3037000493);
    let mut out = Vec::new();
    for (i, &x) in src.iter().enumerate() {
        state = state.wrapping_mul(2862933555777941757).wrapping_add(3037000493);
        if i % every == every - 1 {
            match (state >> 40) % 3 {
                0 => {}
                1 => {
                    out.push(x);
                    out.push(b'A' + ((state >> 20) % 4) as u8);
                }
                _ => out.push(b'A' + ((state >> 20) % 4) as u8),
            }
        } else {
            out.push(x);
        }
    }
    out
}

fn matrix(q: &[u8], t: &[u8], free: bool) -> Vec<Vec<usize>> {
    let mut d = vec![vec![0usize; t.len() + 1]; q.len() + 1];
    for i in 0..=q.len() {
        for j in 0..=t.len() {
            d[i][j] = if i == 0 {
                if free {
                    0
                } else {
                    j
                }
            } else if j == 0 {
                i
            } else {
                let pair = d[i - 1][j - 1] + if q[i - 1] == t[j - 1] { 0 } else { 1 };
                pair.min(d[i - 1][j] + 1).min(d[i][j - 1] + 1)
            };
        }
    }
    d
}

fn plain_distance(q: &[u8], t: &[u8]) -> usize {
    matrix(q, t, false)[q.len()][t.len()]
}

struct Expected {
    distance: usize,
    places: Vec<(usize, usize)>,
    path: Vec<u8>,
}

fn expected_path(q: &[u8], t: &[u8]) -> Vec<u8> {
    let d = matrix(q, t, false);
    let (mut i, mut j) = (q.len(), t.len());
    let mut back = Vec::new();
    while i > 0 || j > 0 {
        if i == 0 {
            back.push(2);
            j -= 1;
        } else if j == 0 {
            back.push(1);
            i -= 1;
        } else if d[i - 1][j] + 1 == d[i][j] {
            back.push(1);
            i -= 1;
        } else if d[i][j - 1] + 1 == d[i][j] {
            back.push(2);
            j -= 1;
        } else {
            back.push(if q[i - 1] == t[j - 1] { 0 } else { 3 });
            i -= 1;
            j -= 1;
        }
    }
    back.reverse();
    back
}

fn expected(q: &[u8], t: &[u8], mode: AlignMode) -> Expected {
    let (m, n) = (q.len(), t.len());
    let free = matches!(mode, AlignMode::Infix);
    let d = matrix(q, t, free);
    let ends: Vec<usize> = match mode {
        AlignMode::Global => vec![n],
        _ => {
            if m == 0 || n == 0 {
                vec![0]
            } else {
                (1..=n).collect()
            }
        }
    };
    let distance = ends.iter().map(|&e| d[m][e]).min().unwrap();
    let mut places = Vec::new();
    for &e in ends.iter() {
        if d[m][e] != distance {
            continue;
        }
        let s = match mode {
            AlignMode::Infix => (0..=e).find(|&s| s == e || plain_distance(q, &t[s..e]) == distance).unwrap(),
            _ => 0,
        };
        places.push((s, e));
    }
    let (s, e) = places[0];
    let path = expected_path(q, &t[s..e]);
    Expected { distance, places, path }
}

fn check_call(q: &[u8], t: &[u8], mode: AlignMode) {
    let want = expected(q, t, mode);
    let a = align(q, t, mode, AlignTask::Alignment);
    assert_eq!(a.dist() as usize, want.distance);
    let (starts, ends) = a.locations().unwrap();
    let got: Vec<(usize, usize)> = starts.iter().zip(ends.iter()).map(|(&s, &e)| (s as usize, e as usize)).collect();
    assert_eq!(got, want.places);
    assert_eq!(a.location(), Some(want.places[0]));
    assert_eq!(a.operations().unwrap(), want.path.as_slice());
    let ops = a.path().unwrap();
    let (s, e) = want.places[0];
    assert!(replays(&ops, q, &t[s..e]));
    let edits = ops.iter().filter(|&&op| op != Operation::Match).count();
    assert_eq!(edits, want.distance);

    let l = align(q, t, mode, AlignTask::Location);
    assert_eq!(l.dist() as usize, want.distance);
    assert_eq!(l.location(), Some(want.places[0]));
    assert!(l.operations().is_none());

    let d = align(q, t, mode, AlignTask::Distance);
    assert_eq!(d.dist() as usize, want.distance);
    assert_eq!(d.location(), None);
    assert!(d.locations().is_none());
    assert!(d.operations().is_none());

    let at = align_within(q, t, mode, AlignTask::Alignment, Some(want.distance as u64));
    assert_eq!(at.distance(), Some(want.distance as u32));
    assert_eq!(at.operations().unwrap(), want.path.as_slice());
    if want.distance > 0 {
        let below = align_within(q, t, mode, AlignTask::Alignment, Some(want.distance as u64 - 1));
        assert!(below.exceeded());
        assert_eq!(below.dist(), u32::MAX);
        assert_eq!(below.location(), None);
        assert!(below.operations().is_none());
    }
}

const MODES: [AlignMode; 3] = [AlignMode::Global, AlignMode::Prefix, AlignMode::Infix];

#[test]
fn short_sequences_agree_with_the_plain_matrix() {
    for seed in 0..60u64 {
        let q = sequence(seed, (seed % 9) as usize, 3);
        let t = sequence(seed + 1000, ((seed * 7) % 13) as usize, 3);
        for mode in MODES {
            check_call(&q, &t, mode);
        }
    }
}

#[test]
fn sequences_of_several_blocks_agree_with_the_plain_matrix() {
    let sizes = [(63, 70), (64, 64), (65, 130), (128, 100), (129, 200), (200, 150), (70, 5), (3, 150)];
    for (k, &(m, n)) in sizes.iter().enumerate() {
        let q = sequence(k as u64 + 7, m, 4);
        let t = sequence(k as u64 + 77, n, 4);
        for mode in MODES {
            check_call(&q, &t, mode);
        }
    }
}

#[test]
fn similar_sequences_agree_with_the_plain_matrix() {
    for seed in 0..6u64 {
        let t = sequence(seed + 5, 300, 4);
        let q = mutate(seed, &t[40..240], 17);
        for mode in MODES {
            check_call(&q, &t, mode);
        }
        let whole = mutate(seed + 9, &t, 23);
        check_call(&whole, &t, AlignMode::Global);
    }
}

#[test]
fn long_similar_sequences_agree_with_the_plain_matrix() {
    let t = sequence(11, 2500, 4);
    let q = mutate(12, &t, 40);
    check_call(&q, &t, AlignMode::Global);
    check_call(&q[..2000], &t, AlignMode::Prefix);
    let d = align(&q, &t, AlignMode::Global, AlignTask::Distance).dist() as u64;
    assert!(d < 64);
    for k in [0, 1, d / 2, 63, 64, 65, 200, 5000] {
        let a = align_within(&q, &t, AlignMode::Global, AlignTask::Alignment, Some(k));
        if k < d {
            assert!(a.exceeded());
        } else {
            assert_eq!(a.dist() as u64, d);
            assert!(replays(&a.path().unwrap(), &q, &t));
        }
    }
    let far = sequence(13, 2400, 4);
    check_call(&far, &t, AlignMode::Global);
}

#[test]
fn query_found_far_into_a_long_target() {
    let mut t = sequence(3, 1500, 4);
    let q = sequence(4, 90, 4);
    t.extend_from_slice(&q);
    t.extend_from_slice(&sequence(5, 200, 4));
    let a = align(&q, &t, AlignMode::Infix, AlignTask::Alignment);
    assert_eq!(a.dist(), 0);
    assert_eq!(a.location(), Some((1500, 1590)));
    assert_eq!(a.operations().unwrap(), vec![0u8; 90].as_slice());
}

#[test]
fn every_byte_value_is_a_symbol() {
    let q: Vec<u8> = (0..=255u8).collect();
    let mut t: Vec<u8> = (0..=255u8).collect();
    t[100] = 7;
    t.remove(200);
    let a = align(&q, &t, AlignMode::Global, AlignTask::Alignment);
    assert_eq!(a.dist(), 2);
    let ops = decode(a.operations().unwrap()).unwrap();
    assert!(replays(&ops, &q, &t));
    check_call(&q, &t, AlignMode::Global);
}

#[test]
fn global_distance_is_symmetric() {
    for seed in 0..20u64 {
        let a = sequence(seed, 30 + (seed % 50) as usize, 4);
        let b = sequence(seed + 50, 20 + (seed % 70) as usize, 4);
        let ab = align(&a, &b, AlignMode::Global, AlignTask::Distance).dist();
        let ba = align(&b, &a, AlignMode::Global, AlignTask::Distance).dist();
        assert_eq!(ab, ba);
    }
    let q = b"AAAT";
    let t = b"TTTTAAAT";
    assert_eq!(align(q, t, AlignMode::Infix, AlignTask::Distance).dist(), 0);
    assert_eq!(align(t, q, AlignMode::Infix, AlignTask::Distance).dist(), 4);
}

#[test]
fn global_distance_to_itself_is_zero() {
    for seed in 0..10u64 {
        let a = sequence(seed, (seed * 31 % 200) as usize, 4);
        assert_eq!(align(&a, &a, AlignMode::Global, AlignTask::Distance).dist(), 0);
    }
}

#[test]
fn global_distance_obeys_the_triangle_inequality() {
    for seed in 0..15u64 {
        let a = sequence(seed, 40, 3);
        let b = sequence(seed + 100, 55, 3);
        let c = sequence(seed + 200, 35, 3);
        let ab = align(&a, &b, AlignMode::Global, AlignTask::Distance).dist();
        let bc = align(&b, &c, AlignMode::Global, AlignTask::Distance).dist();
        let ac = align(&a, &c, AlignMode::Global, AlignTask::Distance).dist();
        assert!(ac <= ab + bc);
    }
    let ac = align(b"kitten", b"sitting", AlignMode::Global, AlignTask::Distance).dist();
    assert_eq!(ac, 3);
}

#[test]
fn operations_replay_against_the_reported_place() {
    let q = b"GATTACA";
    let t = b"CCGATCACATT";
    for mode in MODES {
        let a = align(q, t, mode, AlignTask::Alignment);
        let (s, e) = a.location().unwrap();
        let ops = a.path().unwrap();
        assert!(replays(&ops, q, &t[s..e]));
        let with_query = ops.iter().filter(|&&op| op != Operation::DeletionFromTarget).count();
        let with_target = ops.iter().filter(|&&op| op != Operation::InsertionToTarget).count();
        assert_eq!(with_query, q.len());
        assert_eq!(with_target, e - s);
    }
    assert!(!replays(&[Operation::Match], b"A", b"C"));
    assert!(!replays(&[Operation::Mismatch], b"A", b"A"));
    assert!(replays(&[Operation::InsertionToTarget, Operation::DeletionFromTarget], b"A", b"C"));
    assert!(!replays(&[Operation::InsertionToTarget], b"A", b"C"));
}

#[test]
fn bound_is_sharp() {
    let q = b"ACGTACGTTT";
    let t = b"ACTTACGAAACGT";
    for mode in MODES {
        let d = align(q, t, mode, AlignTask::Distance).dist() as u64;
        assert!(d > 0);
        assert!(align_within(q, t, mode, AlignTask::Distance, Some(d - 1)).exceeded());
        assert_eq!(align_within(q, t, mode, AlignTask::Distance, Some(d)).dist() as u64, d);
        assert_eq!(align_within(q, t, mode, AlignTask::Distance, Some(d + 100)).dist() as u64, d);
        assert_eq!(align_within(q, t, mode, AlignTask::Distance, Some(u64::MAX)).dist() as u64, d);
    }
}

#[test]
fn bounded_calls_agree_with_unbounded_ones() {
    for seed in 0..12u64 {
        let t = sequence(seed + 31, 150 + (seed as usize * 13) % 90, 4);
        let q = mutate(seed + 3, &t[20..(100 + seed as usize * 7)], 9);
        for mode in MODES {
            let free = align(&q, &t, mode, AlignTask::Alignment);
            let d = free.dist() as u64;
            for k in [0, d / 2, d.saturating_sub(1), d, d + 1, d + 70, 1 << 40] {
                let a = align_within(&q, &t, mode, AlignTask::Alignment, Some(k));
                if k < d {
                    assert!(a.exceeded());
                    assert!(a.locations().is_none());
                } else {
                    assert_eq!(a.dist() as u64, d);
                    assert_eq!(a.locations(), free.locations());
                    assert_eq!(a.operations(), free.operations());
                }
            }
        }
    }
}

#[test]
fn empty_sequences() {
    let a = align(b"", b"ACGT", AlignMode::Global, AlignTask::Alignment);
    assert_eq!(a.dist(), 4);
    assert_eq!(a.location(), Some((0, 4)));
    assert_eq!(a.operations().unwrap(), [2u8, 2, 2, 2].as_slice());
    let b = align(b"ACG", b"", AlignMode::Global, AlignTask::Alignment);
    assert_eq!(b.dist(), 3);
    assert_eq!(b.location(), Some((0, 0)));
    assert_eq!(b.operations().unwrap(), [1u8, 1, 1].as_slice());
    for mode in [AlignMode::Prefix, AlignMode::Infix] {
        let c = align(b"", b"ACGT", mode, AlignTask::Alignment);
        assert_eq!(c.dist(), 0);
        assert_eq!(c.location(), Some((0, 0)));
        assert_eq!(c.operations().unwrap().len(), 0);
        let d = align(b"ACG", b"", mode, AlignTask::Alignment);
        assert_eq!(d.dist(), 3);
        assert_eq!(d.location(), Some((0, 0)));
        assert_eq!(d.operations().unwrap(), [1u8, 1, 1].as_slice());
    }
    let e = align_within(b"ACG", b"", AlignMode::Infix, AlignTask::Alignment, Some(2));
    assert!(e.exceeded());
}

#[test]
fn all_optimal_places_are_listed_leftmost_first() {
    let a = align(b"AB", b"ABxxABxAB", AlignMode::Infix, AlignTask::Location);
    assert_eq!(a.dist(), 0);
    let (starts, ends) = a.locations().unwrap();
    assert_eq!(starts, [0, 4, 7].as_slice());
    assert_eq!(ends, [2, 6, 9].as_slice());
    assert_eq!(a.location(), Some((0, 2)));
    let p = align(b"AC", b"ACC", AlignMode::Prefix, AlignTask::Location);
    assert_eq!(p.dist(), 0);
    assert_eq!(p.location(), Some((0, 2)));
    let one = align(b"A", b"C", AlignMode::Prefix, AlignTask::Alignment);
    assert_eq!(one.dist(), 1);
    assert_eq!(one.location(), Some((0, 1)));
    assert_eq!(one.operations().unwrap(), [3u8].as_slice());
}

#[test]
fn result_can_be_cloned_and_read_again() {
    let a = align(b"CGTCCG", b"ACGTCGT", AlignMode::Prefix, AlignTask::Alignment);
    let b = a.clone();
    assert_eq!(a.dist(), b.dist());
    assert_eq!(a.location(), b.location());
    assert_eq!(a.operations(), b.operations());
    assert_eq!(b.mode(), AlignMode::Prefix);
    assert_eq!(b.task(), AlignTask::Alignment);
}
