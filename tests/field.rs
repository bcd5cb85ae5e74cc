use number_place::entropy_field::BITS_LENGTH;
use number_place::{Attacker, Entropy, EntropyField, Place, Report, Value};

const PUZZLE: [&str; 9] = [
    "53..7....",
    "6..195...",
    ".98....6.",
    "8...6...3",
    "4..8.3..1",
    "7...2...6",
    ".6....28.",
    "...419..5",
    "....8..79",
];

const SOLUTION: [&str; 9] = [
    "534678912",
    "672195348",
    "198342567",
    "859761423",
    "426853791",
    "713924856",
    "961537284",
    "287419635",
    "345286179",
];

fn total_superposition(field: &EntropyField) -> f64 {
    let mut count = 1f64;
    for i in 0..81 {
        let place = Place::new_from_raw(i).unwrap();
        count *= field.entropy_at(&place).len() as f64;
    }
    count
}

fn load(rows: &[&str; 9]) -> EntropyField {
    let mut field = EntropyField::new();
    for (y, row) in rows.iter().enumerate() {
        for (x, c) in row.bytes().enumerate() {
            if (b'1'..=b'9').contains(&c) {
                let value = Value::new((c - b'0') as u32).unwrap();
                field
                    .insert(Place::new(x, y).unwrap(), value.into())
                    .unwrap();
            }
        }
    }
    field
}

fn digit_at(field: &EntropyField, i: usize) -> u32 {
    let place = Place::new_from_raw(i).unwrap();
    field.entropy_at(&place).check_convergence().unwrap().digit()
}

fn is_valid_solution(field: &EntropyField) -> bool {
    for i in 0..81 {
        for j in 0..81 {
            if i == j {
                continue;
            }
            let (a, b) = (Place::new_from_raw(i).unwrap(), Place::new_from_raw(j).unwrap());
            let same_row = a.y() == b.y();
            let same_col = a.x() == b.x();
            let same_box = a.x() / 3 == b.x() / 3 && a.y() / 3 == b.y() / 3;
            if (same_row || same_col || same_box) && digit_at(field, i) == digit_at(field, j) {
                return false;
            }
        }
    }
    true
}

#[test]
fn into_from() {
    fn check(a: EntropyField) {
        let a_bytes: [u8; BITS_LENGTH] = a.clone().to_bytes();
        let b = EntropyField::try_from_bytes(a_bytes).unwrap();
        let (a, b): ([u8; BITS_LENGTH], [u8; BITS_LENGTH]) = (a.to_bytes(), b.to_bytes());
        for i in 0..BITS_LENGTH {
            assert_eq!(a[i], b[i]);
        }
    }
    let mut a = EntropyField::new();
    check(a.clone());
    a.insert(Place::new(1, 2).unwrap(), Value::new(2).unwrap().into())
        .unwrap();
    check(a.clone());
}

#[test]
fn round_trip_keeps_every_mask() {
    let field = load(&PUZZLE);
    let bytes = field.to_bytes();
    let back = EntropyField::try_from_bytes(bytes).unwrap();
    for i in 0..81 {
        let p = Place::new_from_raw(i).unwrap();
        assert_eq!(field.entropy_at(&p).bits(), back.entropy_at(&p).bits());
    }
    let fresh = EntropyField::new().to_bytes();
    assert_eq!(&fresh[0..4], &[0xfe, 0x03, 0x00, 0x00]);
}

#[test]
fn bytes_with_bad_masks_are_refused() {
    let mut bytes = EntropyField::new().to_bytes();
    bytes[40] = 0;
    bytes[41] = 0;
    assert!(EntropyField::try_from_bytes(bytes).is_err());
    let mut bytes = EntropyField::new().to_bytes();
    bytes[4] = 0xff;
    assert!(EntropyField::try_from_bytes(bytes).is_err());
    let mut bytes = EntropyField::new().to_bytes();
    bytes[7] = 0x80;
    assert!(EntropyField::try_from_bytes(bytes).is_err());
}

#[test]
fn dependencies_of_every_cell() {
    for i in 0..81 {
        let p = Place::new_from_raw(i).unwrap();
        let deps = p.dependencies().places();
        assert_eq!(deps.len(), 24);
        let mut distinct: Vec<usize> = Vec::new();
        for (t, q) in deps.iter().enumerate() {
            assert_ne!(*q, p);
            let same = match t / 8 {
                0 => q.y() == p.y(),
                1 => q.x() == p.x(),
                _ => q.x() / 3 == p.x() / 3 && q.y() / 3 == p.y() / 3,
            };
            assert!(same);
            if !distinct.contains(q.raw()) {
                distinct.push(*q.raw());
            }
        }
        assert_eq!(distinct.len(), 20);
        for j in 0..81 {
            let q = Place::new_from_raw(j).unwrap();
            let related = q != p
                && (q.y() == p.y()
                    || q.x() == p.x()
                    || (q.x() / 3 == p.x() / 3 && q.y() / 3 == p.y() / 3));
            assert_eq!(related, distinct.contains(&j));
        }
        for t in 1..8 {
            assert!(deps[t - 1].raw() < deps[t].raw());
        }
    }
}

#[test]
fn place_bounds() {
    assert!(Place::new(9, 0).is_none());
    assert!(Place::new(0, 9).is_none());
    assert!(Place::new_from_raw(81).is_none());
    let p = Place::new(4, 7).unwrap();
    assert_eq!(*p.raw(), 67);
    assert_eq!(p.x(), 4);
    assert_eq!(p.y(), 7);
    assert_eq!(Place::new_from_raw(67).unwrap(), p);
    assert_eq!(*p.dependencies().about(), p);
}

#[test]
fn blocks_list_their_cells() {
    let p = Place::new(4, 7).unwrap();
    let deps = p.dependencies();
    let mut cells = Vec::new();
    let mut blocks = deps.into_iter();
    while let Some(block) = blocks.next() {
        let mut it = block.into_iter();
        while let Some(q) = it.next() {
            cells.push(*q.raw());
        }
    }
    assert_eq!(cells.len(), 27);
    assert_eq!(&cells[0..9], &[63, 64, 65, 66, 67, 68, 69, 70, 71]);
    assert_eq!(&cells[9..18], &[4, 13, 22, 31, 40, 49, 58, 67, 76]);
    assert_eq!(&cells[18..27], &[57, 58, 59, 66, 67, 68, 75, 76, 77]);
    assert_eq!(*deps.square().place_at(4).raw(), 67);
}

#[test]
fn fresh_grid_superposition() {
    let field = EntropyField::new();
    let expected = 9f64.powi(81);
    let got = total_superposition(&field);
    assert!(((got - expected) / expected).abs() < 1e-9);
    assert!(!field.is_solved());
}

#[test]
fn place_on_fresh_grid() {
    for i in [0usize, 40, 80, 17] {
        for d in 1..=9 {
            let mut field = EntropyField::new();
            let p = Place::new_from_raw(i).unwrap();
            field.insert(p, Value::new(d).unwrap().into()).unwrap();
            assert_eq!(
                field.entropy_at(&p).check_convergence(),
                Some(Value::new(d).unwrap())
            );
            for q in p.dependencies().places() {
                assert!(!field.entropy_at(&q).is_possible(&Value::new(d).unwrap()));
                assert_eq!(field.entropy_at(&q).len(), 8);
            }
        }
    }
}

#[test]
fn unique_puzzle_is_solved_by_propagation() {
    let field = load(&PUZZLE);
    assert_eq!(total_superposition(&field), 1.0);
    assert!(field.is_solved());
    for (y, row) in SOLUTION.iter().enumerate() {
        for (x, c) in row.bytes().enumerate() {
            assert_eq!(digit_at(&field, y * 9 + x), (c - b'0') as u32);
        }
    }
}

#[test]
fn underdetermined_puzzle_is_searched() {
    let field = load(&[
        "123456789",
        ".........",
        ".........",
        ".........",
        ".........",
        ".........",
        ".........",
        ".........",
        ".........",
    ]);
    assert!(total_superposition(&field) > 1.0);
    let mut attacker = Attacker::new(field);
    let mut found = None;
    let mut steps = 0;
    while let Some(report) = attacker.next() {
        steps += 1;
        if let Report::Found(g) = report {
            found = Some(g);
            break;
        }
        assert!(steps < 200_000);
    }
    let g = found.unwrap();
    assert!(g.is_solved());
    assert!(is_valid_solution(&g));
    for x in 0..9 {
        assert_eq!(digit_at(&g, x), x as u32 + 1);
    }
}

const HARD: [&str; 9] = [
    "8........",
    "..36.....",
    ".7..9.2..",
    ".5...7...",
    "....457..",
    "...1...3.",
    "..1....68",
    "..85...1.",
    ".9....4..",
];

fn run_to_completion(rows: &[&str; 9]) -> (Vec<EntropyField>, usize, usize) {
    let field = load(rows);
    assert!(total_superposition(&field) > 1.0);
    let mut attacker = Attacker::new(field);
    let mut solutions = Vec::new();
    let (mut good, mut bad) = (0, 0);
    while let Some(report) = attacker.next() {
        match report {
            Report::Found(g) => {
                assert!(g.is_solved());
                assert!(is_valid_solution(&g));
                solutions.push(g);
            }
            Report::Try { result: Ok(g), .. } => {
                assert!(!g.is_solved());
                good += 1;
            }
            Report::Try { result: Err(_), .. } => bad += 1,
        }
        assert!(good + bad < 200_000);
    }
    assert!(attacker.next().is_none());
    for g in &solutions {
        for (y, row) in rows.iter().enumerate() {
            for (x, c) in row.bytes().enumerate() {
                if c != b'.' {
                    assert_eq!(digit_at(g, y * 9 + x), (c - b'0') as u32);
                }
            }
        }
    }
    (solutions, good, bad)
}

#[test]
fn search_runs_to_completion() {
    let (solutions, good, bad) = run_to_completion(&HARD);
    assert_eq!(solutions.len(), 1);
    assert!(good > 0);
    assert!(bad > 0);
}

#[test]
fn search_finds_every_solution() {
    let (solutions, _, _) = run_to_completion(&[
        "534678912",
        "672195348",
        "198342567",
        "85976.42.",
        "42685.79.",
        "713924856",
        "961537284",
        "287419635",
        "345286179",
    ]);
    assert_eq!(solutions.len(), 2);
    assert_ne!(digit_at(&solutions[0], 3 * 9 + 5), digit_at(&solutions[1], 3 * 9 + 5));
}

#[test]
fn search_reports_conflicts_as_tries() {
    let field = load(&HARD);
    let mut attacker = Attacker::new(field);
    let mut first_conflict = None;
    while let Some(report) = attacker.next() {
        if let Report::Try { value, place, result: Err(e) } = report {
            assert_eq!(e.place.raw() < &81, true);
            first_conflict = Some((place, value));
            break;
        }
    }
    let (place, value) = first_conflict.unwrap();
    assert_eq!(place, Place::new(3, 0).unwrap());
    assert_eq!(value, Value::new(3).unwrap());
}

#[test]
fn same_digit_twice_in_a_row_is_refused() {
    let mut field = EntropyField::new();
    let five = Value::new(5).unwrap();
    field.insert(Place::new(0, 0).unwrap(), five.into()).unwrap();
    let second = Place::new(3, 0).unwrap();
    let err = field.insert(second, five.into()).unwrap_err();
    assert_eq!(err.place, second);
    assert_eq!(err.conflict.conflicting_entropy, Entropy::new_converged(five));
}

#[test]
fn insert_candidate_set_narrows_cell() {
    let mut field = EntropyField::new();
    let mut only_two = Entropy::new();
    for d in 3..=9 {
        only_two.disable(&Value::new(d).unwrap()).unwrap();
    }
    let p = Place::new(2, 2).unwrap();
    field.insert(p, only_two).unwrap();
    assert_eq!(field.entropy_at(&p).len(), 2);
    assert_eq!(field.entropy_at(&p).bits(), 0b110);
}

#[test]
fn default_grid_is_fresh() {
    let field = EntropyField::default();
    for i in 0..81 {
        let p = Place::new_from_raw(i).unwrap();
        assert_eq!(*field.entropy_at(&p), Entropy::default());
        assert_eq!(field.entropy_at(&p).len(), 9);
    }
}

#[test]
fn hidden_single_is_placed() {
    let mut field = EntropyField::new();
    let one = Value::new(1).unwrap();
    for (x, y) in [(0, 1), (3, 2), (6, 3), (7, 6)] {
        field.insert(Place::new(x, y).unwrap(), one.into()).unwrap();
    }
    let corner = Place::new(8, 0).unwrap();
    assert_eq!(field.entropy_at(&corner).check_convergence(), Some(one));
    for x in 0..8 {
        let p = Place::new(x, 0).unwrap();
        assert!(!field.entropy_at(&p).is_possible(&one));
        assert_eq!(field.entropy_at(&p).len(), 8);
    }
}

#[test]
fn failed_first_narrowing_leaves_grid_unchanged() {
    let mut field = load(&PUZZLE);
    let before = field.to_bytes();
    let p = Place::new(0, 0).unwrap();
    let err = field.insert(p, Value::new(1).unwrap().into()).unwrap_err();
    assert_eq!(err.place, p);
    assert_eq!(field.to_bytes(), before);
}
