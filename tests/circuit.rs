use emulator::{and, input, not, or, xor, Component, EmulationResult, Emulator, Error};

fn build(input_count: usize, component: Component) -> Emulator {
    match Emulator::new(input_count, component) {
        Ok(e) => e,
        Err(e) => panic!("unexpected error: {:?}", e),
    }
}

fn table(e: &Emulator) -> EmulationResult {
    match e.emulate_all() {
        Ok(t) => t,
        Err(err) => panic!("unexpected error: {:?}", err),
    }
}

fn sample() -> Emulator {
    build(4, and(vec![input(0), or(vec![input(1), input(2)]), not(input(3))]))
}

#[test]
fn sample_circuit_single_assignments() {
    let e = sample();
    assert_eq!(e.emulate(&[true, false, true, false]), Ok(true));
    assert_eq!(e.emulate(&[true, false, false, false]), Ok(false));
}

#[test]
fn sample_circuit_truth_table() {
    let e = sample();
    let t = table(&e);
    assert_eq!(t.input_count(), 4);
    assert_eq!(t.states().len(), 16);
    assert!(t.states()[0b1010]);
    let expected_true = [0b1010usize, 0b1100, 0b1110];
    for (i, s) in t.states().iter().enumerate() {
        assert_eq!(*s, expected_true.contains(&i), "row {}", i);
    }
}

#[test]
fn out_of_range_reference_is_rejected() {
    match Emulator::new(2, and(vec![input(0), input(5)])) {
        Err(e) => assert_eq!(e, Error::InputOutOfBounds { index: 5, input_count: 2 }),
        Ok(_) => panic!("circuit should not validate"),
    }
}

#[test]
fn validation_reports_first_stray_reference() {
    match Emulator::new(2, or(vec![not(input(3)), input(1), input(7)])) {
        Err(e) => assert_eq!(e, Error::InputOutOfBounds { index: 3, input_count: 2 }),
        Ok(_) => panic!("circuit should not validate"),
    }
}

#[test]
fn bare_input_out_of_range() {
    match Emulator::new(0, input(0)) {
        Err(e) => assert_eq!(e, Error::InputOutOfBounds { index: 0, input_count: 0 }),
        Ok(_) => panic!("circuit should not validate"),
    }
}

#[test]
fn wrong_assignment_length_is_rejected() {
    let e = build(2, and(vec![input(0), input(1)]));
    assert_eq!(
        e.emulate(&[true, false, true]),
        Err(Error::InvalidInputCount { supplied: 3, expected: 2 })
    );
    assert_eq!(e.emulate(&[]), Err(Error::InvalidInputCount { supplied: 0, expected: 2 }));
}

#[test]
fn not_negates() {
    let e = build(1, not(input(0)));
    assert_eq!(e.emulate(&[true]), Ok(false));
    assert_eq!(e.emulate(&[false]), Ok(true));
    let d = build(1, not(not(input(0))));
    assert_eq!(d.emulate(&[true]), Ok(true));
    assert_eq!(d.emulate(&[false]), Ok(false));
}

fn pair_outputs(c: Component) -> Vec<bool> {
    let e = build(2, c);
    let mut out = Vec::new();
    for a in [[false, false], [false, true], [true, false], [true, true]] {
        out.push(e.emulate(&a).unwrap());
    }
    out
}

#[test]
fn two_operand_gates() {
    assert_eq!(pair_outputs(and(vec![input(0), input(1)])), vec![false, false, false, true]);
    assert_eq!(pair_outputs(or(vec![input(0), input(1)])), vec![false, true, true, true]);
    assert_eq!(pair_outputs(xor(vec![input(0), input(1)])), vec![false, true, true, false]);
}

#[test]
fn three_operand_xor_is_one_hot() {
    let e = build(3, xor(vec![input(0), input(1), input(2)]));
    let t = table(&e);
    let expected = vec![false, true, true, false, true, false, false, false];
    assert_eq!(t.states().to_vec(), expected);
    assert_eq!(e.emulate(&[true, true, true]), Ok(false));
    assert_eq!(e.emulate(&[true, true, false]), Ok(false));
    assert_eq!(e.emulate(&[false, false, true]), Ok(true));
}

#[test]
fn repeated_evaluation_is_stable() {
    let e = sample();
    let a = [false, true, true, false];
    let first = e.emulate(&a);
    for _ in 0..5 {
        assert_eq!(e.emulate(&a), first);
    }
}

#[test]
fn table_rows_follow_counting_order() {
    let e = sample();
    let t = table(&e);
    let n = 4;
    for i in 0..16usize {
        let row: Vec<bool> = (0..n).map(|k| (i >> (n - 1 - k)) & 1 == 1).collect();
        assert_eq!(e.emulate(&row), Ok(t.states()[i]), "row {}", i);
    }
}

#[test]
fn identity_table() {
    let t = table(&build(1, input(0)));
    assert_eq!(t.states().to_vec(), vec![false, true]);
}

#[test]
fn render_one_input_table() {
    let t = table(&build(1, not(input(0))));
    assert_eq!(t.render(), "I0  O1\n0   1\n1   0\n");
}

#[test]
fn render_two_input_table() {
    let t = table(&build(2, and(vec![input(0), input(1)])));
    assert_eq!(
        t.render(),
        "I0  I1  O1\n0   0   0\n0   1   0\n1   0   0\n1   1   1\n"
    );
}

#[test]
fn render_wide_header_labels() {
    let mut ops = Vec::new();
    for i in 0..11 {
        ops.push(input(i));
    }
    let t = table(&build(11, or(ops)));
    let text = t.render();
    let header = text.lines().next().unwrap();
    assert_eq!(header, "I0  I1  I2  I3  I4  I5  I6  I7  I8  I9  I10 O1");
    assert_eq!(text.lines().count(), 1 + 2048);
    assert_eq!(text.lines().nth(1).unwrap(), "0   0   0   0   0   0   0   0   0   0   0   0");
    assert_eq!(text.lines().nth(2048).unwrap(), "1   1   1   1   1   1   1   1   1   1   1   1");
}

#[test]
fn emulator_reports_its_input_count() {
    assert_eq!(sample().input_count(), 4);
}
