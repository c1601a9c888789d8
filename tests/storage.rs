use brainfuck::{SparseTape, Tape, Unit, VectorTape};

#[test]
fn test_vector_tape_empty_cell_is_zero() {
    let mut t: VectorTape<Unit> = VectorTape::new();
    assert!(*t.cell() == 0);
}

#[test]
fn test_vector_tape_keeps_values_correctly() {
    let mut t: VectorTape<Unit> = VectorTape::new();
    t.mutate(|_v| 1);
    assert!(*t.cell() == 1);
    t.wind(1);
    assert!(*t.cell() != 1);
    t.mutate(|_v| 2);
    assert!(*t.cell() == 2);
    t.wind(-1);
    assert!(*t.cell() == 1);
}

#[test]
fn test_vector_tape_has_at_least_30k_cells() {
    let mut t: VectorTape<Unit> = VectorTape::new();
    for _ in 0..30000 {
        assert!(*t.cell() == 0);
        t.mutate(|v| v + 1);
        t.wind(1);
    }
}

#[test]
fn test_sparse_tape_empty_cell_is_zero() {
    let mut t: SparseTape<Unit> = SparseTape::new();
    assert!(*t.cell() == 0);
}

#[test]
fn test_sparse_tape_keeps_values_correctly() {
    let mut t: SparseTape<Unit> = SparseTape::new();
    t.mutate(|_v| 1);
    assert!(*t.cell() == 1);
    t.wind(1);
    assert!(*t.cell() != 1);
    t.mutate(|_v| 2);
    assert!(*t.cell() == 2);
    t.wind(-1);
    assert!(*t.cell() == 1);
}

#[test]
fn test_sparse_tape_has_at_least_30k_cells() {
    let mut t: SparseTape<Unit> = SparseTape::new();
    for _ in 0..30000 {
        assert!(*t.cell() == 0);
        t.mutate(|v| v + 1);
        t.wind(1);
    }
}

#[test]
fn dense_tape_clamps_at_left_edge() {
    let mut t: VectorTape<Unit> = VectorTape::new();
    t.mutate(|_v| 7);
    for _ in 0..5 {
        t.wind(-1);
    }
    assert_eq!(t.position(), 0);
    assert_eq!(*t.cell(), 7);
    t.wind(-1000);
    assert_eq!(t.position(), 0);
}

#[test]
fn dense_tape_grows_past_initial_cells() {
    let mut t: VectorTape<Unit> = VectorTape::new();
    for _ in 0..30005 {
        t.wind(1);
    }
    assert_eq!(t.position(), 30005);
    assert_eq!(*t.cell(), 0);
    t.mutate(|_v| 9);
    t.wind(40000);
    assert_eq!(*t.cell(), 0);
    t.wind(-40000);
    assert_eq!(*t.cell(), 9);
}

#[test]
fn sparse_tape_winds_far_left_and_back() {
    let mut t: SparseTape<Unit> = SparseTape::new();
    t.mutate(|_v| 42);
    t.wind(-50000);
    assert_eq!(*t.cell(), 0);
    t.mutate(|_v| 3);
    t.wind(50000);
    assert_eq!(*t.cell(), 42);
    t.wind(-50000);
    assert_eq!(*t.cell(), 3);
}

#[test]
fn cell_reference_writes_through() {
    let mut t: SparseTape<Unit> = SparseTape::new();
    *t.cell() = 200;
    assert_eq!(*t.cell(), 200);
    let mut d: VectorTape<Unit> = VectorTape::new();
    *d.cell() = 201;
    assert_eq!(*d.cell(), 201);
}
