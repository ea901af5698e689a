use lzari::model::{PositionModel, SymbolModel};

fn fresh() -> SymbolModel {
    let mut m = SymbolModel::new();
    m.start_model();
    m
}

fn check_invariant(m: &SymbolModel) {
    assert!(m.total() < 32768);
    assert_eq!(m.cum(314), 0);
    assert_eq!(m.freq(0), 0);
    for i in 1..=314usize {
        assert!(m.freq(i) >= 1);
        assert_eq!(m.cum(i - 1) - m.cum(i), m.freq(i));
        if i < 314 {
            assert!(m.freq(i) >= m.freq(i + 1));
        }
        assert_eq!(m.sym_of(m.char_of(i)), i);
    }
    for c in 0..314usize {
        assert_eq!(m.char_of(m.sym_of(c)), c);
    }
}

#[test]
fn model_starts_flat() {
    let m = fresh();
    assert_eq!(m.total(), 314);
    for i in 0..=314usize {
        assert_eq!(m.cum(i), 314 - i as u64);
    }
    for s in 1..=314usize {
        assert_eq!(m.freq(s), 1);
        assert_eq!(m.char_of(s), s - 1);
        assert_eq!(m.sym_of(s - 1), s);
    }
    check_invariant(&m);
}

#[test]
fn counted_symbol_moves_to_the_front_of_its_equals() {
    let mut m = fresh();
    for s in [66usize, 66, 66, 1, 314] {
        m.update_model(s);
    }
    assert_eq!(m.total(), 319);
    assert_eq!(
        [m.freq(1), m.freq(2), m.freq(3), m.freq(4)],
        [3, 2, 2, 2]
    );
    assert_eq!(
        [m.char_of(1), m.char_of(2), m.char_of(3), m.char_of(4)],
        [65, 0, 1, 313]
    );
    assert_eq!(m.sym_of(65), 1);
    assert_eq!(m.sym_of(0), 2);
    assert_eq!([m.cum(1), m.cum(2), m.cum(3)], [316, 314, 312]);
    assert_eq!([m.freq(312), m.freq(313), m.freq(314)], [1, 1, 1]);
    assert_eq!([m.char_of(312), m.char_of(313), m.char_of(314)], [311, 312, 3]);
    check_invariant(&m);
}

#[test]
fn full_model_is_halved_before_it_counts() {
    let mut m = fresh();
    let mut updates = 0;
    while m.total() < 32767 {
        m.update_model(5);
        updates += 1;
    }
    assert_eq!(updates, 32453);
    assert_eq!(m.total(), 32767);
    assert_eq!(m.freq(1), 6492);
    assert_eq!(m.freq(2), 6492);
    check_invariant(&m);
    m.update_model(5);
    assert_eq!(m.total(), 16540);
    assert_eq!(m.freq(1), 3247);
    assert_eq!(m.freq(2), 3246);
    assert_eq!(m.freq(314), 1);
    check_invariant(&m);
}

#[test]
fn invariant_holds_through_many_updates() {
    let mut m = fresh();
    let mut x: u32 = 2463534242;
    for step in 0..60000u32 {
        x ^= x << 13;
        x ^= x >> 17;
        x ^= x << 5;
        let sym = if step % 3 == 0 {
            1 + (x % 7) as usize
        } else {
            1 + (x % 314) as usize
        };
        assert!(m.total() < 32768);
        m.update_model(sym);
        assert!(m.total() < 32768);
        if step % 500 == 0 {
            check_invariant(&m);
        }
    }
    check_invariant(&m);
}

#[test]
fn symbol_search_finds_the_lowest_rank() {
    let m = fresh();
    assert_eq!(m.binary_search_sym(0), 314);
    assert_eq!(m.binary_search_sym(1), 313);
    assert_eq!(m.binary_search_sym(312), 2);
    assert_eq!(m.binary_search_sym(313), 1);
    assert_eq!(m.binary_search_sym(100000), 1);
    let mut m = fresh();
    for s in [66usize, 66, 66, 1, 314] {
        m.update_model(s);
    }
    assert_eq!(m.binary_search_sym(316), 1);
    assert_eq!(m.binary_search_sym(315), 2);
    assert_eq!(m.binary_search_sym(314), 2);
    assert_eq!(m.binary_search_sym(313), 3);
}

#[test]
fn position_table_is_fixed() {
    let mut p = PositionModel::new();
    p.start_model();
    assert_eq!(p.total(), 28568);
    assert_eq!(p.cum(0), 28568);
    assert_eq!(p.cum(1), 28519);
    assert_eq!(p.cum(2), 28470);
    assert_eq!(p.cum(4095), 2);
    assert_eq!(p.cum(4096), 0);
    for i in 1..=4096usize {
        assert_eq!(p.cum(i - 1) - p.cum(i), 10000 / (i as u64 + 200));
    }
}

#[test]
fn position_search_returns_offsets_from_zero() {
    let mut p = PositionModel::new();
    p.start_model();
    assert_eq!(p.binary_search_pos(28567), 0);
    assert_eq!(p.binary_search_pos(28519), 0);
    assert_eq!(p.binary_search_pos(28518), 1);
    assert_eq!(p.binary_search_pos(2), 4094);
    assert_eq!(p.binary_search_pos(1), 4095);
    assert_eq!(p.binary_search_pos(0), 4095);
}
