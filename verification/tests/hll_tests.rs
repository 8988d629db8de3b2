use schemasniff::hll::Hll;

/// The HyperLogLog estimate over the sketch's registers (the caller's
/// side of the library computes it the same way).
fn estimate(hll: &Hll) -> f64 {
    let regs = hll.registers();
    let m = regs.len() as f64;
    let alpha = 0.7213 / (1.0 + 1.079 / m);
    let raw = alpha * m * m / regs.iter().map(|&r| 2f64.powi(-(r as i32))).sum::<f64>();
    if raw <= 2.5 * m {
        let zeros = regs.iter().filter(|&&r| r == 0).count() as f64;
        if zeros > 0.0 {
            return m * (m / zeros).ln();
        }
    }
    if raw <= (1u64 << 32) as f64 / 30.0 {
        raw
    } else {
        -((1u64 << 32) as f64) * (1.0 - raw / (1u64 << 32) as f64).ln()
    }
}

#[test]
fn empty_sketch_returns_zero() {
    assert_eq!(estimate(&Hll::new()).round() as u64, 0);
}

#[test]
fn single_value_returns_one() {
    let mut hll = Hll::new();
    hll.insert("hello");
    assert!((estimate(&hll) - 1.0).abs() < 1.0);
}

#[test]
fn duplicate_values_do_not_inflate_count() {
    let mut hll = Hll::new();
    for _ in 0..1000 {
        hll.insert("same_value");
    }
    assert!(estimate(&hll) < 10.0);
}

#[test]
fn cardinality_within_2_percent_at_10k() {
    let mut hll = Hll::new();
    for i in 0..10_000 {
        hll.insert(&i.to_string());
    }
    let error = (estimate(&hll) - 10_000.0).abs() / 10_000.0;
    assert!(error < 0.02, "error {error:.4} exceeded 2%");
}

#[test]
fn cardinality_within_2_percent_at_100k() {
    let mut hll = Hll::new();
    for i in 0..100_000 {
        hll.insert(&i.to_string());
    }
    let error = (estimate(&hll) - 100_000.0).abs() / 100_000.0;
    assert!(error < 0.02, "error {error:.4} exceeded 2%");
}

#[test]
fn insert_sets_one_register_to_the_rank() {
    let mut hll = Hll::new();
    hll.insert("hello");
    let nonzero: Vec<u8> = hll.registers().iter().copied().filter(|r| *r != 0).collect();
    assert_eq!(nonzero.len(), 1);
    assert!(nonzero[0] >= 1 && nonzero[0] <= 51);
    assert_eq!(hll.registers().len(), 16384);
}

#[test]
fn insert_is_idempotent_and_order_free() {
    let mut a = Hll::new();
    a.insert("x");
    a.insert("y");
    a.insert("x");
    let mut b = Hll::new();
    b.insert("y");
    b.insert("x");
    assert_eq!(a.registers(), b.registers());
}

#[test]
fn insert_and_insert_bytes_agree() {
    let mut a = Hll::new();
    a.insert("名前");
    let mut b = Hll::new();
    b.insert_bytes("名前".as_bytes());
    assert_eq!(a.registers(), b.registers());
}

#[test]
fn fnv_hash_is_exact() {
    // FNV-1a of the empty input is its offset basis, then the finalizer runs
    let h = schemasniff::hll::fnv1a_64(b"");
    let mut x: u64 = 0xcbf29ce484222325;
    x ^= x >> 33;
    x = x.wrapping_mul(0xff51afd7ed558ccd);
    x ^= x >> 33;
    x = x.wrapping_mul(0xc4ceb9fe1a85ec53);
    x ^= x >> 33;
    assert_eq!(h, x);
}

#[test]
fn insert_never_lowers_a_register() {
    let mut hll = Hll::new();
    let mut before: Vec<u8> = hll.registers().clone();
    for i in 0..2000 {
        hll.insert(&format!("value-{i}"));
        let after = hll.registers().clone();
        assert!(before.iter().zip(after.iter()).all(|(b, a)| a >= b));
        before = after;
    }
}

#[test]
fn sketch_depends_only_on_the_set_of_values() {
    let mut a = Hll::new();
    for v in ["a", "b", "a", "c", "b", "a"] {
        a.insert(v);
    }
    let mut b = Hll::new();
    for v in ["c", "b", "a"] {
        b.insert(v);
    }
    assert_eq!(a.registers(), b.registers());
    a.insert("d");
    b.insert("d");
    assert_eq!(a.registers(), b.registers());
    assert_eq!(estimate(&a), estimate(&b));
}
