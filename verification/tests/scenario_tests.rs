//! End-to-end scenarios through persist, reload and the ranked listing,
//! with the floating-point kernels computed here as the caller would.

use freqle::score::{TVec3, ZERO_BITS};
use freqle::table::{FreqleError, Table};

fn key(s: &str) -> Vec<u8> {
    s.as_bytes().to_vec()
}

fn vec3(h: f64, d: f64, m: f64) -> TVec3 {
    TVec3 { hourly: h.to_bits(), daily: d.to_bits(), monthly: m.to_bits() }
}

fn dot(w: (f64, f64, f64), e: &TVec3) -> f64 {
    w.0 * f64::from_bits(e.hourly) + w.1 * f64::from_bits(e.daily) + w.2 * f64::from_bits(e.monthly)
}

/// The listing lines a view emits, keys only.
fn view_lines(t: &Table, w: (f64, f64, f64)) -> Result<Vec<String>, FreqleError> {
    let mut scores = Vec::new();
    for e in &t.entries {
        scores.push(dot(w, &e.energy).to_bits());
    }
    let order = t.view(&scores)?;
    Ok(order
        .iter()
        .map(|&i| String::from_utf8(t.entries[i].key.clone()).unwrap())
        .collect())
}

#[test]
fn bump_persist_reload_view_emits_one_line() {
    let mut t = Table::new();
    t.bump(&key("a"), TVec3::new(ZERO_BITS));
    let stored = t.write();
    let reloaded = Table::load(Some(stored), false, 0).unwrap();
    let lines = view_lines(&reloaded, (1.0, 1.0, 1.0)).unwrap();
    assert_eq!(lines, vec![String::from("a")]);
}

#[test]
fn view_with_scores_orders_by_weighted_score() {
    let mut t = Table::new();
    t.bump(&key("a"), TVec3::new(ZERO_BITS));
    t.bump(&key("a"), vec3(2.0, 2.0, 2.0));
    t.bump(&key("b"), TVec3::new(ZERO_BITS));
    let w = (1.0, 0.0, 0.0);
    let mut scores = Vec::new();
    for e in &t.entries {
        scores.push(dot(w, &e.energy).to_bits());
    }
    let order = t.view(&scores).unwrap();
    let ranked: Vec<(String, f64)> = order
        .iter()
        .map(|&i| {
            (
                String::from_utf8(t.entries[i].key.clone()).unwrap(),
                f64::from_bits(scores[i]),
            )
        })
        .collect();
    assert_eq!(ranked, vec![(String::from("a"), 2.0), (String::from("b"), 1.0)]);
}

#[test]
fn view_on_nan_energy_fails_with_no_output() {
    let mut t = Table::new();
    t.bump(&key("a"), TVec3::new(ZERO_BITS));
    t.bump(&key("a"), vec3(f64::NAN, 0.0, 0.0));
    let r = view_lines(&t, (1.0, 0.0, 0.0));
    assert_eq!(r, Err(FreqleError::NumError));
}

#[test]
fn strict_load_of_an_absent_path_fails() {
    assert!(matches!(
        Table::load(None, true, 42),
        Err(FreqleError::StrictFileMissing)
    ));
}
