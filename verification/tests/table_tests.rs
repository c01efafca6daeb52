use freqle::score::{TVec3, ONE_BITS, ZERO_BITS};
use freqle::table::{FreqleError, Table};

fn key(s: &str) -> Vec<u8> {
    s.as_bytes().to_vec()
}

fn vec3(h: f64, d: f64, m: f64) -> TVec3 {
    TVec3 { hourly: h.to_bits(), daily: d.to_bits(), monthly: m.to_bits() }
}

fn as_floats(v: &TVec3) -> (f64, f64, f64) {
    (f64::from_bits(v.hourly), f64::from_bits(v.daily), f64::from_bits(v.monthly))
}

/// The caller-side kernel that a bump uses: one added to each component.
fn plus_one(v: &TVec3) -> TVec3 {
    let (h, d, m) = as_floats(v);
    vec3(h + 1.0, d + 1.0, m + 1.0)
}

#[test]
fn bump_absent_yields_unit_vector() {
    let mut t = Table::new();
    t.bump(&key("a"), TVec3::new(ZERO_BITS));
    let e = t.get(&key("a")).unwrap();
    assert_eq!(e, TVec3::new(ONE_BITS));
    assert_eq!(as_floats(&e), (1.0, 1.0, 1.0));
    assert_eq!(ONE_BITS, 1.0f64.to_bits());
    assert_eq!(ZERO_BITS, 0.0f64.to_bits());
}

#[test]
fn bump_present_increments_each_component() {
    let mut t = Table::new();
    let k = key("a");
    t.bump(&k, TVec3::new(ZERO_BITS));
    let inc = plus_one(&t.get(&k).unwrap());
    t.bump(&k, inc);
    assert_eq!(as_floats(&t.get(&k).unwrap()), (2.0, 2.0, 2.0));
    let inc = plus_one(&t.get(&k).unwrap());
    t.bump(&k, inc);
    assert_eq!(as_floats(&t.get(&k).unwrap()), (3.0, 3.0, 3.0));
    assert_eq!(t.len(), 1);
}

#[test]
fn expire_gates_on_monthly_only() {
    let mut t = Table::new();
    t.bump(&key("old"), TVec3::new(ZERO_BITS));
    t.bump(&key("fresh"), TVec3::new(ZERO_BITS));
    t.bump(&key("odd"), TVec3::new(ZERO_BITS));
    // A high hourly score does not save an entry whose monthly score fell.
    t.bump(&key("old"), vec3(9.0, 9.0, 0.05));
    t.bump(&key("fresh"), vec3(0.0, 0.0, 0.5));
    t.bump(&key("odd"), vec3(0.0, 0.0, 0.1));
    t.expire(0.1f64.to_bits());
    assert!(t.get(&key("old")).is_none());
    assert!(t.get(&key("odd")).is_none(), "a monthly score equal to the threshold expires");
    assert_eq!(as_floats(&t.get(&key("fresh")).unwrap()), (0.0, 0.0, 0.5));
    assert_eq!(t.len(), 1);
}

#[test]
fn expire_removes_nan_monthly() {
    let mut t = Table::new();
    let k = key("a");
    t.bump(&k, TVec3::new(ZERO_BITS));
    t.bump(&k, vec3(1.0, 1.0, f64::NAN));
    t.expire(0.1f64.to_bits());
    assert!(t.get(&k).is_none());
}

#[test]
fn delete_is_idempotent() {
    let mut t = Table::new();
    t.bump(&key("a"), TVec3::new(ZERO_BITS));
    t.bump(&key("b"), TVec3::new(ZERO_BITS));
    t.delete(&key("a"));
    assert!(t.get(&key("a")).is_none());
    assert!(t.get(&key("b")).is_some());
    t.delete(&key("a"));
    t.delete(&key("missing"));
    assert_eq!(t.len(), 1);
}

#[test]
fn restrict_keeps_only_listed_keys_unchanged() {
    let mut t = Table::new();
    t.bump(&key("a"), TVec3::new(ZERO_BITS));
    t.bump(&key("b"), TVec3::new(ZERO_BITS));
    t.bump(&key("b"), vec3(2.0, 2.0, 2.0));
    let r = t.restrict(&vec![key("b"), key("absent"), key("b")]);
    assert_eq!(r.len(), 1);
    assert!(r.get(&key("a")).is_none());
    assert!(r.get(&key("absent")).is_none());
    assert_eq!(as_floats(&r.get(&key("b")).unwrap()), (2.0, 2.0, 2.0));
    assert_eq!(r.last_update, t.last_update);
    // The source table is untouched.
    assert_eq!(t.len(), 2);
}

#[test]
fn augment_inserts_only_absent_keys() {
    let mut t = Table::new();
    t.bump(&key("kept"), TVec3::new(ZERO_BITS));
    t.augment(&vec![key("kept"), key("new"), key("new")]);
    assert_eq!(t.len(), 2);
    // Augmenting never resets an energy the table already holds.
    assert_eq!(as_floats(&t.get(&key("kept")).unwrap()), (1.0, 1.0, 1.0));
    assert_eq!(as_floats(&t.get(&key("new")).unwrap()), (0.0, 0.0, 0.0));
}

#[test]
fn decay_scales_and_advances_the_clock() {
    let mut t = Table::new();
    t.bump(&key("a"), TVec3::new(ZERO_BITS));
    let start = t.last_update;
    let now = start + 3600;
    let dt = t.elapsed_seconds(now) as f64;
    assert_eq!(dt, 3600.0);
    let alpha = (
        0.5f64.powf(dt / 3600.0),
        0.5f64.powf(dt / 86400.0),
        0.5f64.powf(dt / 2592000.0),
    );
    let mut scaled = Vec::new();
    for e in &t.entries {
        let (h, d, m) = as_floats(&e.energy);
        scaled.push(vec3(h * alpha.0, d * alpha.1, m * alpha.2));
    }
    t.decay(now, &scaled);
    assert_eq!(t.last_update, now);
    let (h, d, m) = as_floats(&t.get(&key("a")).unwrap());
    assert_eq!(h, 0.5);
    assert_eq!(d, 0.5f64.powf(3600.0 / 86400.0));
    assert_eq!(m, 0.5f64.powf(3600.0 / 2592000.0));
    // A second decay at the same instant sees zero elapsed seconds, so
    // every factor is one and nothing changes.
    let dt2 = t.elapsed_seconds(now) as f64;
    assert_eq!(dt2, 0.0);
    let alpha2 = 0.5f64.powf(dt2 / 3600.0);
    assert_eq!(alpha2, 1.0);
    let mut scaled2 = Vec::new();
    for e in &t.entries {
        let (h2, d2, m2) = as_floats(&e.energy);
        scaled2.push(vec3(h2 * alpha2, d2 * 0.5f64.powf(dt2 / 86400.0), m2 * 0.5f64.powf(dt2 / 2592000.0)));
    }
    t.decay(now, &scaled2);
    assert_eq!(as_floats(&t.get(&key("a")).unwrap()), (h, d, m));
    assert_eq!(t.last_update, now);
}

#[test]
fn view_ranks_by_score_descending() {
    let mut t = Table::new();
    t.bump(&key("low"), TVec3::new(ZERO_BITS));
    t.bump(&key("high"), TVec3::new(ZERO_BITS));
    t.bump(&key("high"), vec3(5.0, 0.0, 0.0));
    t.bump(&key("mid"), TVec3::new(ZERO_BITS));
    t.bump(&key("mid"), vec3(3.0, 0.0, 0.0));
    let weights = (1.0, 0.0, 0.0);
    let mut scores = Vec::new();
    for e in &t.entries {
        let (h, d, m) = as_floats(&e.energy);
        scores.push((weights.0 * h + weights.1 * d + weights.2 * m).to_bits());
    }
    let order = t.view(&scores).unwrap();
    let ranked: Vec<&[u8]> = order.iter().map(|&i| t.entries[i].key.as_slice()).collect();
    assert_eq!(ranked, vec![b"high".as_slice(), b"mid".as_slice(), b"low".as_slice()]);
}

#[test]
fn view_on_empty_table_is_empty() {
    let t = Table::new();
    let order = t.view(&Vec::new()).unwrap();
    assert!(order.is_empty());
}

#[test]
fn view_fails_on_nan_score() {
    let mut t = Table::new();
    let k = key("a");
    t.bump(&k, TVec3::new(ZERO_BITS));
    t.bump(&k, vec3(f64::NAN, 0.0, 0.0));
    let (h, d, m) = as_floats(&t.entries[0].energy);
    let score = 1.0 * h + 0.0 * d + 0.0 * m;
    assert!(score.is_nan());
    let r = t.view(&vec![score.to_bits()]);
    assert_eq!(r, Err(FreqleError::NumError));
}

#[test]
fn new_table_is_empty() {
    let t = Table::new();
    assert_eq!(t.len(), 0);
    assert!(t.get(&key("anything")).is_none());
}
