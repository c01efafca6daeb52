use freqle::codec::{run_delete, DeleteArgs};
use freqle::score::{TVec3, ZERO_BITS};
use freqle::table::{FreqleError, Table};

fn key(s: &str) -> Vec<u8> {
    s.as_bytes().to_vec()
}

fn vec3(h: f64, d: f64, m: f64) -> TVec3 {
    TVec3 { hourly: h.to_bits(), daily: d.to_bits(), monthly: m.to_bits() }
}

fn sample_table() -> Table {
    let mut t = Table::new();
    t.bump(&key("alpha"), TVec3::new(ZERO_BITS));
    t.bump(&key("beta"), TVec3::new(ZERO_BITS));
    t.bump(&key("beta"), vec3(2.5, 0.125, -3.0));
    t
}

#[test]
fn round_trip_reproduces_the_table() {
    let t = sample_table();
    let bytes = t.write();
    let back = Table::decode(&bytes).unwrap();
    assert_eq!(back.last_update, t.last_update);
    assert_eq!(back.len(), t.len());
    assert_eq!(back.get(&key("alpha")), t.get(&key("alpha")));
    assert_eq!(back.get(&key("beta")), t.get(&key("beta")));
    // Persisting the reloaded table emits the very same bytes.
    assert_eq!(back.write(), bytes);
}

#[test]
fn round_trip_keeps_a_negative_instant() {
    let mut t = Table::new();
    t.last_update = -12345;
    t.bump(&key("a"), TVec3::new(ZERO_BITS));
    let bytes = t.write();
    let back = Table::decode(&bytes).unwrap();
    assert_eq!(back.last_update, -12345);
    assert_eq!(back.write(), bytes);
}

#[test]
fn decode_rejects_corruption() {
    let t = sample_table();
    let mut bytes = t.write();
    // Trailing garbage.
    bytes.push(0);
    assert!(Table::decode(&bytes).is_none());
    bytes.pop();
    // Truncation.
    bytes.pop();
    assert!(Table::decode(&bytes).is_none());
    // Too short for a header at all.
    assert!(Table::decode(&vec![1, 2, 3]).is_none());
    assert!(Table::decode(&Vec::new()).is_none());
    // A non-canonical sign byte.
    let mut bytes = t.write();
    bytes[0] = 7;
    assert!(Table::decode(&bytes).is_none());
}

#[test]
fn load_strict_on_absent_file_is_an_error() {
    let r = Table::load(None, true, 1000);
    assert!(matches!(r, Err(FreqleError::StrictFileMissing)));
}

#[test]
fn load_lax_on_absent_file_is_a_fresh_table() {
    let t = Table::load(None, false, 1000).unwrap();
    assert_eq!(t.last_update, 1000);
    assert_eq!(t.len(), 0);
}

#[test]
fn load_surfaces_a_decode_failure() {
    let r = Table::load(Some(vec![0xff; 40]), true, 0);
    assert!(matches!(r, Err(FreqleError::BinError)));
    let r = Table::load(Some(vec![0xff; 40]), false, 0);
    assert!(matches!(r, Err(FreqleError::BinError)), "corruption is never reset to empty");
}

#[test]
fn load_reads_back_persisted_bytes() {
    let t = sample_table();
    let back = Table::load(Some(t.write()), true, 0).unwrap();
    assert_eq!(back.get(&key("beta")), t.get(&key("beta")));
}

#[test]
fn run_delete_removes_the_entry_and_persists() {
    let t = sample_table();
    let args = DeleteArgs { path: String::from("history.bin"), key: key("alpha"), strict: false };
    let out = run_delete(Some(t.write()), &args, 0).unwrap();
    let back = Table::decode(&out).unwrap();
    assert_eq!(back.last_update, t.last_update);
    assert!(back.get(&key("alpha")).is_none());
    assert_eq!(back.get(&key("beta")), t.get(&key("beta")));
}

#[test]
fn run_delete_on_absent_file_respects_strict() {
    let args = DeleteArgs { path: String::from("history.bin"), key: key("a"), strict: true };
    assert!(matches!(run_delete(None, &args, 5), Err(FreqleError::StrictFileMissing)));
    let args = DeleteArgs { path: String::from("history.bin"), key: key("a"), strict: false };
    let out = run_delete(None, &args, 5).unwrap();
    let back = Table::decode(&out).unwrap();
    assert_eq!(back.last_update, 5);
    assert_eq!(back.len(), 0);
}

#[test]
fn run_delete_surfaces_corruption() {
    let args = DeleteArgs { path: String::from("history.bin"), key: key("a"), strict: false };
    assert!(matches!(run_delete(Some(vec![9; 20]), &args, 0), Err(FreqleError::BinError)));
}
