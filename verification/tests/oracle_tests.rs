use leaselock::oracle::{OracleError, Reading, UtilitiesOracle};
use leaselock::types::AuthGate;

const ADMIN: u64 = 50;
const UNIT1: u64 = 1;
const UNIT2: u64 = 2;
const PERIOD1: u64 = 202510;
const PERIOD2: u64 = 202511;

fn admin_gate() -> AuthGate {
    let mut gate = AuthGate::new();
    gate.allow(ADMIN);
    gate
}

#[test]
fn test_init_and_set_reading() {
    let mut oracle = UtilitiesOracle::new();
    let gate = admin_gate();

    oracle.init(ADMIN).unwrap();
    oracle.set_reading(&gate, UNIT1, PERIOD1, 320, 14, 6800).unwrap();

    let reading = oracle.get_reading(UNIT1, PERIOD1).unwrap();
    assert_eq!(reading.kwh, 320);
    assert_eq!(reading.gas, 14);
    assert_eq!(reading.water, 6800);
}

#[test]
fn test_double_init_panics() {
    let mut oracle = UtilitiesOracle::new();

    oracle.init(ADMIN).unwrap();
    assert_eq!(oracle.init(ADMIN), Err(OracleError::AlreadyInited));
}

#[test]
fn test_set_reading_without_init_panics() {
    let mut oracle = UtilitiesOracle::new();
    let gate = admin_gate();

    let r = oracle.set_reading(&gate, UNIT1, PERIOD1, 320, 14, 6800);
    assert_eq!(r, Err(OracleError::NoAdmin));
}

#[test]
fn test_negative_values_rejected() {
    let mut oracle = UtilitiesOracle::new();
    let gate = admin_gate();

    oracle.init(ADMIN).unwrap();
    let r = oracle.set_reading(&gate, UNIT1, PERIOD1, -1, 14, 6800);
    assert_eq!(r, Err(OracleError::NegativeReading));
}

#[test]
fn test_get_nonexistent_reading_panics() {
    let mut oracle = UtilitiesOracle::new();

    oracle.init(ADMIN).unwrap();
    assert_eq!(oracle.get_reading(UNIT1, PERIOD1), Err(OracleError::NoReading));
}

#[test]
fn test_set_reading_requires_admin_approval() {
    let mut oracle = UtilitiesOracle::new();
    let gate = AuthGate::new();

    oracle.init(ADMIN).unwrap();
    let r = oracle.set_reading(&gate, UNIT1, PERIOD1, 320, 14, 6800);
    assert_eq!(r, Err(OracleError::NotAuthorized));
}

#[test]
fn test_multiple_readings() {
    let mut oracle = UtilitiesOracle::new();
    let gate = admin_gate();

    oracle.init(ADMIN).unwrap();

    oracle.set_reading(&gate, UNIT1, PERIOD1, 320, 14, 6800).unwrap();
    oracle.set_reading(&gate, UNIT1, PERIOD2, 350, 16, 7200).unwrap();
    oracle.set_reading(&gate, UNIT2, PERIOD1, 280, 12, 6500).unwrap();

    let reading1 = oracle.get_reading(UNIT1, PERIOD1).unwrap();
    assert_eq!(reading1.kwh, 320);
    assert_eq!(reading1.gas, 14);
    assert_eq!(reading1.water, 6800);

    let reading2 = oracle.get_reading(UNIT1, PERIOD2).unwrap();
    assert_eq!(reading2.kwh, 350);
    assert_eq!(reading2.gas, 16);
    assert_eq!(reading2.water, 7200);

    let reading3 = oracle.get_reading(UNIT2, PERIOD1).unwrap();
    assert_eq!(reading3.kwh, 280);
    assert_eq!(reading3.gas, 12);
    assert_eq!(reading3.water, 6500);
}

#[test]
fn test_overwrite_same_key() {
    let mut oracle = UtilitiesOracle::new();
    let gate = admin_gate();

    oracle.init(ADMIN).unwrap();
    oracle.set_reading(&gate, UNIT1, PERIOD1, 320, 14, 6800).unwrap();
    oracle.set_reading(&gate, UNIT1, PERIOD1, 321, 15, 6801).unwrap();

    assert_eq!(
        oracle.get_reading(UNIT1, PERIOD1).unwrap(),
        Reading { kwh: 321, gas: 15, water: 6801 }
    );
}

#[test]
fn test_zero_values_allowed() {
    let mut oracle = UtilitiesOracle::new();
    let gate = admin_gate();

    oracle.init(ADMIN).unwrap();
    oracle.set_reading(&gate, UNIT1, PERIOD1, 0, 0, 0).unwrap();

    let reading = oracle.get_reading(UNIT1, PERIOD1).unwrap();
    assert_eq!(reading.kwh, 0);
    assert_eq!(reading.gas, 0);
    assert_eq!(reading.water, 0);
}

#[test]
fn test_event_emission() {
    let mut oracle = UtilitiesOracle::new();
    let gate = admin_gate();

    oracle.init(ADMIN).unwrap();
    oracle.set_reading(&gate, UNIT1, PERIOD1, 320, 14, 6800).unwrap();

    assert_eq!(oracle.events.len(), 1);
    assert_eq!(oracle.events[0].unit, UNIT1);
    assert_eq!(oracle.events[0].period, PERIOD1);
}
