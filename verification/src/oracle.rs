//! The utilities oracle: an admin-gated store of metered readings, keyed by
//! unit and billing period. A collaborator of the lease registry; it shares
//! the injected-gate and explicit-state style of the registry but owns no
//! tree structure.

use vstd::prelude::*;

use crate::types::AuthGate;

verus! {

/// One metered reading for a unit and period.
#[derive(Clone, Copy, PartialEq, Eq, Structural, Debug)]
pub struct Reading {
    pub kwh: i64,
    pub gas: i64,
    pub water: i64,
}

/// Named abort conditions of the oracle.
#[derive(Clone, Copy, PartialEq, Eq, Structural, Debug)]
pub enum OracleError {
    /// The oracle was already initialized.
    AlreadyInited,
    /// No admin was recorded yet.
    NoAdmin,
    /// The admin did not approve the call.
    NotAuthorized,
    /// A reading value was negative.
    NegativeReading,
    /// No reading is stored under the given unit and period.
    NoReading,
}

/// One notification per successful reading update.
#[derive(Clone, Copy, PartialEq, Eq, Structural, Debug)]
pub struct ReadingSet {
    pub unit: u64,
    pub period: u64,
}

/// The oracle's state: the admin principal, once set, and the stored
/// readings, one per (unit, period) key.
pub struct UtilitiesOracle {
    pub admin: Option<u64>,
    pub readings: Vec<((u64, u64), Reading)>,
    pub events: Vec<ReadingSet>,
}

/// The reading stored under `key`, scanning newest entries last.
pub open spec fn lookup(entries: Seq<((u64, u64), Reading)>, key: (u64, u64)) -> Option<Reading>
    decreases entries.len(),
{
    if entries.len() == 0 {
        None
    } else if entries[0].0 == key {
        Some(entries[0].1)
    } else {
        lookup(entries.drop_first(), key)
    }
}

impl UtilitiesOracle {
    /// Keys are stored at most once, so an in-place update is sound.
    pub open spec fn inv(self) -> bool {
        forall|i: int, j: int|
            0 <= i < j < self.readings@.len() ==> self.readings@[i].0 != self.readings@[j].0
    }

    /// A fresh oracle: no admin, no readings, no events.
    pub fn new() -> (o: UtilitiesOracle)
        ensures
            o.inv(),
            o.admin is None,
            o.readings@.len() == 0,
            o.events@.len() == 0,
    {
        UtilitiesOracle { admin: None, readings: Vec::new(), events: Vec::new() }
    }

    /// One-time initializer: records the admin principal. Fails
    /// `AlreadyInited` exactly when an admin was recorded before.
    pub fn init(&mut self, admin: u64) -> (r: Result<(), OracleError>)
        requires
            old(self).inv(),
        ensures
            final(self).inv(),
            old(self).admin is Some ==> r == Err::<(), OracleError>(OracleError::AlreadyInited)
                && *final(self) == *old(self),
            old(self).admin is None ==> {
                &&& r == Ok::<(), OracleError>(())
                &&& final(self).admin == Some(admin)
                &&& final(self).readings == old(self).readings
                &&& final(self).events == old(self).events
            },
    {
        if self.admin.is_some() {
            return Err(OracleError::AlreadyInited);
        }
        self.admin = Some(admin);
        Ok(())
    }

    /// Stores the reading for `(unit, period)`, overwriting any earlier one
    /// under the same key and leaving every other key untouched.
    ///
    /// Fails `NoAdmin` before initialization, `NotAuthorized` without the
    /// admin's approval, and `NegativeReading` exactly when any of the three
    /// values is negative; zero values are allowed. Logs one event.
    pub fn set_reading(
        &mut self,
        gate: &AuthGate,
        unit: u64,
        period: u64,
        kwh: i64,
        gas: i64,
        water: i64,
    ) -> (r: Result<(), OracleError>)
        requires
            old(self).inv(),
        ensures
            final(self).inv(),
            r is Err ==> *final(self) == *old(self),
            old(self).admin is None ==> r == Err::<(), OracleError>(OracleError::NoAdmin),
            old(self).admin matches Some(a) ==> {
                &&& !gate.approves(a) ==> r == Err::<(), OracleError>(OracleError::NotAuthorized)
                &&& gate.approves(a) && (kwh < 0 || gas < 0 || water < 0) ==> r == Err::<
                    (),
                    OracleError,
                >(OracleError::NegativeReading)
                &&& gate.approves(a) && kwh >= 0 && gas >= 0 && water >= 0 ==> {
                    &&& r == Ok::<(), OracleError>(())
                    &&& final(self).admin == old(self).admin
                    &&& lookup(final(self).readings@, (unit, period)) == Some(
                        Reading { kwh, gas, water },
                    )
                    &&& forall|k: (u64, u64)|
                        k != (unit, period) ==> lookup(final(self).readings@, k) == lookup(
                            old(self).readings@,
                            k,
                        )
                    &&& final(self).events@ == old(self).events@.push(ReadingSet { unit, period })
                }
            },
    {
        let admin = match self.admin {
            Some(a) => a,
            None => { return Err(OracleError::NoAdmin); },
        };
        if !gate.approve(admin) {
            return Err(OracleError::NotAuthorized);
        }
        if kwh < 0 || gas < 0 || water < 0 {
            return Err(OracleError::NegativeReading);
        }
        let reading = Reading { kwh, gas, water };
        let ghost pre = self.readings@;
        let mut i: usize = 0;
        while i < self.readings.len()
            invariant
                i <= self.readings@.len(),
                *self == *old(self),
                pre == old(self).readings@,
                old(self).inv(),
                old(self).admin == Some(admin),
                gate.approves(admin),
                kwh >= 0 && gas >= 0 && water >= 0,
                reading == (Reading { kwh, gas, water }),
                forall|k: int| 0 <= k < i ==> pre[k].0 != (unit, period),
            decreases self.readings@.len() - i,
        {
            let (k, _) = self.readings[i];
            if k.0 == unit && k.1 == period {
                proof {
                    assert(k =~= (unit, period));
                    assert(pre[i as int].0 == (unit, period));
                }
                self.readings[i] = ((unit, period), reading);
                self.events.push(ReadingSet { unit, period });
                proof {
                    assert(self.readings@ == pre.update(i as int, ((unit, period), reading)));
                    lemma_lookup_update(pre, i as int, (unit, period), reading);
                    assert forall|a: int, b: int|
                        0 <= a < b < self.readings@.len() implies self.readings@[a].0
                        != self.readings@[b].0 by {
                        assert(old(self).inv());
                        assert(self.readings@[a].0 == pre[a].0);
                        assert(self.readings@[b].0 == pre[b].0);
                    }
                }
                return Ok(());
            }
            i += 1;
        }
        self.readings.push(((unit, period), reading));
        self.events.push(ReadingSet { unit, period });
        proof {
            lemma_lookup_append(pre, (unit, period), reading);
            assert forall|a: int, b: int|
                0 <= a < b < self.readings@.len() implies self.readings@[a].0
                != self.readings@[b].0 by {
                if b == pre.len() {
                    assert(pre[a].0 != (unit, period));
                }
            }
        }
        Ok(())
    }

    /// The reading stored under `(unit, period)`; fails `NoReading` exactly
    /// when none was ever stored for that key.
    pub fn get_reading(&self, unit: u64, period: u64) -> (r: Result<Reading, OracleError>)
        ensures
            match r {
                Ok(v) => lookup(self.readings@, (unit, period)) == Some(v),
                Err(e) => e == OracleError::NoReading && lookup(self.readings@, (unit, period))
                    is None,
            },
    {
        let mut i: usize = 0;
        while i < self.readings.len()
            invariant
                i <= self.readings@.len(),
                forall|k: int| 0 <= k < i ==> self.readings@[k].0 != (unit, period),
            decreases self.readings@.len() - i,
        {
            let (k, v) = self.readings[i];
            if k.0 == unit && k.1 == period {
                proof {
                    lemma_lookup_found(self.readings@, i as int, (unit, period));
                }
                return Ok(v);
            }
            i += 1;
        }
        proof {
            lemma_lookup_missing(self.readings@, (unit, period));
        }
        Err(OracleError::NoReading)
    }
}

/// Scanning left to right, the first matching key decides the lookup.
proof fn lemma_lookup_found(entries: Seq<((u64, u64), Reading)>, i: int, key: (u64, u64))
    requires
        0 <= i < entries.len(),
        entries[i].0 == key,
        forall|k: int| 0 <= k < i ==> entries[k].0 != key,
    ensures
        lookup(entries, key) == Some(entries[i].1),
    decreases entries.len(),
{
    if i > 0 {
        let t = entries.drop_first();
        lemma_lookup_found(t, i - 1, key);
    }
}

/// A key absent from every entry looks up to nothing.
proof fn lemma_lookup_missing(entries: Seq<((u64, u64), Reading)>, key: (u64, u64))
    requires
        forall|k: int| 0 <= k < entries.len() ==> entries[k].0 != key,
    ensures
        lookup(entries, key) is None,
    decreases entries.len(),
{
    if entries.len() > 0 {
        lemma_lookup_missing(entries.drop_first(), key);
    }
}

/// Updating the entry holding `key` in place changes only that key's
/// lookup.
proof fn lemma_lookup_update(
    entries: Seq<((u64, u64), Reading)>,
    i: int,
    key: (u64, u64),
    v: Reading,
)
    requires
        0 <= i < entries.len(),
        entries[i].0 == key,
        forall|k: int| 0 <= k < i ==> entries[k].0 != key,
    ensures
        lookup(entries.update(i, (key, v)), key) == Some(v),
        forall|k2: (u64, u64)|
            k2 != key ==> lookup(entries.update(i, (key, v)), k2) == lookup(entries, k2),
    decreases entries.len(),
{
    let up = entries.update(i, (key, v));
    if i == 0 {
        assert(up[0] == (key, v));
        assert forall|k2: (u64, u64)|
            k2 != key implies lookup(up, k2) == lookup(entries, k2) by {
            assert(up.drop_first() =~= entries.drop_first());
        }
    } else {
        lemma_lookup_update(entries.drop_first(), i - 1, key, v);
        assert(up[0] == entries[0]);
        assert(up.drop_first() =~= entries.drop_first().update(i - 1, (key, v)));
        assert forall|k2: (u64, u64)|
            k2 != key implies lookup(up, k2) == lookup(entries, k2) by {
            if up[0].0 != k2 {
                assert(lookup(up.drop_first(), k2) == lookup(entries.drop_first(), k2));
            }
        }
    }
}

/// Appending an entry with a fresh key adds that key's lookup and keeps
/// every other.
proof fn lemma_lookup_append(entries: Seq<((u64, u64), Reading)>, key: (u64, u64), v: Reading)
    requires
        forall|k: int| 0 <= k < entries.len() ==> entries[k].0 != key,
    ensures
        lookup(entries.push((key, v)), key) == Some(v),
        forall|k2: (u64, u64)|
            k2 != key ==> lookup(entries.push((key, v)), k2) == lookup(entries, k2),
    decreases entries.len(),
{
    let ap = entries.push((key, v));
    if entries.len() == 0 {
        assert(ap[0] == (key, v));
        assert forall|k2: (u64, u64)|
            k2 != key implies lookup(ap, k2) == lookup(entries, k2) by {
            assert(ap.drop_first() =~= Seq::<((u64, u64), Reading)>::empty());
            lemma_lookup_missing(ap.drop_first(), k2);
        }
    } else {
        lemma_lookup_append(entries.drop_first(), key, v);
        assert(ap[0] == entries[0]);
        assert(ap.drop_first() =~= entries.drop_first().push((key, v)));
        assert forall|k2: (u64, u64)|
            k2 != key implies lookup(ap, k2) == lookup(entries, k2) by {
            if ap[0].0 != k2 {
                assert(lookup(ap.drop_first(), k2) == lookup(entries.drop_first(), k2));
            }
        }
    }
}

} // verus!
