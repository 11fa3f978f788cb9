//! Cold-chain temperature monitor: per-unit thresholds, a paged reading log
//! whose pages carry an explicit length counter, and a consecutive-violation
//! streak that compromises a unit.

use std::collections::HashMap;

use vstd::prelude::*;

use crate::address::Address;
use crate::constants::{COMPROMISE_STREAK_THRESHOLD, PAGE_SIZE};

verus! {

broadcast use vstd::std_specs::hash::group_hash_axioms;

/// One measurement, in hundredths of a degree Celsius. `is_violation` is
/// decided against the threshold in force when the reading was logged.
#[derive(Clone, Copy, Debug, PartialEq, Eq, Structural)]
pub struct TemperatureReading {
    pub temperature_celsius_x100: i32,
    pub timestamp: u64,
    pub is_violation: bool,
}

/// The allowed range of a unit, bounds included.
#[derive(Clone, Copy, Debug, PartialEq, Eq, Structural)]
pub struct TemperatureThreshold {
    pub min_celsius_x100: i32,
    pub max_celsius_x100: i32,
}

/// Statistics over every reading of a unit.
#[derive(Clone, Copy, Debug, PartialEq, Eq, Structural)]
pub struct TemperatureSummary {
    pub count: u32,
    pub avg_celsius_x100: i32,
    pub min_celsius_x100: i32,
    pub max_celsius_x100: i32,
    pub violation_count: u32,
}

/// Failures reported by the temperature monitor.
#[derive(Clone, Copy, Debug, PartialEq, Eq, Structural)]
pub enum ContractError {
    AlreadyInitialized,
    Unauthorized,
    InvalidThreshold,
    ThresholdNotFound,
    UnitNotFound,
}

/// Whether `temperature` lies outside `threshold`.
pub open spec fn violates(threshold: TemperatureThreshold, temperature: i32) -> bool {
    temperature < threshold.min_celsius_x100 || temperature > threshold.max_celsius_x100
}

/// `n` capped at the largest `u32`.
pub open spec fn saturate_u32(n: int) -> u32 {
    if n > u32::MAX {
        u32::MAX
    } else {
        n as u32
    }
}

/// The streak after one more reading.
pub open spec fn next_streak(streak: u32, is_violation: bool) -> u32 {
    if is_violation {
        saturate_u32(streak + 1)
    } else {
        0
    }
}

/// The exact sum of the temperatures.
pub open spec fn temps_sum(s: Seq<TemperatureReading>) -> int
    decreases s.len(),
{
    if s.len() == 0 {
        0
    } else {
        temps_sum(s.drop_last()) + s.last().temperature_celsius_x100
    }
}

/// The lowest temperature (`i32::MAX` for no readings).
pub open spec fn temps_min(s: Seq<TemperatureReading>) -> i32
    decreases s.len(),
{
    if s.len() == 0 {
        i32::MAX
    } else {
        let m = temps_min(s.drop_last());
        if s.last().temperature_celsius_x100 < m {
            s.last().temperature_celsius_x100
        } else {
            m
        }
    }
}

/// The highest temperature (`i32::MIN` for no readings).
pub open spec fn temps_max(s: Seq<TemperatureReading>) -> i32
    decreases s.len(),
{
    if s.len() == 0 {
        i32::MIN
    } else {
        let m = temps_max(s.drop_last());
        if s.last().temperature_celsius_x100 > m {
            s.last().temperature_celsius_x100
        } else {
            m
        }
    }
}

/// The readings flagged as violations, in order.
pub open spec fn violations_of(s: Seq<TemperatureReading>) -> Seq<TemperatureReading> {
    s.filter(|r: TemperatureReading| r.is_violation)
}

/// `total / n` rounded toward zero.
pub open spec fn mean_toward_zero(total: int, n: int) -> int {
    if total >= 0 {
        total / n
    } else {
        -((-total) / n)
    }
}

/// One page of a unit's log. Only the first `len` slots hold readings; the
/// slots beyond are never read.
pub struct ReadingPage {
    slots: Vec<TemperatureReading>,
    len: u32,
}

impl View for ReadingPage {
    type V = Seq<TemperatureReading>;

    closed spec fn view(&self) -> Seq<TemperatureReading> {
        self.slots@.subrange(0, self.len as int)
    }
}

impl ReadingPage {
    /// The length counter covers stored slots, and a page is neither empty
    /// nor over-full.
    pub closed spec fn wf(&self) -> bool {
        &&& self.len as int <= self.slots@.len()
        &&& 1 <= self.len <= PAGE_SIZE
    }
}

/// The readings of consecutive pages, in order.
pub open spec fn log_of(pages: Seq<ReadingPage>) -> Seq<TemperatureReading>
    decreases pages.len(),
{
    if pages.len() == 0 {
        Seq::empty()
    } else {
        log_of(pages.drop_last()) + pages.last()@
    }
}

/// Everything the monitor keeps about one unit.
pub struct UnitLog {
    threshold: TemperatureThreshold,
    pages: Vec<ReadingPage>,
    streak: u32,
    compromised: bool,
}

impl View for UnitLog {
    type V = Seq<TemperatureReading>;

    closed spec fn view(&self) -> Seq<TemperatureReading> {
        log_of(self.pages@)
    }
}

impl UnitLog {
    /// Page layout (every page but the last is full), a proper threshold,
    /// and the streak rules: a streak of the compromise length has set the
    /// flag, and an in-range latest reading leaves no streak.
    pub closed spec fn wf(&self) -> bool {
        &&& forall|p: int| 0 <= p < self.pages@.len() ==> (#[trigger] self.pages@[p]).wf()
        &&& forall|p: int|
            0 <= p < self.pages@.len() - 1 ==> (#[trigger] self.pages@[p]).len == PAGE_SIZE
        &&& self.threshold.min_celsius_x100 < self.threshold.max_celsius_x100
        &&& self.streak >= COMPROMISE_STREAK_THRESHOLD ==> self.compromised
        &&& self@.len() > 0 && !self@.last().is_violation ==> self.streak == 0
    }

    fn page_len(&self, page_num: usize) -> (r: u32)
        ensures
            r == if page_num < self.pages@.len() {
                self.pages@[page_num as int].len
            } else {
                0
            },
    {
        if page_num < self.pages.len() {
            self.pages[page_num].len
        } else {
            0
        }
    }

    /// Writes `reading` at the frontier: the first page whose length counter
    /// is below `PAGE_SIZE`, or a fresh page after the last full one.
    fn append(&mut self, reading: TemperatureReading)
        requires
            forall|p: int| 0 <= p < old(self).pages@.len() ==> (#[trigger] old(self).pages@[p]).wf(),
            forall|p: int|
                0 <= p < old(self).pages@.len() - 1 ==> (#[trigger] old(self).pages@[p]).len
                    == PAGE_SIZE,
        ensures
            forall|p: int|
                0 <= p < final(self).pages@.len() ==> (#[trigger] final(self).pages@[p]).wf(),
            forall|p: int|
                0 <= p < final(self).pages@.len() - 1 ==> (#[trigger] final(self).pages@[p]).len
                    == PAGE_SIZE,
            final(self)@ == old(self)@.push(reading),
            final(self).threshold == old(self).threshold,
            final(self).streak == old(self).streak,
            final(self).compromised == old(self).compromised,
    {
        let mut page_num: usize = 0;
        let mut position: u32 = 0;
        loop
            invariant
                page_num <= self.pages@.len(),
                forall|p: int| 0 <= p < page_num ==> (#[trigger] self.pages@[p]).len == PAGE_SIZE,
                forall|p: int| 0 <= p < self.pages@.len() ==> (#[trigger] self.pages@[p]).wf(),
            ensures
                page_num < self.pages@.len() ==> position == self.pages@[page_num as int].len
                    && position < PAGE_SIZE,
                page_num == self.pages@.len() ==> position == 0,
                page_num <= self.pages@.len(),
                forall|p: int| 0 <= p < page_num ==> (#[trigger] self.pages@[p]).len == PAGE_SIZE,
            decreases self.pages@.len() - page_num,
        {
            let len = self.page_len(page_num);
            if len == 0 && page_num > 0 {
                position = 0;
                break;
            }
            if len < PAGE_SIZE {
                position = len;
                break;
            }
            let page_count = self.pages.len();
            assert(page_num < page_count);
            page_num = page_num.saturating_add(1);
        }
        let ghost before = self.pages@;
        if page_num == self.pages.len() {
            let mut slots: Vec<TemperatureReading> = Vec::new();
            slots.push(reading);
            let page = ReadingPage { slots, len: 1 };
            self.pages.push(page);
            proof {
                assert(self.pages@.drop_last() =~= before);
                assert(page@ =~= seq![reading]);
                assert(log_of(before) + page@ =~= log_of(before).push(reading));
            }
        } else {
            assert(page_num == before.len() - 1);
            let pos = position as usize;
            let ghost old_page = before[page_num as int];
            if pos < self.pages[page_num].slots.len() {
                self.pages[page_num].slots[pos] = reading;
            } else {
                self.pages[page_num].slots.push(reading);
            }
            self.pages[page_num].len = position + 1;
            proof {
                let page = self.pages@[page_num as int];
                assert(page.slots@.subrange(0, position as int) =~= old_page.slots@.subrange(
                    0,
                    position as int,
                ));
                assert(page@ =~= old_page@.push(reading));
                assert(self.pages@.drop_last() =~= before.drop_last());
                assert(log_of(before.drop_last()) + page@ =~= (log_of(before.drop_last())
                    + old_page@).push(reading));
            }
        }
    }

    /// Every reading, oldest first, read page by page up to each page's
    /// length counter.
    fn to_vec(&self) -> (r: Vec<TemperatureReading>)
        requires
            forall|p: int| 0 <= p < self.pages@.len() ==> (#[trigger] self.pages@[p]).wf(),
        ensures
            r@ == self@,
    {
        let mut out: Vec<TemperatureReading> = Vec::new();
        let mut p: usize = 0;
        while p < self.pages.len()
            invariant
                p <= self.pages@.len(),
                forall|q: int| 0 <= q < self.pages@.len() ==> (#[trigger] self.pages@[q]).wf(),
                out@ == log_of(self.pages@.subrange(0, p as int)),
            decreases self.pages@.len() - p,
        {
            let page = &self.pages[p];
            assert(page.wf());
            let mut i: u32 = 0;
            while i < page.len
                invariant
                    page.wf(),
                    i <= page.len,
                    out@ == log_of(self.pages@.subrange(0, p as int)) + page@.subrange(0, i as int),
                decreases page.len - i,
            {
                out.push(page.slots[i as usize]);
                assert(page@.subrange(0, i + 1) =~= page@.subrange(0, i as int).push(
                    page.slots@[i as int],
                ));
                i += 1;
            }
            assert(self.pages@.subrange(0, p + 1).drop_last() =~= self.pages@.subrange(0, p as int));
            assert(page@.subrange(0, i as int) =~= page@);
            p += 1;
        }
        assert(self.pages@.subrange(0, p as int) =~= self.pages@);
        out
    }
}

/// The monitor's state: the admin, once set, and the log of each unit that
/// has a threshold.
pub struct TemperatureContract {
    admin: Option<Address>,
    logs: HashMap<u64, UnitLog>,
}

impl TemperatureContract {
    /// Every unit's log is well formed.
    pub closed spec fn wf(&self) -> bool {
        forall|u: u64| #[trigger] self.logs@.contains_key(u) ==> self.logs@[u].wf()
    }

    /// The admin recorded by `initialize`.
    pub closed spec fn admin(&self) -> Option<Address> {
        self.admin
    }

    /// The threshold in force for `unit_id`.
    pub closed spec fn threshold(&self, unit_id: u64) -> Option<TemperatureThreshold> {
        if self.logs@.contains_key(unit_id) {
            Some(self.logs@[unit_id].threshold)
        } else {
            None
        }
    }

    /// Every reading logged for `unit_id`, oldest first.
    pub closed spec fn readings(&self, unit_id: u64) -> Seq<TemperatureReading> {
        if self.logs@.contains_key(unit_id) {
            self.logs@[unit_id]@
        } else {
            Seq::empty()
        }
    }

    /// The current run of consecutive violations of `unit_id`.
    pub closed spec fn streak(&self, unit_id: u64) -> u32 {
        if self.logs@.contains_key(unit_id) {
            self.logs@[unit_id].streak
        } else {
            0
        }
    }

    /// Whether `unit_id` is flagged as compromised.
    pub closed spec fn compromised(&self, unit_id: u64) -> bool {
        if self.logs@.contains_key(unit_id) {
            self.logs@[unit_id].compromised
        } else {
            false
        }
    }

    /// Whether `caller` is the recorded admin.
    pub open spec fn is_admin_spec(&self, caller: Address) -> bool {
        self.admin() is Some && self.admin()->0@ == caller@
    }

    /// `new` holds the same threshold, readings, streak and flag as `old`
    /// for every unit but `except` (for every unit when `except` is `None`).
    pub open spec fn units_unchanged_except(
        old: TemperatureContract,
        new: TemperatureContract,
        except: Option<u64>,
    ) -> bool {
        &&& forall|u: u64| Some(u) != except ==> #[trigger] new.threshold(u) == old.threshold(u)
        &&& forall|u: u64| Some(u) != except ==> #[trigger] new.readings(u) == old.readings(u)
        &&& forall|u: u64| Some(u) != except ==> #[trigger] new.streak(u) == old.streak(u)
        &&& forall|u: u64|
            Some(u) != except ==> #[trigger] new.compromised(u) == old.compromised(u)
    }

    /// A monitor with no admin and no units.
    pub fn new() -> (r: TemperatureContract)
        ensures
            r.wf(),
            r.admin() is None,
            forall|u: u64| #[trigger] r.threshold(u) is None,
            forall|u: u64| #[trigger] r.readings(u) == Seq::<TemperatureReading>::empty(),
            forall|u: u64| #[trigger] r.streak(u) == 0,
            forall|u: u64| !(#[trigger] r.compromised(u)),
    {
        TemperatureContract { admin: None, logs: HashMap::new() }
    }

    fn is_admin(&self, caller: &Address) -> (r: bool)
        ensures
            r == self.is_admin_spec(*caller),
    {
        match &self.admin {
            Some(a) => a.same_as(caller),
            None => false,
        }
    }
}

/// What `log_reading(unit_id, temperature, timestamp)` does from `old`: it
/// fails when the unit has no threshold; otherwise it appends the reading,
/// flagged against the threshold in force, advances or clears the streak,
/// and sets the compromise flag once the streak reaches the compromise
/// length. Other units are untouched and the flag is never cleared.
pub open spec fn log_reading_effect(
    old: TemperatureContract,
    new: TemperatureContract,
    unit_id: u64,
    temperature: i32,
    timestamp: u64,
    r: Result<(), ContractError>,
) -> bool {
    match old.threshold(unit_id) {
        None => r == Err::<(), ContractError>(ContractError::ThresholdNotFound) && new == old,
        Some(t) => {
            let reading = TemperatureReading {
                temperature_celsius_x100: temperature,
                timestamp,
                is_violation: violates(t, temperature),
            };
            &&& r == Ok::<(), ContractError>(())
            &&& new.threshold(unit_id) == old.threshold(unit_id)
            &&& new.readings(unit_id) == old.readings(unit_id).push(reading)
            &&& new.streak(unit_id) == next_streak(old.streak(unit_id), reading.is_violation)
            &&& new.compromised(unit_id) == (old.compromised(unit_id) || new.streak(unit_id)
                >= COMPROMISE_STREAK_THRESHOLD)
            &&& new.admin() == old.admin()
            &&& TemperatureContract::units_unchanged_except(old, new, Some(unit_id))
        },
    }
}

/// What `reset_compromised_status(admin, unit_id)` does from `old`: only the
/// admin may call it, and it clears the streak and the flag of that unit.
pub open spec fn reset_effect(
    old: TemperatureContract,
    new: TemperatureContract,
    admin: Address,
    unit_id: u64,
    r: Result<(), ContractError>,
) -> bool {
    if !old.is_admin_spec(admin) {
        r == Err::<(), ContractError>(ContractError::Unauthorized) && new == old
    } else {
        &&& r == Ok::<(), ContractError>(())
        &&& new.streak(unit_id) == 0
        &&& !new.compromised(unit_id)
        &&& new.threshold(unit_id) == old.threshold(unit_id)
        &&& new.readings(unit_id) == old.readings(unit_id)
        &&& new.admin() == old.admin()
        &&& TemperatureContract::units_unchanged_except(old, new, Some(unit_id))
    }
}

impl TemperatureContract {
    /// Records the admin. Only the first call succeeds.
    pub fn initialize(&mut self, admin: Address) -> (r: Result<(), ContractError>)
        requires
            old(self).wf(),
        ensures
            final(self).wf(),
            old(self).admin() is Some ==> r == Err::<(), ContractError>(
                ContractError::AlreadyInitialized,
            ) && *final(self) == *old(self),
            old(self).admin() is None ==> r == Ok::<(), ContractError>(()) && final(self).admin()
                == Some(admin),
            TemperatureContract::units_unchanged_except(*old(self), *final(self), None),
    {
        if self.admin.is_some() {
            return Err(ContractError::AlreadyInitialized);
        }
        self.admin = Some(admin);
        Ok(())
    }

    /// Sets the allowed range of `unit_id`. Only the admin may call it (a
    /// monitor not yet initialized refuses everyone), and the lower bound
    /// must lie strictly below the upper one. Readings, streak and flag of
    /// the unit are kept.
    pub fn set_threshold(
        &mut self,
        admin: &Address,
        unit_id: u64,
        min_celsius_x100: i32,
        max_celsius_x100: i32,
    ) -> (r: Result<(), ContractError>)
        requires
            old(self).wf(),
        ensures
            final(self).wf(),
            !old(self).is_admin_spec(*admin) ==> r == Err::<(), ContractError>(
                ContractError::Unauthorized,
            ) && *final(self) == *old(self),
            old(self).is_admin_spec(*admin) && min_celsius_x100 >= max_celsius_x100 ==> r == Err::<
                (),
                ContractError,
            >(ContractError::InvalidThreshold) && *final(self) == *old(self),
            old(self).is_admin_spec(*admin) && min_celsius_x100 < max_celsius_x100 ==> {
                &&& r == Ok::<(), ContractError>(())
                &&& final(self).threshold(unit_id) == Some(
                    TemperatureThreshold { min_celsius_x100, max_celsius_x100 },
                )
                &&& final(self).readings(unit_id) == old(self).readings(unit_id)
                &&& final(self).streak(unit_id) == old(self).streak(unit_id)
                &&& final(self).compromised(unit_id) == old(self).compromised(unit_id)
                &&& final(self).admin() == old(self).admin()
                &&& TemperatureContract::units_unchanged_except(
                    *old(self),
                    *final(self),
                    Some(unit_id),
                )
            },
    {
        if !self.is_admin(admin) {
            return Err(ContractError::Unauthorized);
        }
        if min_celsius_x100 >= max_celsius_x100 {
            return Err(ContractError::InvalidThreshold);
        }
        let threshold = TemperatureThreshold { min_celsius_x100, max_celsius_x100 };
        let log = match self.logs.remove(&unit_id) {
            Some(mut log) => {
                log.threshold = threshold;
                log
            },
            None => UnitLog { threshold, pages: Vec::new(), streak: 0, compromised: false },
        };
        proof {
            assert(log_of(Seq::<ReadingPage>::empty()) =~= Seq::<TemperatureReading>::empty());
        }
        self.logs.insert(unit_id, log);
        Ok(())
    }

    /// Logs a reading of `unit_id`, judged against its current threshold,
    /// and updates the violation streak and the compromise flag.
    pub fn log_reading(&mut self, unit_id: u64, temperature_celsius_x100: i32, timestamp: u64) -> (r:
        Result<(), ContractError>)
        requires
            old(self).wf(),
        ensures
            final(self).wf(),
            log_reading_effect(
                *old(self),
                *final(self),
                unit_id,
                temperature_celsius_x100,
                timestamp,
                r,
            ),
    {
        let threshold = match self.logs.get(&unit_id) {
            Some(log) => log.threshold,
            None => return Err(ContractError::ThresholdNotFound),
        };
        let is_violation = temperature_celsius_x100 < threshold.min_celsius_x100
            || temperature_celsius_x100 > threshold.max_celsius_x100;
        let reading = TemperatureReading { temperature_celsius_x100, timestamp, is_violation };
        let mut log = self.logs.remove(&unit_id).unwrap();
        log.streak = if is_violation {
            log.streak.saturating_add(1)
        } else {
            0
        };
        if log.streak >= COMPROMISE_STREAK_THRESHOLD {
            log.compromised = true;
        }
        log.append(reading);
        self.logs.insert(unit_id, log);
        Ok(())
    }

    /// Every reading of `unit_id`, oldest first; only the slots each page's
    /// length counter covers are read.
    pub fn get_readings(&self, unit_id: u64) -> (r: Result<Vec<TemperatureReading>, ContractError>)
        requires
            self.wf(),
        ensures
            r is Ok && r->Ok_0@ == self.readings(unit_id),
    {
        match self.logs.get(&unit_id) {
            Some(log) => Ok(log.to_vec()),
            None => Ok(Vec::new()),
        }
    }

    /// The readings of `unit_id` that were violations when logged, oldest
    /// first.
    pub fn get_violations(&self, unit_id: u64) -> (r: Result<Vec<TemperatureReading>, ContractError>)
        requires
            self.wf(),
        ensures
            r is Ok && r->Ok_0@ == violations_of(self.readings(unit_id)),
    {
        let all = match self.logs.get(&unit_id) {
            Some(log) => log.to_vec(),
            None => Vec::new(),
        };
        let ghost pred = |x: TemperatureReading| x.is_violation;
        let mut violations: Vec<TemperatureReading> = Vec::new();
        let mut i: usize = 0;
        while i < all.len()
            invariant
                i <= all@.len(),
                pred == (|x: TemperatureReading| x.is_violation),
                violations@ == all@.subrange(0, i as int).filter(pred),
            decreases all@.len() - i,
        {
            proof {
                let prefix = all@.subrange(0, i + 1);
                assert(prefix.drop_last() =~= all@.subrange(0, i as int));
                reveal(Seq::filter);
            }
            if all[i].is_violation {
                violations.push(all[i]);
            }
            i += 1;
        }
        assert(all@.subrange(0, i as int) =~= all@);
        Ok(violations)
    }

    /// Count, mean (rounded toward zero), lowest, highest and number of
    /// violations over every reading of `unit_id`. Fails with `UnitNotFound`
    /// when the unit has no reading. Counts stop at the largest `u32`; the
    /// mean is exact for every log of up to that many readings.
    pub fn get_temperature_summary(&self, unit_id: u64) -> (r: Result<
        TemperatureSummary,
        ContractError,
    >)
        requires
            self.wf(),
        ensures
            self.readings(unit_id).len() == 0 ==> r == Err::<TemperatureSummary, ContractError>(
                ContractError::UnitNotFound,
            ),
            self.readings(unit_id).len() > 0 ==> {
                let s = self.readings(unit_id);
                &&& r is Ok
                &&& r->Ok_0.count == saturate_u32(s.len() as int)
                &&& r->Ok_0.min_celsius_x100 == temps_min(s)
                &&& r->Ok_0.max_celsius_x100 == temps_max(s)
                &&& r->Ok_0.violation_count == saturate_u32(violations_of(s).len() as int)
                &&& s.len() <= u32::MAX ==> r->Ok_0.avg_celsius_x100 == mean_toward_zero(
                    temps_sum(s),
                    s.len() as int,
                )
            },
    {
        let all = match self.logs.get(&unit_id) {
            Some(log) => log.to_vec(),
            None => Vec::new(),
        };
        summarize(&all)
    }

    /// The current run of consecutive violations of `unit_id`.
    pub fn get_consecutive_violation_streak(&self, unit_id: u64) -> (r: u32)
        ensures
            r == self.streak(unit_id),
    {
        match self.logs.get(&unit_id) {
            Some(log) => log.streak,
            None => 0,
        }
    }

    /// Whether `unit_id` is flagged as compromised.
    pub fn is_compromised(&self, unit_id: u64) -> (r: bool)
        ensures
            r == self.compromised(unit_id),
    {
        match self.logs.get(&unit_id) {
            Some(log) => log.compromised,
            None => false,
        }
    }

    /// Clears the streak and the compromise flag of `unit_id` (admin only).
    pub fn reset_compromised_status(&mut self, admin: &Address, unit_id: u64) -> (r: Result<
        (),
        ContractError,
    >)
        requires
            old(self).wf(),
        ensures
            final(self).wf(),
            reset_effect(*old(self), *final(self), *admin, unit_id, r),
    {
        if !self.is_admin(admin) {
            return Err(ContractError::Unauthorized);
        }
        if let Some(mut log) = self.logs.remove(&unit_id) {
            log.streak = 0;
            log.compromised = false;
            self.logs.insert(unit_id, log);
        }
        Ok(())
    }
}

/// The sum of `n` temperatures lies within `n` times the `i32` range.
pub proof fn lemma_temps_sum_bounds(s: Seq<TemperatureReading>)
    ensures
        s.len() * (i32::MIN as int) <= temps_sum(s) <= s.len() * (i32::MAX as int),
    decreases s.len(),
{
    if s.len() > 0 {
        lemma_temps_sum_bounds(s.drop_last());
    }
}

/// Folds the readings into a summary (see `get_temperature_summary`).
fn summarize(all: &Vec<TemperatureReading>) -> (r: Result<TemperatureSummary, ContractError>)
    ensures
        all@.len() == 0 ==> r == Err::<TemperatureSummary, ContractError>(
            ContractError::UnitNotFound,
        ),
        all@.len() > 0 ==> {
            let s = all@;
            &&& r is Ok
            &&& r->Ok_0.count == saturate_u32(s.len() as int)
            &&& r->Ok_0.min_celsius_x100 == temps_min(s)
            &&& r->Ok_0.max_celsius_x100 == temps_max(s)
            &&& r->Ok_0.violation_count == saturate_u32(violations_of(s).len() as int)
            &&& s.len() <= u32::MAX ==> r->Ok_0.avg_celsius_x100 == mean_toward_zero(
                temps_sum(s),
                s.len() as int,
            )
        },
{
    let ghost pred = |x: TemperatureReading| x.is_violation;
    let mut count: u32 = 0;
    let mut sum: i64 = 0;
    let mut min_temp: i32 = i32::MAX;
    let mut max_temp: i32 = i32::MIN;
    let mut violation_count: u32 = 0;
    let mut i: usize = 0;
    while i < all.len()
        invariant
            i <= all@.len(),
            pred == (|x: TemperatureReading| x.is_violation),
            count == saturate_u32(i as int),
            i <= u32::MAX ==> sum == temps_sum(all@.subrange(0, i as int)),
            min_temp == temps_min(all@.subrange(0, i as int)),
            max_temp == temps_max(all@.subrange(0, i as int)),
            violation_count == saturate_u32(all@.subrange(0, i as int).filter(pred).len() as int),
        decreases all@.len() - i,
    {
        let t = all[i].temperature_celsius_x100;
        let ghost prefix = all@.subrange(0, i + 1);
        proof {
            assert(prefix.drop_last() =~= all@.subrange(0, i as int));
            reveal(Seq::filter);
            if i + 1 <= u32::MAX {
                lemma_temps_sum_bounds(prefix);
                lemma_temps_sum_bounds(prefix.drop_last());
            }
        }
        sum = match sum.checked_add(t as i64) {
            Some(v) => v,
            None => if t < 0 {
                i64::MIN
            } else {
                i64::MAX
            },
        };
        count = count.saturating_add(1);
        if t < min_temp {
            min_temp = t;
        }
        if t > max_temp {
            max_temp = t;
        }
        if all[i].is_violation {
            violation_count = violation_count.saturating_add(1);
        }
        i += 1;
    }
    assert(all@.subrange(0, i as int) =~= all@);
    if count == 0 {
        return Err(ContractError::UnitNotFound);
    }
    proof {
        if i <= u32::MAX {
            lemma_temps_sum_bounds(all@);
            lemma_mean_within_i32(temps_sum(all@), i as int);
        }
    }
    let avg = match sum.checked_div(count as i64) {
        Some(q) => if q < i32::MIN as i64 {
            i32::MIN
        } else if q > i32::MAX as i64 {
            i32::MAX
        } else {
            q as i32
        },
        None => 0,
    };
    Ok(
        TemperatureSummary {
            count,
            avg_celsius_x100: avg,
            min_celsius_x100: min_temp,
            max_celsius_x100: max_temp,
            violation_count,
        },
    )
}

/// The mean of `n` values of the `i32` range, rounded toward zero, is again
/// in the `i32` range.
proof fn lemma_mean_within_i32(total: int, n: int)
    requires
        n > 0,
        n * (i32::MIN as int) <= total <= n * (i32::MAX as int),
    ensures
        i32::MIN <= mean_toward_zero(total, n) <= i32::MAX,
{
    if total >= 0 {
        assert(total / n <= i32::MAX) by (nonlinear_arith)
            requires
                n > 0,
                0 <= total <= n * (i32::MAX as int),
        ;
        assert(total / n >= 0) by (nonlinear_arith)
            requires
                n > 0,
                0 <= total,
        ;
    } else {
        assert((-total) / n <= -(i32::MIN as int)) by (nonlinear_arith)
            requires
                n > 0,
                0 < -total <= n * (-(i32::MIN as int)),
        ;
        assert((-total) / n >= 0) by (nonlinear_arith)
            requires
                n > 0,
                0 < -total,
        ;
    }
}

/// A unit whose streak has reached the compromise length is compromised,
/// and a unit whose latest reading is in range has no streak.
pub proof fn lemma_streak_rules(c: TemperatureContract, unit_id: u64)
    requires
        c.wf(),
    ensures
        c.streak(unit_id) >= COMPROMISE_STREAK_THRESHOLD ==> c.compromised(unit_id),
        c.readings(unit_id).len() > 0 && !c.readings(unit_id).last().is_violation ==> c.streak(
            unit_id,
        ) == 0,
{
    if c.logs@.contains_key(unit_id) {
        assert(c.logs@[unit_id].wf());
    }
}

/// Three violating readings logged in a row compromise the unit, whatever
/// its state before.
pub proof fn lemma_three_violations_compromise(
    s0: TemperatureContract,
    s1: TemperatureContract,
    s2: TemperatureContract,
    s3: TemperatureContract,
    unit_id: u64,
    temps: Seq<i32>,
    stamps: Seq<u64>,
    results: Seq<Result<(), ContractError>>,
)
    requires
        temps.len() == 3,
        stamps.len() == 3,
        results.len() == 3,
        log_reading_effect(s0, s1, unit_id, temps[0], stamps[0], results[0]),
        log_reading_effect(s1, s2, unit_id, temps[1], stamps[1], results[1]),
        log_reading_effect(s2, s3, unit_id, temps[2], stamps[2], results[2]),
        s0.threshold(unit_id) is Some,
        forall|j: int| 0 <= j < 3 ==> violates(s0.threshold(unit_id)->0, #[trigger] temps[j]),
    ensures
        s3.compromised(unit_id),
        s3.streak(unit_id) >= COMPROMISE_STREAK_THRESHOLD,
{
    assert(violates(s0.threshold(unit_id)->0, temps[0]));
    assert(violates(s0.threshold(unit_id)->0, temps[1]));
    assert(violates(s0.threshold(unit_id)->0, temps[2]));
}

/// Logging never clears a compromise flag, on any unit; only
/// `reset_compromised_status` does.
pub proof fn lemma_compromise_sticky(
    before: TemperatureContract,
    after: TemperatureContract,
    unit_id: u64,
    temperature: i32,
    timestamp: u64,
    r: Result<(), ContractError>,
    other: u64,
)
    requires
        log_reading_effect(before, after, unit_id, temperature, timestamp, r),
        before.compromised(other),
    ensures
        after.compromised(other),
{
}

/// A run of successful `log_reading` calls on one unit appends exactly the
/// logged readings, in order, to what the unit held: no other entry (such as
/// page padding) ever becomes visible.
pub proof fn lemma_log_holds_logged_readings(
    states: Seq<TemperatureContract>,
    unit_id: u64,
    temps: Seq<i32>,
    stamps: Seq<u64>,
    results: Seq<Result<(), ContractError>>,
)
    requires
        states.len() == temps.len() + 1,
        stamps.len() == temps.len(),
        results.len() == temps.len(),
        forall|j: int|
            0 <= j < temps.len() ==> log_reading_effect(
                #[trigger] states[j],
                states[j + 1],
                unit_id,
                temps[j],
                stamps[j],
                results[j],
            ),
        forall|j: int| 0 <= j < results.len() ==> (#[trigger] results[j]) is Ok,
    ensures
        states.last().readings(unit_id).len() == states[0].readings(unit_id).len() + temps.len(),
        forall|j: int|
            0 <= j < states[0].readings(unit_id).len() ==> states.last().readings(unit_id)[j]
                == states[0].readings(unit_id)[j],
        forall|j: int|
            0 <= j < temps.len() ==> {
                let r = #[trigger] states.last().readings(unit_id)[states[0].readings(
                    unit_id,
                ).len() + j];
                r.temperature_celsius_x100 == temps[j] && r.timestamp == stamps[j]
            },
    decreases temps.len(),
{
    let n = temps.len();
    if n > 0 {
        let prev = states.drop_last();
        lemma_log_holds_logged_readings(
            prev,
            unit_id,
            temps.drop_last(),
            stamps.drop_last(),
            results.drop_last(),
        );
        assert(prev[0] == states[0]);
        assert(prev.last() == states[n - 1]);
        assert(results[n - 1] is Ok);
        let before = states[n - 1];
        let after = states[n as int];
        assert(log_reading_effect(before, after, unit_id, temps[n - 1], stamps[n - 1], results[n - 1]));
        let base = states[0].readings(unit_id).len();
        assert forall|j: int| 0 <= j < n implies {
            let r = #[trigger] after.readings(unit_id)[base + j];
            r.temperature_celsius_x100 == temps[j] && r.timestamp == stamps[j]
        } by {
            if j < n - 1 {
                assert(temps.drop_last()[j] == temps[j]);
                assert(stamps.drop_last()[j] == stamps[j]);
                assert(after.readings(unit_id)[base + j] == before.readings(unit_id)[base + j]);
            }
        }
        assert(states.last() == after);
    }
}

} // verus!
