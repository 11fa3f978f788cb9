//! Blood unit registry: the inventory of units, their lifecycle status and a
//! paginated, append-only audit trail of every status change.

use vstd::prelude::*;

use crate::address::{anon_text, Address, Symbol};
use crate::constants::{
    MAX_BATCH_EXPIRY_SIZE, MAX_EVENTS_PER_PAGE, MAX_QUANTITY_ML, MAX_SHELF_LIFE_DAYS,
    MIN_QUANTITY_ML, MIN_SHELF_LIFE_DAYS, SECONDS_PER_DAY,
};

verus! {

/// The eight ABO/Rh blood groups.
#[derive(Clone, Copy, Debug, PartialEq, Eq, Structural)]
pub enum BloodType {
    APositive,
    ANegative,
    BPositive,
    BNegative,
    ABPositive,
    ABNegative,
    OPositive,
    ONegative,
}

/// Lifecycle status of a unit.
#[derive(Clone, Copy, Debug, PartialEq, Eq, Structural)]
pub enum BloodStatus {
    Available,
    Reserved,
    InTransit,
    Delivered,
    Expired,
    Used,
    Discarded,
}

/// Failures reported by the registry.
#[derive(Clone, Copy, Debug, PartialEq, Eq, Structural)]
pub enum Error {
    UnitNotFound,
    InvalidQuantity,
    InvalidExpiration,
    BatchSizeExceeded,
}

/// One unit of donated blood.
#[derive(Clone, Debug)]
pub struct BloodUnit {
    pub id: u64,
    pub blood_type: BloodType,
    pub quantity: u32,
    pub expiration_date: u64,
    pub donor_id: Symbol,
    pub location: Symbol,
    pub bank_id: Address,
    pub registration_timestamp: u64,
    pub status: BloodStatus,
    pub recipient_hospital: Option<Address>,
    pub allocation_timestamp: Option<u64>,
    pub transfer_timestamp: Option<u64>,
    pub delivery_timestamp: Option<u64>,
}

/// One record of the audit trail: a unit moved from `old_status` to
/// `new_status` at `timestamp`, on behalf of `actor`.
#[derive(Clone, Debug)]
pub struct StatusChangeEvent {
    pub unit_id: u64,
    pub old_status: BloodStatus,
    pub new_status: BloodStatus,
    pub actor: Address,
    pub timestamp: u64,
}

/// The notification published when a unit is registered.
#[derive(Clone, Debug)]
pub struct BloodRegisteredEvent {
    pub unit_id: u64,
    pub blood_type: BloodType,
    pub quantity_ml: u32,
    pub bank_id: Address,
    pub expiration_timestamp: u64,
    pub registration_timestamp: u64,
    pub donor_id: Option<Symbol>,
}

/// The text of the location that every freshly registered unit is given.
pub open spec fn bank_location_text() -> Seq<char> {
    seq!['B', 'A', 'N', 'K']
}

/// A registrable volume.
pub open spec fn valid_quantity(quantity_ml: u32) -> bool {
    MIN_QUANTITY_ML <= quantity_ml <= MAX_QUANTITY_ML
}

/// An expiration date that leaves between the minimum and the maximum shelf
/// life, counted from `now`.
pub open spec fn valid_expiration(now: u64, expiration: u64) -> bool {
    &&& now < expiration
    &&& now + MIN_SHELF_LIFE_DAYS * SECONDS_PER_DAY <= expiration
    &&& expiration <= now + MAX_SHELF_LIFE_DAYS * SECONDS_PER_DAY
}

/// The text a unit's donor reference has: the given donor, or the anonymous
/// sentinel when none was given.
pub open spec fn donor_text(donor_id: Option<Symbol>) -> Seq<char> {
    match donor_id {
        Some(d) => d@,
        None => anon_text(),
    }
}

/// The stored form of a unit registered with these arguments.
pub open spec fn is_registered_unit(
    u: BloodUnit,
    id: u64,
    now: u64,
    bank_id: Address,
    blood_type: BloodType,
    quantity_ml: u32,
    expiration: u64,
    donor_id: Option<Symbol>,
) -> bool {
    &&& u.id == id
    &&& u.blood_type == blood_type
    &&& u.quantity == quantity_ml
    &&& u.expiration_date == expiration
    &&& u.donor_id@ == donor_text(donor_id)
    &&& u.location@ == bank_location_text()
    &&& u.bank_id == bank_id
    &&& u.registration_timestamp == now
    &&& u.status == BloodStatus::Available
    &&& u.recipient_hospital.is_none()
    &&& u.allocation_timestamp.is_none()
    &&& u.transfer_timestamp.is_none()
    &&& u.delivery_timestamp.is_none()
}

/// The shelf-life and volume rules that every stored unit satisfies.
pub open spec fn unit_within_limits(u: BloodUnit) -> bool {
    &&& valid_quantity(u.quantity)
    &&& u.registration_timestamp + MIN_SHELF_LIFE_DAYS * SECONDS_PER_DAY <= u.expiration_date
    &&& u.expiration_date <= u.registration_timestamp + MAX_SHELF_LIFE_DAYS * SECONDS_PER_DAY
}

/// The status reached by applying the recorded transitions in order, starting
/// from `Available` (the status a unit is created in); `None` when some record
/// does not start from the status the previous one left.
pub open spec fn replay(events: Seq<StatusChangeEvent>) -> Option<BloodStatus>
    decreases events.len(),
{
    if events.len() == 0 {
        Some(BloodStatus::Available)
    } else {
        match replay(events.drop_last()) {
            Some(s) => if s == events.last().old_status {
                Some(events.last().new_status)
            } else {
                None
            },
            None => None,
        }
    }
}

/// Whether a unit's status counts as expired at time `now`.
pub open spec fn expired_at(u: BloodUnit, now: u64) -> bool {
    u.expiration_date <= now || u.status == BloodStatus::Expired
}

impl BloodUnit {
    /// An identical copy of this unit.
    pub fn duplicate(&self) -> (r: BloodUnit)
        ensures
            r == *self,
    {
        BloodUnit {
            id: self.id,
            blood_type: self.blood_type,
            quantity: self.quantity,
            expiration_date: self.expiration_date,
            donor_id: self.donor_id.duplicate(),
            location: self.location.duplicate(),
            bank_id: self.bank_id.duplicate(),
            registration_timestamp: self.registration_timestamp,
            status: self.status,
            recipient_hospital: match &self.recipient_hospital {
                Some(h) => Some(h.duplicate()),
                None => None,
            },
            allocation_timestamp: self.allocation_timestamp,
            transfer_timestamp: self.transfer_timestamp,
            delivery_timestamp: self.delivery_timestamp,
        }
    }
}

impl StatusChangeEvent {
    /// An identical copy of this record.
    pub fn duplicate(&self) -> (r: StatusChangeEvent)
        ensures
            r == *self,
    {
        StatusChangeEvent {
            unit_id: self.unit_id,
            old_status: self.old_status,
            new_status: self.new_status,
            actor: self.actor.duplicate(),
            timestamp: self.timestamp,
        }
    }
}

fn duplicate_donor(donor_id: &Option<Symbol>) -> (r: Option<Symbol>)
    ensures
        r == *donor_id,
{
    match donor_id {
        Some(d) => Some(d.duplicate()),
        None => None,
    }
}

/// The records of consecutive pages, in order.
pub open spec fn concat_pages(pages: Seq<Vec<StatusChangeEvent>>) -> Seq<StatusChangeEvent>
    decreases pages.len(),
{
    if pages.len() == 0 {
        Seq::empty()
    } else {
        concat_pages(pages.drop_last()) + pages.last()@
    }
}

/// The audit trail of one unit, held in pages of at most
/// `MAX_EVENTS_PER_PAGE` records; every page but the last is full.
pub struct AuditTrail {
    pages: Vec<Vec<StatusChangeEvent>>,
}

impl View for AuditTrail {
    type V = Seq<StatusChangeEvent>;

    closed spec fn view(&self) -> Seq<StatusChangeEvent> {
        concat_pages(self.pages@)
    }
}

impl AuditTrail {
    /// Page layout: no page is empty or over-full, and only the last page may
    /// have room left.
    pub closed spec fn wf(&self) -> bool {
        &&& forall|p: int|
            0 <= p < self.pages@.len() ==> 1 <= #[trigger] self.pages@[p]@.len()
                <= MAX_EVENTS_PER_PAGE
        &&& forall|p: int|
            0 <= p < self.pages@.len() - 1 ==> #[trigger] self.pages@[p]@.len()
                == MAX_EVENTS_PER_PAGE
    }

    fn new() -> (r: AuditTrail)
        ensures
            r.wf(),
            r@ == Seq::<StatusChangeEvent>::empty(),
    {
        AuditTrail { pages: Vec::new() }
    }

    /// Appends a record to the current page, or to a fresh page when the
    /// current one is full.
    fn append(&mut self, event: StatusChangeEvent)
        requires
            old(self).wf(),
        ensures
            final(self).wf(),
            final(self)@ == old(self)@.push(event),
    {
        let n = self.pages.len();
        if n > 0 && self.pages[n - 1].len() < MAX_EVENTS_PER_PAGE as usize {
            let ghost before = self.pages@;
            let mut last = self.pages.pop().unwrap();
            last.push(event);
            self.pages.push(last);
            assert(self.pages@.drop_last() =~= before.drop_last());
            assert(concat_pages(before) == concat_pages(before.drop_last()) + before.last()@);
            assert(concat_pages(before.drop_last()) + last@ =~= (concat_pages(before.drop_last())
                + before.last()@).push(event));
        } else {
            let ghost before = self.pages@;
            let mut page = Vec::new();
            page.push(event);
            self.pages.push(page);
            assert(self.pages@.drop_last() =~= before);
            assert(concat_pages(before) + page@ =~= concat_pages(before).push(event));
        }
    }

    /// All records, oldest first.
    fn to_vec(&self) -> (r: Vec<StatusChangeEvent>)
        ensures
            r@ == self@,
    {
        let mut out: Vec<StatusChangeEvent> = Vec::new();
        let mut p: usize = 0;
        while p < self.pages.len()
            invariant
                p <= self.pages@.len(),
                out@ == concat_pages(self.pages@.subrange(0, p as int)),
            decreases self.pages@.len() - p,
        {
            let page = &self.pages[p];
            let mut j: usize = 0;
            while j < page.len()
                invariant
                    j <= page@.len(),
                    out@ == concat_pages(self.pages@.subrange(0, p as int)) + page@.subrange(
                        0,
                        j as int,
                    ),
                decreases page@.len() - j,
            {
                out.push(page[j].duplicate());
                assert(page@.subrange(0, j + 1) =~= page@.subrange(0, j as int).push(page@[j as int]));
                j += 1;
            }
            assert(self.pages@.subrange(0, p + 1).drop_last() =~= self.pages@.subrange(0, p as int));
            assert(page@.subrange(0, j as int) =~= page@);
            p += 1;
        }
        assert(self.pages@.subrange(0, p as int) =~= self.pages@);
        out
    }
}

/// The registry's state: units by id, their audit trails, the id counter,
/// the registry's own address (the actor of time-driven expiries) and the
/// registration notifications not yet published.
pub struct Registry {
    units: Vec<BloodUnit>,
    trails: Vec<AuditTrail>,
    next_id: u64,
    contract_address: Address,
    events: Vec<BloodRegisteredEvent>,
}

impl Registry {
    /// Units are stored at index `id - 1`, ids count up from 1 without gaps,
    /// every unit keeps its limits, and every audit trail replays to its
    /// unit's current status.
    pub closed spec fn wf(&self) -> bool {
        &&& self.units@.len() == self.trails@.len()
        &&& self.next_id == self.units@.len() + 1
        &&& forall|i: int| 0 <= i < self.units@.len() ==> (#[trigger] self.units@[i]).id == i + 1
        &&& forall|i: int| 0 <= i < self.units@.len() ==> unit_within_limits(#[trigger] self.units@[i])
        &&& forall|i: int| 0 <= i < self.trails@.len() ==> (#[trigger] self.trails@[i]).wf()
        &&& forall|i: int|
            0 <= i < self.units@.len() ==> replay(#[trigger] self.trails@[i]@) == Some(
                self.units@[i].status,
            )
        &&& forall|i: int| 0 <= i < self.trails@.len() ==> (#[trigger] self.trails@[i]@).len() > 0
    }

    /// All units, in order of id.
    pub closed spec fn units(&self) -> Seq<BloodUnit> {
        self.units@
    }

    /// The id the next registration receives.
    pub closed spec fn next_id(&self) -> u64 {
        self.next_id
    }

    /// Whether a unit with this id was registered.
    pub open spec fn has_unit(&self, id: u64) -> bool {
        1 <= id <= self.units().len()
    }

    /// The unit with this id (meaningful when `has_unit(id)`).
    pub open spec fn unit(&self, id: u64) -> BloodUnit {
        self.units()[id - 1]
    }

    /// The recorded status changes of the unit with this id, oldest first.
    pub closed spec fn history(&self, id: u64) -> Seq<StatusChangeEvent> {
        self.trails@[id - 1]@
    }

    /// The address recorded as actor of time-driven expiries.
    pub closed spec fn contract_address(&self) -> Address {
        self.contract_address
    }

    /// Registration notifications not yet published, oldest first.
    pub closed spec fn pending_events(&self) -> Seq<BloodRegisteredEvent> {
        self.events@
    }

    /// An empty registry acting as `contract_address`.
    pub fn new(contract_address: Address) -> (r: Registry)
        ensures
            r.wf(),
            r.units() == Seq::<BloodUnit>::empty(),
            r.next_id() == 1,
            r.contract_address() == contract_address,
            r.pending_events() == Seq::<BloodRegisteredEvent>::empty(),
    {
        Registry {
            units: Vec::new(),
            trails: Vec::new(),
            next_id: 1,
            contract_address,
            events: Vec::new(),
        }
    }

    /// Number of registered units.
    pub fn unit_count(&self) -> (r: u64)
        requires
            self.wf(),
        ensures
            r == self.units().len(),
    {
        self.units.len() as u64
    }

    /// The id the next registration receives.
    pub fn peek_next_id(&self) -> (r: u64)
        requires
            self.wf(),
        ensures
            r == self.next_id(),
    {
        self.next_id
    }

    /// Hands out the registration notifications not yet published, oldest
    /// first, and forgets them.
    pub fn take_events(&mut self) -> (r: Vec<BloodRegisteredEvent>)
        requires
            old(self).wf(),
        ensures
            final(self).wf(),
            r@ == old(self).pending_events(),
            final(self).pending_events() == Seq::<BloodRegisteredEvent>::empty(),
            final(self).units() == old(self).units(),
            final(self).next_id() == old(self).next_id(),
            final(self).contract_address() == old(self).contract_address(),
            forall|id: u64| #[trigger] final(self).history(id) == old(self).history(id),
    {
        let mut taken: Vec<BloodRegisteredEvent> = Vec::new();
        std::mem::swap(&mut taken, &mut self.events);
        taken
    }
}

/// Registers a new unit: checks the volume and the shelf-life window, stores
/// the unit as `Available` under a fresh id, opens its audit trail with an
/// `Available -> Available` record by the bank, and queues a registration
/// notification.
pub fn register_unit(
    registry: &mut Registry,
    now: u64,
    bank_id: Address,
    blood_type: BloodType,
    quantity_ml: u32,
    expiration_timestamp: u64,
    donor_id: Option<Symbol>,
) -> (r: Result<u64, Error>)
    requires
        old(registry).wf(),
        old(registry).next_id() < u64::MAX,
    ensures
        final(registry).wf(),
        !valid_quantity(quantity_ml) ==> r == Err::<u64, Error>(Error::InvalidQuantity),
        valid_quantity(quantity_ml) && !valid_expiration(now, expiration_timestamp) ==> r == Err::<
            u64,
            Error,
        >(Error::InvalidExpiration),
        r is Err ==> *final(registry) == *old(registry),
        r is Ok ==> {
            &&& MIN_QUANTITY_ML <= quantity_ml <= MAX_QUANTITY_ML
            &&& now + MIN_SHELF_LIFE_DAYS * SECONDS_PER_DAY <= expiration_timestamp
            &&& expiration_timestamp <= now + MAX_SHELF_LIFE_DAYS * SECONDS_PER_DAY
        },
        valid_quantity(quantity_ml) && valid_expiration(now, expiration_timestamp) ==> {
            let id = old(registry).next_id();
            &&& r == Ok::<u64, Error>(id)
            &&& final(registry).next_id() == id + 1
            &&& final(registry).units() == old(registry).units().push(
                final(registry).units().last(),
            )
            &&& is_registered_unit(
                final(registry).unit(id),
                id,
                now,
                bank_id,
                blood_type,
                quantity_ml,
                expiration_timestamp,
                donor_id,
            )
            &&& final(registry).history(id) == seq![
                StatusChangeEvent {
                    unit_id: id,
                    old_status: BloodStatus::Available,
                    new_status: BloodStatus::Available,
                    actor: bank_id,
                    timestamp: now,
                },
            ]
            &&& forall|k: u64| #[trigger]
                old(registry).has_unit(k) ==> final(registry).history(k) == old(registry).history(
                    k,
                )
            &&& final(registry).contract_address() == old(registry).contract_address()
            &&& final(registry).pending_events() == old(registry).pending_events().push(
                BloodRegisteredEvent {
                    unit_id: id,
                    blood_type,
                    quantity_ml,
                    bank_id,
                    expiration_timestamp,
                    registration_timestamp: now,
                    donor_id,
                },
            )
        },
{
    if quantity_ml < MIN_QUANTITY_ML || quantity_ml > MAX_QUANTITY_ML {
        return Err(Error::InvalidQuantity);
    }
    if expiration_timestamp <= now {
        return Err(Error::InvalidExpiration);
    }
    let remaining = expiration_timestamp - now;
    if remaining < MIN_SHELF_LIFE_DAYS * SECONDS_PER_DAY || remaining > MAX_SHELF_LIFE_DAYS
        * SECONDS_PER_DAY {
        return Err(Error::InvalidExpiration);
    }
    let unit_id = registry.next_id;
    let ghost old_units = registry.units@;
    let ghost old_trails = registry.trails@;

    let stored_donor = match &donor_id {
        Some(d) => d.duplicate(),
        None => Symbol::anon(),
    };
    let location = Symbol::new("BANK");
    proof {
        reveal_strlit("BANK");
        assert(location@ =~= bank_location_text());
    }
    let unit = BloodUnit {
        id: unit_id,
        blood_type,
        quantity: quantity_ml,
        expiration_date: expiration_timestamp,
        donor_id: stored_donor,
        location,
        bank_id: bank_id.duplicate(),
        registration_timestamp: now,
        status: BloodStatus::Available,
        recipient_hospital: None,
        allocation_timestamp: None,
        transfer_timestamp: None,
        delivery_timestamp: None,
    };
    registry.units.push(unit);
    registry.next_id = unit_id + 1;

    let mut trail = AuditTrail::new();
    trail.append(
        StatusChangeEvent {
            unit_id,
            old_status: BloodStatus::Available,
            new_status: BloodStatus::Available,
            actor: bank_id.duplicate(),
            timestamp: now,
        },
    );
    registry.trails.push(trail);

    let event = BloodRegisteredEvent {
        unit_id,
        blood_type,
        quantity_ml,
        bank_id,
        expiration_timestamp,
        registration_timestamp: now,
        donor_id: duplicate_donor(&donor_id),
    };
    registry.events.push(event);

    proof {
        let trails = registry.trails@;
        let units = registry.units@;
        let genesis = trails.last()@;
        assert(genesis.drop_last() =~= Seq::<StatusChangeEvent>::empty());
        assert(replay(genesis.drop_last()) == Some(BloodStatus::Available));
        assert(replay(genesis) == Some(BloodStatus::Available));
        assert(units.last().status == BloodStatus::Available);
        assert(units =~= old_units.push(units.last()));
        assert forall|i: int| 0 <= i < units.len() implies replay(#[trigger] trails[i]@) == Some(
            units[i].status,
        ) by {
            if i < old_units.len() {
                assert(trails[i] == old_trails[i]);
                assert(units[i] == old_units[i]);
            }
        }
    }
    Ok(unit_id)
}

/// `u` with its status replaced.
pub open spec fn with_status(u: BloodUnit, status: BloodStatus) -> BloodUnit {
    BloodUnit { status, ..u }
}

/// `new` is `old` with the unit `id` moved to `status` and the transition
/// `old status -> status` by `actor` at `now` appended to its audit trail;
/// everything else is as it was.
pub open spec fn records_transition(
    old: Registry,
    new: Registry,
    id: u64,
    status: BloodStatus,
    actor: Address,
    now: u64,
) -> bool {
    &&& new.units() == old.units().update(id - 1, with_status(old.unit(id), status))
    &&& new.history(id) == old.history(id).push(
        StatusChangeEvent {
            unit_id: id,
            old_status: old.unit(id).status,
            new_status: status,
            actor,
            timestamp: now,
        },
    )
    &&& forall|k: u64| k != id && old.has_unit(k) ==> #[trigger] new.history(k) == old.history(k)
    &&& new.next_id() == old.next_id()
    &&& new.contract_address() == old.contract_address()
    &&& new.pending_events() == old.pending_events()
}

/// What `expire_unit(old, now, id)` does: it fails for an unknown unit or
/// before the unit's expiration date, succeeds without change on a unit
/// already `Expired`, and otherwise records the move to `Expired` with the
/// registry itself as actor.
pub open spec fn expire_unit_effect(
    old: Registry,
    new: Registry,
    now: u64,
    id: u64,
    r: Result<(), Error>,
) -> bool {
    if !old.has_unit(id) {
        r == Err::<(), Error>(Error::UnitNotFound) && new == old
    } else if now < old.unit(id).expiration_date {
        r == Err::<(), Error>(Error::InvalidExpiration) && new == old
    } else if old.unit(id).status == BloodStatus::Expired {
        r == Ok::<(), Error>(()) && new == old
    } else {
        &&& r == Ok::<(), Error>(())
        &&& records_transition(old, new, id, BloodStatus::Expired, old.contract_address(), now)
    }
}

/// Moves the unit at index `i` to `status` and appends the transition to its
/// audit trail.
fn record_status_change(
    registry: &mut Registry,
    unit_id: u64,
    status: BloodStatus,
    actor: Address,
    now: u64,
)
    requires
        old(registry).wf(),
        old(registry).has_unit(unit_id),
    ensures
        final(registry).wf(),
        records_transition(*old(registry), *final(registry), unit_id, status, actor, now),
{
    let ghost old_reg = *registry;
    let ghost old_units = registry.units@;
    let ghost old_trails = registry.trails@;
    let n = registry.units.len();
    assert(unit_id - 1 < n);
    let i = (unit_id - 1) as usize;
    assert(i == unit_id - 1);
    let old_status = registry.units[i].status;
    registry.units[i].status = status;
    registry.trails[i].append(
        StatusChangeEvent { unit_id, old_status, new_status: status, actor, timestamp: now },
    );
    proof {
        let units = registry.units@;
        let trails = registry.trails@;
        assert(units =~= old_units.update(i as int, with_status(old_units[i as int], status)));
        assert(trails[i as int]@.drop_last() =~= old_trails[i as int]@);
        assert forall|k: u64| k != unit_id && old_reg.has_unit(k) implies #[trigger] registry.history(
            k,
        ) == old_reg.history(k) by {
            assert(trails[k - 1] == old_trails[k - 1]);
        }
        assert forall|j: int| 0 <= j < units.len() implies replay(#[trigger] trails[j]@) == Some(
            units[j].status,
        ) by {
            if j != i {
                assert(trails[j] == old_trails[j]);
            }
        }
    }
}

/// Records a move of the unit `unit_id` to `new_status` on behalf of
/// `actor`. Whether the move is allowed is the caller's decision; the
/// registry records it faithfully.
pub fn update_status(
    registry: &mut Registry,
    now: u64,
    unit_id: u64,
    new_status: BloodStatus,
    actor: Address,
) -> (r: Result<(), Error>)
    requires
        old(registry).wf(),
    ensures
        final(registry).wf(),
        !old(registry).has_unit(unit_id) ==> r == Err::<(), Error>(Error::UnitNotFound)
            && *final(registry) == *old(registry),
        old(registry).has_unit(unit_id) ==> r == Ok::<(), Error>(()) && records_transition(
            *old(registry),
            *final(registry),
            unit_id,
            new_status,
            actor,
            now,
        ),
{
    if unit_id == 0 || unit_id > registry.units.len() as u64 {
        return Err(Error::UnitNotFound);
    }
    record_status_change(registry, unit_id, new_status, actor, now);
    Ok(())
}

/// Marks the unit `unit_id` as `Expired` once its expiration date is
/// reached; a unit already `Expired` is left as it is.
pub fn expire_unit(registry: &mut Registry, now: u64, unit_id: u64) -> (r: Result<(), Error>)
    requires
        old(registry).wf(),
    ensures
        final(registry).wf(),
        expire_unit_effect(*old(registry), *final(registry), now, unit_id, r),
{
    if unit_id == 0 || unit_id > registry.units.len() as u64 {
        return Err(Error::UnitNotFound);
    }
    let i = (unit_id - 1) as usize;
    if now < registry.units[i].expiration_date {
        return Err(Error::InvalidExpiration);
    }
    if registry.units[i].status == BloodStatus::Expired {
        return Ok(());
    }
    let actor = registry.contract_address.duplicate();
    record_status_change(registry, unit_id, BloodStatus::Expired, actor, now);
    Ok(())
}

/// Attempts `expire_unit` on each id in order and returns the ids for which
/// it succeeded; failures are skipped. At most `MAX_BATCH_EXPIRY_SIZE` ids
/// may be given.
pub fn check_and_expire_batch(registry: &mut Registry, now: u64, unit_ids: &Vec<u64>) -> (r:
    Result<Vec<u64>, Error>)
    requires
        old(registry).wf(),
    ensures
        final(registry).wf(),
        unit_ids@.len() > MAX_BATCH_EXPIRY_SIZE ==> r == Err::<Vec<u64>, Error>(
            Error::BatchSizeExceeded,
        ) && *final(registry) == *old(registry),
        unit_ids@.len() <= MAX_BATCH_EXPIRY_SIZE ==> {
            &&& r is Ok
            &&& exists|states: Seq<Registry>, results: Seq<Result<(), Error>>| {
                &&& states.len() == unit_ids@.len() + 1
                &&& results.len() == unit_ids@.len()
                &&& states[0] == *old(registry)
                &&& states.last() == *final(registry)
                &&& forall|j: int|
                    0 <= j < unit_ids@.len() ==> #[trigger] states[j].wf() && expire_unit_effect(
                        states[j],
                        states[j + 1],
                        now,
                        unit_ids@[j],
                        results[j],
                    )
                &&& r->Ok_0@ == succeeded_ids(unit_ids@, results)
            }
        },
{
    if unit_ids.len() > MAX_BATCH_EXPIRY_SIZE as usize {
        return Err(Error::BatchSizeExceeded);
    }
    let mut expired_ids: Vec<u64> = Vec::new();
    let ghost mut states: Seq<Registry> = seq![*registry];
    let ghost mut results: Seq<Result<(), Error>> = Seq::empty();
    let mut i: usize = 0;
    while i < unit_ids.len()
        invariant
            i <= unit_ids@.len(),
            registry.wf(),
            states.len() == i + 1,
            results.len() == i,
            states[0] == *old(registry),
            states.last() == *registry,
            forall|j: int|
                0 <= j < i ==> #[trigger] states[j].wf() && expire_unit_effect(
                    states[j],
                    states[j + 1],
                    now,
                    unit_ids@[j],
                    results[j],
                ),
            expired_ids@ == succeeded_ids(unit_ids@.subrange(0, i as int), results),
        decreases unit_ids@.len() - i,
    {
        let unit_id = unit_ids[i];
        let ghost before = *registry;
        let outcome = expire_unit(registry, now, unit_id);
        proof {
            let old_states = states;
            let old_results = results;
            states = states.push(*registry);
            results = results.push(outcome);
            assert(unit_ids@.subrange(0, i + 1).drop_last() =~= unit_ids@.subrange(0, i as int));
            assert(results.drop_last() =~= old_results);
            assert forall|j: int| 0 <= j <= i implies #[trigger] states[j].wf() && expire_unit_effect(
                states[j],
                states[j + 1],
                now,
                unit_ids@[j],
                results[j],
            ) by {
                if j < i {
                    assert(states[j] == old_states[j]);
                    assert(states[j + 1] == old_states[j + 1]);
                    assert(results[j] == old_results[j]);
                }
            }
        }
        if outcome.is_ok() {
            expired_ids.push(unit_id);
        }
        i += 1;
    }
    assert(unit_ids@.subrange(0, i as int) =~= unit_ids@);
    Ok(expired_ids)
}

/// The ids, in order, whose attempt succeeded (`results[j]` is the outcome
/// for `ids[j]`; the two sequences have the same length).
pub open spec fn succeeded_ids(ids: Seq<u64>, results: Seq<Result<(), Error>>) -> Seq<u64>
    decreases ids.len(),
{
    if ids.len() == 0 {
        Seq::empty()
    } else {
        let rest = succeeded_ids(ids.drop_last(), results.drop_last());
        if results.last() is Ok {
            rest.push(ids.last())
        } else {
            rest
        }
    }
}

/// The unit with id `unit_id`.
pub fn get_unit(registry: &Registry, unit_id: u64) -> (r: Result<BloodUnit, Error>)
    requires
        registry.wf(),
    ensures
        registry.has_unit(unit_id) ==> r == Ok::<BloodUnit, Error>(registry.unit(unit_id)),
        !registry.has_unit(unit_id) ==> r == Err::<BloodUnit, Error>(Error::UnitNotFound),
{
    if unit_id == 0 || unit_id > registry.units.len() as u64 {
        return Err(Error::UnitNotFound);
    }
    Ok(registry.units[(unit_id - 1) as usize].duplicate())
}

/// Whether `u` was registered by the bank `bank`.
pub open spec fn registered_by(u: BloodUnit, bank: Seq<char>) -> bool {
    u.bank_id@ == bank
}

/// Whether `u` was given by the donor `donor`. The anonymous sentinel only
/// matches a query for the sentinel itself.
pub open spec fn donated_by(u: BloodUnit, donor: Seq<char>) -> bool {
    u.donor_id@ == donor
}

/// All units registered by `bank_id`, in order of id.
pub fn get_units_by_bank(registry: &Registry, bank_id: &Address) -> (r: Vec<BloodUnit>)
    requires
        registry.wf(),
    ensures
        r@ == registry.units().filter(|u: BloodUnit| registered_by(u, bank_id@)),
{
    let ghost pred = |u: BloodUnit| registered_by(u, bank_id@);
    let mut out: Vec<BloodUnit> = Vec::new();
    let mut i: usize = 0;
    while i < registry.units.len()
        invariant
            i <= registry.units@.len(),
            out@ == registry.units@.subrange(0, i as int).filter(pred),
            pred == (|u: BloodUnit| registered_by(u, bank_id@)),
        decreases registry.units@.len() - i,
    {
        let unit = &registry.units[i];
        proof {
            let prefix = registry.units@.subrange(0, i + 1);
            assert(prefix.drop_last() =~= registry.units@.subrange(0, i as int));
            reveal(Seq::filter);
        }
        if unit.bank_id.same_as(bank_id) {
            out.push(unit.duplicate());
        }
        i += 1;
    }
    assert(registry.units@.subrange(0, i as int) =~= registry.units@);
    out
}

/// All units given by `donor_id`, in order of id. Anonymous units are
/// returned only when the anonymous sentinel itself is asked for.
pub fn get_units_by_donor(registry: &Registry, donor_id: &Symbol) -> (r: Vec<BloodUnit>)
    requires
        registry.wf(),
    ensures
        r@ == registry.units().filter(|u: BloodUnit| donated_by(u, donor_id@)),
        donor_id@ != anon_text() ==> forall|j: int|
            0 <= j < r@.len() ==> (#[trigger] r@[j]).donor_id@ != anon_text(),
{
    let ghost pred = |u: BloodUnit| donated_by(u, donor_id@);
    let mut out: Vec<BloodUnit> = Vec::new();
    let mut i: usize = 0;
    while i < registry.units.len()
        invariant
            i <= registry.units@.len(),
            out@ == registry.units@.subrange(0, i as int).filter(pred),
            pred == (|u: BloodUnit| donated_by(u, donor_id@)),
        decreases registry.units@.len() - i,
    {
        let unit = &registry.units[i];
        proof {
            let prefix = registry.units@.subrange(0, i + 1);
            assert(prefix.drop_last() =~= registry.units@.subrange(0, i as int));
            reveal(Seq::filter);
        }
        if unit.donor_id.same_as(donor_id) {
            out.push(unit.duplicate());
        }
        i += 1;
    }
    assert(registry.units@.subrange(0, i as int) =~= registry.units@);
    proof {
        registry.units@.filter_lemma(pred);
    }
    out
}

/// Whether the unit `unit_id` is past its expiration date at `now` or
/// already marked `Expired`.
pub fn is_expired(registry: &Registry, now: u64, unit_id: u64) -> (r: Result<bool, Error>)
    requires
        registry.wf(),
    ensures
        registry.has_unit(unit_id) ==> r == Ok::<bool, Error>(
            expired_at(registry.unit(unit_id), now),
        ),
        !registry.has_unit(unit_id) ==> r == Err::<bool, Error>(Error::UnitNotFound),
{
    if unit_id == 0 || unit_id > registry.units.len() as u64 {
        return Err(Error::UnitNotFound);
    }
    let unit = &registry.units[(unit_id - 1) as usize];
    Ok(unit.expiration_date <= now || unit.status == BloodStatus::Expired)
}

/// The audit trail of the unit `unit_id`, oldest record first.
pub fn get_status_history(registry: &Registry, unit_id: u64) -> (r: Result<
    Vec<StatusChangeEvent>,
    Error,
>)
    requires
        registry.wf(),
    ensures
        registry.has_unit(unit_id) ==> r is Ok && r->Ok_0@ == registry.history(unit_id),
        !registry.has_unit(unit_id) ==> r == Err::<Vec<StatusChangeEvent>, Error>(
            Error::UnitNotFound,
        ),
{
    if unit_id == 0 || unit_id > registry.units.len() as u64 {
        return Err(Error::UnitNotFound);
    }
    Ok(registry.trails[(unit_id - 1) as usize].to_vec())
}

/// Every unit's recorded audit trail, replayed from its genesis record,
/// yields the unit's current status.
pub proof fn lemma_history_replays_to_status(registry: Registry, unit_id: u64)
    requires
        registry.wf(),
        registry.has_unit(unit_id),
    ensures
        replay(registry.history(unit_id)) == Some(registry.unit(unit_id).status),
{
    assert(registry.trails@[unit_id - 1]@ == registry.history(unit_id));
}

/// Every successful registration had a volume within limits and an
/// expiration date inside the shelf-life window; every stored unit keeps
/// these limits.
pub proof fn lemma_units_within_limits(registry: Registry, unit_id: u64)
    requires
        registry.wf(),
        registry.has_unit(unit_id),
    ensures
        unit_within_limits(registry.unit(unit_id)),
{
    assert(unit_within_limits(registry.units@[unit_id - 1]));
}

/// Expiring a unit a second time, at the same time as a first expiry that
/// succeeded, succeeds and changes nothing.
pub proof fn lemma_expire_twice_is_noop(
    first: Registry,
    second: Registry,
    third: Registry,
    now: u64,
    unit_id: u64,
    r1: Result<(), Error>,
    r2: Result<(), Error>,
)
    requires
        first.wf(),
        expire_unit_effect(first, second, now, unit_id, r1),
        r1 is Ok,
        expire_unit_effect(second, third, now, unit_id, r2),
    ensures
        r2 == Ok::<(), Error>(()),
        third == second,
{
    if first.unit(unit_id).status != BloodStatus::Expired && now >= first.unit(unit_id).expiration_date {
        assert(second.units()[unit_id - 1] == with_status(first.unit(unit_id), BloodStatus::Expired));
    }
}

} // verus!
