//! An in-memory event log of many globes.
//!
//! Each insert or delete is validated and appended in one step, so the
//! scene rules hold of every state of the log: every insert lies on the
//! surface, and the alive fixed balls of each globe keep their separation.
//! Event ids come from a clock but never repeat nor go back.

use vstd::prelude::*;
use std::collections::HashMap;
use crate::ball::BallEntity;
use crate::errors::MyError;
use crate::geometry::{on_surface, well_separated, PositionEntity};
use crate::keys::{from_start, is_from_start, PAGE_SIZE};
use crate::projection::{alive_map, apply_event, get_alive_objects_map, is_fixed_position};
use crate::text::{
    format_event_id, id_text, lemma_id_text_order, lemma_lex_lt_irreflexive,
    lemma_lex_lt_transitive, lex_lt, same_text, text_lt,
};
use crate::validation::{
    color_ok, delete_verdict, insert_verdict, KeyValueStoreTrait, ValidationService,
};
use vstd::string::StringExecFns;

verus! {

/// Relies on `chrono::Utc::now` and `DateTime::timestamp_nanos_opt`: the
/// current time in nanoseconds since the Unix epoch, if it fits in `i64`.
#[verifier::external_body]
fn clock_nanos() -> (r: Option<i64>) {
    chrono::Utc::now().timestamp_nanos_opt()
}

/// The clock's reading in nanoseconds since the Unix epoch; zero where it
/// cannot be read as such.
pub fn now_nanos() -> (r: u64) {
    match clock_nanos() {
        Some(n) => if n >= 0 {
            n as u64
        } else {
            0
        },
        None => 0,
    }
}

/// The id of the next event, given the clock's reading and the last id
/// handed out: the reading where it is later than the last id, else the id
/// right after it; none once the ids are exhausted.
pub fn next_event_id(clock: u64, last: u64) -> (r: Option<u64>)
    ensures
        clock > last ==> r == Some(clock),
        clock <= last && last < u64::MAX ==> r == Some((last + 1) as u64),
        clock <= last && last == u64::MAX ==> r is None,
{
    if clock > last {
        Some(clock)
    } else if last < u64::MAX {
        Some(last + 1)
    } else {
        None
    }
}

/// The id that follows `last` when the clock reads `clock`.
pub open spec fn next_id_spec(clock: u64, last: u64) -> u64 {
    if clock > last {
        clock
    } else {
        (last + 1) as u64
    }
}

/// One appended event, with its globe and its id.
pub struct LogRecord {
    pub globe_id: String,
    pub event_id: u64,
    pub event: BallEntity,
}

/// An event of a page, with its id as text.
pub struct BallTransaction {
    pub transaction_id: String,
    pub ball: BallEntity,
}

/// The events of globe `g`, with their ids, in the order of `records`.
pub open spec fn globe_entries(records: Seq<LogRecord>, g: Seq<char>) -> Seq<(u64, BallEntity)>
    decreases records.len(),
{
    if records.len() == 0 {
        Seq::empty()
    } else {
        let prev = globe_entries(records.drop_last(), g);
        if records.last().globe_id@ == g {
            prev.push((records.last().event_id, records.last().event))
        } else {
            prev
        }
    }
}

/// The events of globe `g`, in the order of `records`.
pub open spec fn globe_events(records: Seq<LogRecord>, g: Seq<char>) -> Seq<BallEntity> {
    globe_entries(records, g).map_values(|e: (u64, BallEntity)| e.1)
}

/// The entry `e` comes after `cursor`.
pub open spec fn selected(cursor: Seq<char>, e: (u64, BallEntity)) -> bool {
    from_start(cursor) || lex_lt(cursor, id_text(e.0))
}

/// The entries that come after `cursor`, in order.
pub open spec fn later(entries: Seq<(u64, BallEntity)>, cursor: Seq<char>) -> Seq<(u64, BallEntity)>
    decreases entries.len(),
{
    if entries.len() == 0 {
        Seq::empty()
    } else {
        let prev = later(entries.drop_last(), cursor);
        if selected(cursor, entries.last()) {
            prev.push(entries.last())
        } else {
            prev
        }
    }
}

pub open spec fn page_len(n: nat) -> int {
    if n < PAGE_SIZE {
        n as int
    } else {
        PAGE_SIZE as int
    }
}

/// The page that `cursor` selects: the first `PAGE_SIZE` entries after it.
pub open spec fn log_page(entries: Seq<(u64, BallEntity)>, cursor: Seq<char>) -> Seq<
    (u64, BallEntity),
> {
    later(entries, cursor).take(page_len(later(entries, cursor).len()))
}

/// The event stored for an accepted insert of `ball`.
pub open spec fn stored_insert(ball: BallEntity) -> BallEntity {
    BallEntity { is_insert: true, ..ball }
}

/// The tombstone of `uuid`.
pub open spec fn tombstone(uuid: u128) -> BallEntity {
    BallEntity {
        is_fixed: false,
        is_insert: false,
        uuid,
        color: None,
        position: None,
        impulse: None,
    }
}

/// Every pair of distinct alive fixed balls of `alive` is well separated.
pub open spec fn fixed_apart(alive: Map<u128, BallEntity>) -> bool {
    forall|u: u128, v: u128|
        #![trigger alive[u], alive[v]]
        alive.contains_key(u) && alive.contains_key(v) && u != v && alive[u].is_fixed
            && alive[v].is_fixed && alive[u].position is Some && alive[v].position is Some
            ==> well_separated(alive[u].position->0, alive[v].position->0)
}

/// Every insert of `records` places its ball on the surface.
pub open spec fn inserts_on_surface(records: Seq<LogRecord>) -> bool {
    forall|j: int|
        0 <= j < records.len() && (#[trigger] records[j]).event.is_insert
            ==> records[j].event.position is Some && on_surface(records[j].event.position->0)
}

/// The ids of `records` increase strictly and none exceeds `last`.
pub open spec fn ids_increasing(records: Seq<LogRecord>, last: u64) -> bool {
    &&& forall|i: int, j: int|
        0 <= i < j < records.len() ==> (#[trigger] records[i]).event_id < (#[trigger] records[j]).event_id
    &&& forall|j: int| 0 <= j < records.len() ==> (#[trigger] records[j]).event_id <= last
}

/// Appending a record adds its entry to its own globe's entries only.
pub proof fn lemma_globe_entries_push(records: Seq<LogRecord>, rec: LogRecord, g: Seq<char>)
    ensures
        globe_entries(records.push(rec), g) == if rec.globe_id@ == g {
            globe_entries(records, g).push((rec.event_id, rec.event))
        } else {
            globe_entries(records, g)
        },
        globe_events(records.push(rec), g) == if rec.globe_id@ == g {
            globe_events(records, g).push(rec.event)
        } else {
            globe_events(records, g)
        },
{
    assert(records.push(rec).drop_last() =~= records);
    if rec.globe_id@ == g {
        assert(globe_events(records.push(rec), g) =~= globe_events(records, g).push(rec.event));
    }
}

/// Folding one more event is one more step of the fold.
pub proof fn lemma_alive_map_push(events: Seq<BallEntity>, e: BallEntity)
    ensures
        alive_map(events.push(e)) == apply_event(alive_map(events), e),
{
    assert(events.push(e).drop_last() =~= events);
}

/// Distance does not depend on the order of its ends.
pub proof fn lemma_well_separated_symmetric(p: PositionEntity, q: PositionEntity)
    ensures
        well_separated(p, q) == well_separated(q, p),
{
    let (a, b, c) = (p.x - q.x, p.y - q.y, p.z - q.z);
    assert(a * a == (-a) * (-a) && b * b == (-b) * (-b) && c * c == (-c) * (-c)) by (nonlinear_arith);
}

/// An accepted insert keeps the alive fixed balls well separated.
pub proof fn lemma_insert_keeps_separation(
    alive: Map<u128, BallEntity>,
    ball: BallEntity,
    color_ok: bool,
)
    requires
        fixed_apart(alive),
        insert_verdict(ball, alive, color_ok) is Ok,
    ensures
        fixed_apart(apply_event(alive, stored_insert(ball))),
{
    let e = stored_insert(ball);
    let m = apply_event(alive, e);
    assert(m == alive.insert(ball.uuid, e));
    assert forall|u: u128, v: u128|
        #![trigger m[u], m[v]]
        m.contains_key(u) && m.contains_key(v) && u != v && m[u].is_fixed && m[v].is_fixed
            && m[u].position is Some && m[v].position is Some implies well_separated(
        m[u].position->0,
        m[v].position->0,
    ) by {
        let p = ball.position->0;
        if u == ball.uuid {
            let q = m[v].position->0;
            assert(alive[v] == m[v]);
            assert(is_fixed_position(alive, q));
        } else if v == ball.uuid {
            let q = m[u].position->0;
            assert(alive[u] == m[u]);
            assert(is_fixed_position(alive, q));
            lemma_well_separated_symmetric(p, q);
        } else {
            assert(alive[u] == m[u] && alive[v] == m[v]);
        }
    }
}

/// A delete keeps the alive fixed balls well separated.
pub proof fn lemma_delete_keeps_separation(alive: Map<u128, BallEntity>, uuid: u128)
    requires
        fixed_apart(alive),
    ensures
        fixed_apart(apply_event(alive, tombstone(uuid))),
{
    let m = apply_event(alive, tombstone(uuid));
    assert(m == alive.remove(uuid));
    assert forall|u: u128, v: u128|
        #![trigger m[u], m[v]]
        m.contains_key(u) && m.contains_key(v) && u != v && m[u].is_fixed && m[v].is_fixed
            && m[u].position is Some && m[v].position is Some implies well_separated(
        m[u].position->0,
        m[v].position->0,
    ) by {
        assert(alive[u] == m[u] && alive[v] == m[v]);
    }
}

/// The log of many globes, held in memory.
pub struct MemoryLog {
    records: Vec<LogRecord>,
    last_id: u64,
}

impl MemoryLog {
    /// The appended records, in order.
    pub closed spec fn records(&self) -> Seq<LogRecord> {
        self.records@
    }

    /// The largest id handed out so far.
    pub closed spec fn last_id(&self) -> u64 {
        self.last_id
    }

    /// The log's invariant: ids increase, every insert lies on the surface,
    /// and in every globe the alive fixed balls are well separated.
    pub closed spec fn wf(&self) -> bool {
        &&& ids_increasing(self.records@, self.last_id)
        &&& inserts_on_surface(self.records@)
        &&& forall|g: Seq<char>| #[trigger] fixed_apart(alive_map(globe_events(self.records@, g)))
    }

    /// An empty log.
    pub fn new() -> (r: MemoryLog)
        ensures
            r.wf(),
            r.records() == Seq::<LogRecord>::empty(),
            r.last_id() == 0,
    {
        let r = MemoryLog { records: Vec::new(), last_id: 0 };
        proof {
            assert forall|g: Seq<char>| #[trigger] fixed_apart(alive_map(globe_events(r.records@, g))) by {
                assert(alive_map(globe_events(r.records@, g)) =~= Map::empty());
            }
        }
        r
    }
}

/// `new` is `old` with one more record, of globe `g` and event `e`.
pub open spec fn appended(old: Seq<LogRecord>, new: Seq<LogRecord>, g: Seq<char>, e: BallEntity) -> bool {
    &&& new.len() == old.len() + 1
    &&& new.drop_last() == old
    &&& new.last().globe_id@ == g
    &&& new.last().event == e
}

/// `r` shows the entries of `page`, each id written as text.
pub open spec fn shows(r: Seq<BallTransaction>, page: Seq<(u64, BallEntity)>) -> bool {
    &&& r.len() == page.len()
    &&& forall|k: int|
        0 <= k < r.len() ==> (#[trigger] r[k]).transaction_id@ == id_text(page[k].0) && r[k].ball
            == page[k].1
}

proof fn lemma_later_push(entries: Seq<(u64, BallEntity)>, e: (u64, BallEntity), cursor: Seq<char>)
    ensures
        later(entries.push(e), cursor) == if selected(cursor, e) {
            later(entries, cursor).push(e)
        } else {
            later(entries, cursor)
        },
{
    assert(entries.push(e).drop_last() =~= entries);
}

impl MemoryLog {
    /// The events of `globe_id`, in order.
    pub fn events_of(&self, globe_id: &str) -> (r: Vec<BallEntity>)
        ensures
            r@ == globe_events(self.records(), globe_id@),
    {
        let mut r: Vec<BallEntity> = Vec::new();
        let mut j: usize = 0;
        while j < self.records.len()
            invariant
                j <= self.records@.len(),
                r@ == globe_events(self.records@.take(j as int), globe_id@),
            decreases self.records.len() - j,
        {
            let rec = &self.records[j];
            proof {
                assert(self.records@.take(j as int + 1) =~= self.records@.take(j as int).push(*rec));
                lemma_globe_entries_push(self.records@.take(j as int), *rec, globe_id@);
            }
            if same_text(rec.globe_id.as_str(), globe_id) {
                r.push(rec.event.duplicate());
            }
            j = j + 1;
        }
        assert(self.records@.take(j as int) =~= self.records@);
        r
    }

    /// The balls alive in `globe_id`, by uuid.
    pub fn alive_objects(&self, globe_id: &str) -> (r: HashMap<u128, BallEntity>)
        ensures
            r@ == alive_map(globe_events(self.records(), globe_id@)),
    {
        let events = self.events_of(globe_id);
        get_alive_objects_map(&events)
    }

    /// Whether the ball `uuid` is alive in `globe_id`.
    pub fn is_alive(&self, globe_id: &str, uuid: u128) -> (r: bool)
        ensures
            r == alive_map(globe_events(self.records(), globe_id@)).contains_key(uuid),
    {
        let alive = self.alive_objects(globe_id);
        alive.contains_key(&uuid)
    }

    /// Appends `event` to `globe_id` under a fresh id, unless ids are
    /// exhausted.
    fn append(&mut self, globe_id: &str, event: BallEntity, clock: u64) -> (r: Option<u64>)
        requires
            ids_increasing(old(self).records@, old(self).last_id),
        ensures
            ids_increasing(final(self).records@, final(self).last_id),
            old(self).last_id < u64::MAX ==> r is Some,
            r matches Some(id) ==> id > old(self).last_id && appended(
                old(self).records@,
                final(self).records@,
                globe_id@,
                event,
            ) && final(self).records@.last().event_id == id && final(self).last_id == id && id == (
            if clock > old(self).last_id {
                clock
            } else {
                (old(self).last_id + 1) as u64
            }),
            r is None ==> final(self).records@ == old(self).records@ && final(self).last_id
                == old(self).last_id,
    {
        match next_event_id(clock, self.last_id) {
            None => None,
            Some(id) => {
                let rec = LogRecord { globe_id: String::from_str(globe_id), event_id: id, event };
                self.records.push(rec);
                self.last_id = id;
                assert(self.records@.drop_last() =~= old(self).records@);
                Some(id)
            },
        }
    }

    /// Validates an insert of `ball` into `globe_id` against the globe's
    /// alive balls and, if it is accepted, appends it under a fresh id and
    /// returns that id as text.
    pub fn insert(&mut self, globe_id: &str, ball: &BallEntity, clock: u64) -> (r: Result<
        String,
        MyError,
    >)
        requires
            old(self).wf(),
        ensures
            final(self).wf(),
            ({
                let verdict = insert_verdict(
                    *ball,
                    alive_map(globe_events(old(self).records(), globe_id@)),
                    color_ok(*ball),
                );
                &&& (verdict matches Err(why) ==> (r matches Err(e) && e.reports(why)))
                &&& verdict is Err ==> final(self).records() == old(self).records()
                &&& verdict is Ok && old(self).last_id() < u64::MAX ==> r is Ok
                &&& r matches Ok(t) ==> verdict is Ok && appended(
                    old(self).records(),
                    final(self).records(),
                    globe_id@,
                    stored_insert(*ball),
                ) && t@ == id_text(final(self).records().last().event_id)
                &&& r is Ok ==> final(self).last_id() == final(self).records().last().event_id
                    && final(self).last_id() == next_id_spec(clock, old(self).last_id())
                &&& r is Err ==> final(self).records() == old(self).records() && final(self).last_id()
                    == old(self).last_id()
            }),
    {
        let alive = self.alive_objects(globe_id);
        let service = ValidationService::new();
        match service.check_insert(ball, &alive) {
            Err(e) => {
                return Err(e);
            },
            Ok(()) => {},
        }
        let mut event = ball.duplicate();
        event.is_insert = true;
        let ghost old_records = self.records@;
        match self.append(globe_id, event, clock) {
            None => Err(MyError::InternalServerError(String::from_str("event ids are exhausted"))),
            Some(id) => {
                proof {
                    let rec = self.records@.last();
                    assert(self.records@ == old_records.push(rec));
                    assert forall|g: Seq<char>| #[trigger]
                        fixed_apart(alive_map(globe_events(self.records@, g))) by {
                        lemma_globe_entries_push(old_records, rec, g);
                        assert(fixed_apart(alive_map(globe_events(old_records, g))));
                        if g == globe_id@ {
                            lemma_alive_map_push(globe_events(old_records, g), rec.event);
                            lemma_insert_keeps_separation(
                                alive_map(globe_events(old_records, g)),
                                *ball,
                                color_ok(*ball),
                            );
                        }
                    }
                    assert forall|j: int|
                        0 <= j < self.records@.len() && (#[trigger] self.records@[j]).event.is_insert
                            implies self.records@[j].event.position is Some && on_surface(
                        self.records@[j].event.position->0,
                    ) by {
                        if j < old_records.len() {
                            assert(self.records@[j] == old_records[j]);
                        }
                    }
                }
                Ok(format_event_id(id))
            },
        }
    }

    /// Validates a delete of `uuid` from `globe_id` and, if the ball is
    /// alive, appends its tombstone under a fresh id and returns that id as
    /// text.
    pub fn delete(&mut self, globe_id: &str, uuid: u128, clock: u64) -> (r: Result<String, MyError>)
        requires
            old(self).wf(),
        ensures
            final(self).wf(),
            ({
                let verdict = delete_verdict(
                    uuid,
                    alive_map(globe_events(old(self).records(), globe_id@)),
                );
                &&& (verdict matches Err(why) ==> (r matches Err(e) && e.reports(why)))
                &&& verdict is Err ==> final(self).records() == old(self).records()
                &&& verdict is Ok && old(self).last_id() < u64::MAX ==> r is Ok
                &&& r matches Ok(t) ==> verdict is Ok && appended(
                    old(self).records(),
                    final(self).records(),
                    globe_id@,
                    tombstone(uuid),
                ) && t@ == id_text(final(self).records().last().event_id)
                &&& r is Ok ==> final(self).last_id() == final(self).records().last().event_id
                    && final(self).last_id() == next_id_spec(clock, old(self).last_id())
                &&& r is Err ==> final(self).records() == old(self).records() && final(self).last_id()
                    == old(self).last_id()
            }),
    {
        let alive = self.alive_objects(globe_id);
        match crate::validation::decide_delete(uuid, &alive) {
            Err(why) => {
                return Err(why.into_error());
            },
            Ok(()) => {},
        }
        let event = BallEntity::new(uuid, false);
        let ghost old_records = self.records@;
        match self.append(globe_id, event, clock) {
            None => Err(MyError::InternalServerError(String::from_str("event ids are exhausted"))),
            Some(id) => {
                proof {
                    let rec = self.records@.last();
                    assert(self.records@ == old_records.push(rec));
                    assert forall|g: Seq<char>| #[trigger]
                        fixed_apart(alive_map(globe_events(self.records@, g))) by {
                        lemma_globe_entries_push(old_records, rec, g);
                        assert(fixed_apart(alive_map(globe_events(old_records, g))));
                        if g == globe_id@ {
                            lemma_alive_map_push(globe_events(old_records, g), rec.event);
                            lemma_delete_keeps_separation(
                                alive_map(globe_events(old_records, g)),
                                uuid,
                            );
                        }
                    }
                    assert forall|j: int|
                        0 <= j < self.records@.len() && (#[trigger] self.records@[j]).event.is_insert
                            implies self.records@[j].event.position is Some && on_surface(
                        self.records@[j].event.position->0,
                    ) by {
                        if j < old_records.len() {
                            assert(self.records@[j] == old_records[j]);
                        }
                    }
                }
                Ok(format_event_id(id))
            },
        }
    }

    /// The page of `globe_id` that `transaction_id` asks for: from the
    /// beginning for `"0"`, else the events whose id text comes after it.
    pub fn get_log_data(&self, globe_id: &str, transaction_id: &str) -> (r: Vec<BallTransaction>)
        ensures
            shows(r@, log_page(globe_entries(self.records(), globe_id@), transaction_id@)),
    {
        let from_beginning = is_from_start(transaction_id);
        let mut r: Vec<BallTransaction> = Vec::new();
        let mut j: usize = 0;
        while j < self.records.len()
            invariant
                j <= self.records@.len(),
                from_beginning == from_start(transaction_id@),
                shows(r@, log_page(globe_entries(self.records@.take(j as int), globe_id@), transaction_id@)),
            decreases self.records.len() - j,
        {
            let rec = &self.records[j];
            let ghost prefix = self.records@.take(j as int);
            let ghost entries = globe_entries(prefix, globe_id@);
            proof {
                assert(self.records@.take(j as int + 1) =~= prefix.push(*rec));
                lemma_globe_entries_push(prefix, *rec, globe_id@);
            }
            if same_text(rec.globe_id.as_str(), globe_id) {
                let id = format_event_id(rec.event_id);
                let after = from_beginning || text_lt(transaction_id, id.as_str());
                let ghost e = (rec.event_id, rec.event);
                proof {
                    lemma_later_push(entries, e, transaction_id@);
                }
                if after && r.len() < PAGE_SIZE {
                    r.push(BallTransaction { transaction_id: id, ball: rec.event.duplicate() });
                    proof {
                        let page = log_page(entries.push(e), transaction_id@);
                        assert forall|k: int| 0 <= k < r@.len() implies (#[trigger] r@[k]).transaction_id@
                            == id_text(page[k].0) && r@[k].ball == page[k].1 by {
                        }
                    }
                } else if after {
                    assert(log_page(entries.push(e), transaction_id@) =~= log_page(
                        entries,
                        transaction_id@,
                    ));
                }
            }
            j = j + 1;
        }
        assert(self.records@.take(j as int) =~= self.records@);
        r
    }
}

impl KeyValueStoreTrait for MemoryLog {
    open spec fn alive_view(&self, globe_id: Seq<char>) -> Result<Map<u128, BallEntity>, MyError> {
        Ok(alive_map(globe_events(self.records(), globe_id)))
    }

    fn get_alive_objects_map(&self, globe_id: &str) -> (r: Result<HashMap<u128, BallEntity>, MyError>) {
        Ok(self.alive_objects(globe_id))
    }
}

/// Every entry after a cursor was selected by it and is an entry of the
/// log.
pub proof fn lemma_later_members(entries: Seq<(u64, BallEntity)>, cursor: Seq<char>)
    ensures
        forall|k: int|
            0 <= k < later(entries, cursor).len() ==> selected(cursor, #[trigger] later(entries, cursor)[k])
                && entries.contains(later(entries, cursor)[k]),
    decreases entries.len(),
{
    if entries.len() > 0 {
        let prefix = entries.drop_last();
        lemma_later_members(prefix, cursor);
        assert forall|k: int|
            0 <= k < later(entries, cursor).len() implies selected(
            cursor,
            #[trigger] later(entries, cursor)[k],
        ) && entries.contains(later(entries, cursor)[k]) by {
            if k < later(prefix, cursor).len() {
                let x = later(prefix, cursor)[k];
                let i = choose|i: int| 0 <= i < prefix.len() && prefix[i] == x;
                assert(entries[i] == x);
            } else {
                assert(entries[entries.len() - 1] == entries.last());
            }
        }
    }
}

/// A cursor that selects fewer entries keeps fewer after it; strictly fewer
/// where some entry is selected by the first cursor only.
pub proof fn lemma_later_shrinks(
    entries: Seq<(u64, BallEntity)>,
    wide: Seq<char>,
    narrow: Seq<char>,
)
    requires
        forall|i: int|
            0 <= i < entries.len() && selected(narrow, #[trigger] entries[i]) ==> selected(wide, entries[i]),
    ensures
        later(entries, narrow).len() <= later(entries, wide).len(),
        (exists|i: int|
            0 <= i < entries.len() && selected(wide, #[trigger] entries[i]) && !selected(narrow, entries[i]))
            ==> later(entries, narrow).len() < later(entries, wide).len(),
    decreases entries.len(),
{
    if entries.len() > 0 {
        let prefix = entries.drop_last();
        assert forall|i: int|
            0 <= i < prefix.len() && selected(narrow, #[trigger] prefix[i]) implies selected(
            wide,
            prefix[i],
        ) by {
            assert(prefix[i] == entries[i]);
        }
        lemma_later_shrinks(prefix, wide, narrow);
        assert(selected(narrow, entries[entries.len() - 1]) ==> selected(wide, entries.last()));
        if exists|i: int|
            0 <= i < entries.len() && selected(wide, #[trigger] entries[i]) && !selected(narrow, entries[i]) {
            let i = choose|i: int|
                0 <= i < entries.len() && selected(wide, #[trigger] entries[i]) && !selected(narrow, entries[i]);
            if i < prefix.len() {
                assert(prefix[i] == entries[i]);
            }
        }
    }
}

/// Tailing a globe: asking again with the id of the last entry of a page
/// never returns that entry again, nor any entry at or before it, and
/// leaves strictly fewer entries to come, so that repeated calls reach an
/// empty page once no events remain.
pub proof fn lemma_cursor_progress(entries: Seq<(u64, BallEntity)>, cursor: Seq<char>)
    requires
        log_page(entries, cursor).len() > 0,
    ensures
        ({
            let last = log_page(entries, cursor).last();
            let next = later(entries, id_text(last.0));
            &&& forall|k: int|
                0 <= k < next.len() ==> lex_lt(id_text(last.0), id_text((#[trigger] next[k]).0))
                    && next[k].0 != last.0
            &&& next.len() < later(entries, cursor).len()
        }),
{
    let page = log_page(entries, cursor);
    let all = later(entries, cursor);
    let last = page.last();
    let l = id_text(last.0);
    assert(last == all[page.len() - 1]);
    lemma_later_members(entries, cursor);
    lemma_later_members(entries, l);
    assert(!from_start(l)) by {
        assert(l.len() == 20);
    }
    lemma_lex_lt_irreflexive(l);
    assert forall|k: int| 0 <= k < later(entries, l).len() implies lex_lt(
        l,
        id_text((#[trigger] later(entries, l)[k]).0),
    ) && later(entries, l)[k].0 != last.0 by {
        assert(selected(l, later(entries, l)[k]));
    }
    assert forall|i: int|
        0 <= i < entries.len() && selected(l, #[trigger] entries[i]) implies selected(
        cursor,
        entries[i],
    ) by {
        if !from_start(cursor) {
            assert(selected(cursor, all[page.len() - 1]));
            lemma_lex_lt_transitive(cursor, l, id_text(entries[i].0));
        }
    }
    let w = choose|i: int| 0 <= i < entries.len() && entries[i] == last;
    assert(selected(cursor, entries[w]) && !selected(l, entries[w]));
    lemma_later_shrinks(entries, cursor, l);
}

/// Round trip: the first event of a globe heads the page asked for from
/// the beginning, exactly as it was appended.
pub proof fn lemma_first_event_heads_page(records: Seq<LogRecord>, rec: LogRecord, cursor: Seq<char>)
    requires
        globe_entries(records, rec.globe_id@).len() == 0,
        from_start(cursor),
    ensures
        log_page(globe_entries(records.push(rec), rec.globe_id@), cursor) == seq![
            (rec.event_id, rec.event),
        ],
{
    let g = rec.globe_id@;
    let e = (rec.event_id, rec.event);
    lemma_globe_entries_push(records, rec, g);
    let entries = globe_entries(records, g);
    assert(entries =~= Seq::<(u64, BallEntity)>::empty());
    lemma_later_push(entries, e, cursor);
    assert(later(entries.push(e), cursor) =~= seq![e]);
    assert(log_page(entries.push(e), cursor) =~= seq![e]);
}

/// An accepted insert keeps what the client sent: uuid, color, position,
/// whether it is fixed, and its impulse.
pub proof fn lemma_stored_insert_keeps_content(ball: BallEntity)
    ensures
        stored_insert(ball).is_insert,
        stored_insert(ball).uuid == ball.uuid,
        stored_insert(ball).color == ball.color,
        stored_insert(ball).position == ball.position,
        stored_insert(ball).is_fixed == ball.is_fixed,
        stored_insert(ball).impulse == ball.impulse,
{
}

proof fn lemma_entry_ids_below(records: Seq<LogRecord>, g: Seq<char>, x: u64)
    requires
        forall|i: int| 0 <= i < records.len() ==> (#[trigger] records[i]).event_id < x,
    ensures
        forall|k: int|
            0 <= k < globe_entries(records, g).len() ==> (#[trigger] globe_entries(records, g)[k]).0 < x,
    decreases records.len(),
{
    if records.len() > 0 {
        let prefix = records.drop_last();
        assert forall|i: int| 0 <= i < prefix.len() implies (#[trigger] prefix[i]).event_id < x by {
            assert(prefix[i] == records[i]);
        }
        lemma_entry_ids_below(prefix, g, x);
        assert(records.last() == records[records.len() - 1]);
        let all = globe_entries(records, g);
        let before = globe_entries(prefix, g);
        assert forall|k: int| 0 <= k < all.len() implies (#[trigger] all[k]).0 < x by {
            if k < before.len() {
                assert(all[k] == before[k]);
            }
        }
    }
}

proof fn lemma_entry_ids_increasing(records: Seq<LogRecord>, g: Seq<char>)
    requires
        forall|i: int, j: int|
            0 <= i < j < records.len() ==> (#[trigger] records[i]).event_id < (
            #[trigger] records[j]).event_id,
    ensures
        forall|i: int, j: int|
            0 <= i < j < globe_entries(records, g).len() ==> (#[trigger] globe_entries(
                records,
                g,
            )[i]).0 < (#[trigger] globe_entries(records, g)[j]).0,
    decreases records.len(),
{
    if records.len() > 0 {
        let prefix = records.drop_last();
        let last = records.last();
        assert forall|i: int, j: int|
            0 <= i < j < prefix.len() implies (#[trigger] prefix[i]).event_id < (
            #[trigger] prefix[j]).event_id by {
            assert(prefix[i] == records[i] && prefix[j] == records[j]);
        }
        lemma_entry_ids_increasing(prefix, g);
        assert forall|i: int| 0 <= i < prefix.len() implies (#[trigger] prefix[i]).event_id
            < last.event_id by {
            assert(prefix[i] == records[i] && last == records[records.len() - 1]);
        }
        lemma_entry_ids_below(prefix, g, last.event_id);
        let all = globe_entries(records, g);
        let before = globe_entries(prefix, g);
        assert forall|i: int, j: int| 0 <= i < j < all.len() implies (#[trigger] all[i]).0 < (
        #[trigger] all[j]).0 by {
            assert(all[i] == before[i]);
            if j < before.len() {
                assert(all[j] == before[j]);
            }
        }
    }
}

impl MemoryLog {
    /// Within a globe, entries come in strictly increasing id order, and so
    /// in the order of their keys: the log's order is the key order of the
    /// ordered store.
    pub proof fn lemma_entries_in_key_order(&self, g: Seq<char>, i: int, j: int)
        requires
            self.wf(),
            0 <= i < j < globe_entries(self.records(), g).len(),
        ensures
            globe_entries(self.records(), g)[i].0 < globe_entries(self.records(), g)[j].0,
            lex_lt(
                id_text(globe_entries(self.records(), g)[i].0),
                id_text(globe_entries(self.records(), g)[j].0),
            ),
    {
        lemma_entry_ids_increasing(self.records@, g);
        lemma_id_text_order(globe_entries(self.records(), g)[i].0, globe_entries(self.records(), g)[j].0);
    }

    /// Every insert in the log places its ball on the globe's surface.
    pub proof fn lemma_inserts_on_surface(&self, j: int)
        requires
            self.wf(),
            0 <= j < self.records().len(),
            self.records()[j].event.is_insert,
        ensures
            self.records()[j].event.position is Some,
            on_surface(self.records()[j].event.position->0),
    {
    }

    /// In every globe, any two alive fixed balls are at least
    /// `MIN_SEPARATION` apart.
    pub proof fn lemma_fixed_balls_apart(&self, g: Seq<char>, u: u128, v: u128)
        requires
            self.wf(),
        ensures
            ({
                let alive = alive_map(globe_events(self.records(), g));
                alive.contains_key(u) && alive.contains_key(v) && u != v && alive[u].is_fixed
                    && alive[v].is_fixed && alive[u].position is Some && alive[v].position is Some
                    ==> well_separated(alive[u].position->0, alive[v].position->0)
            }),
    {
        assert(fixed_apart(alive_map(globe_events(self.records(), g))));
    }
}

/// The ids of `entries` increase strictly.
pub open spec fn ids_sorted(entries: Seq<(u64, BallEntity)>) -> bool {
    forall|i: int, j: int|
        0 <= i < j < entries.len() ==> (#[trigger] entries[i]).0 < (#[trigger] entries[j]).0
}

proof fn lemma_later_sorted(entries: Seq<(u64, BallEntity)>, cursor: Seq<char>)
    requires
        ids_sorted(entries),
    ensures
        ids_sorted(later(entries, cursor)),
    decreases entries.len(),
{
    if entries.len() > 0 {
        let prefix = entries.drop_last();
        assert(ids_sorted(prefix)) by {
            assert forall|i: int, j: int| 0 <= i < j < prefix.len() implies (#[trigger] prefix[i]).0
                < (#[trigger] prefix[j]).0 by {
                assert(prefix[i] == entries[i] && prefix[j] == entries[j]);
            }
        }
        lemma_later_sorted(prefix, cursor);
        lemma_later_members(prefix, cursor);
        let before = later(prefix, cursor);
        let all = later(entries, cursor);
        let e = entries.last();
        assert forall|i: int, j: int| 0 <= i < j < all.len() implies (#[trigger] all[i]).0 < (
        #[trigger] all[j]).0 by {
            assert(all[i] == before[i]);
            if j < before.len() {
                assert(all[j] == before[j]);
            } else {
                let w = choose|w: int| 0 <= w < prefix.len() && prefix[w] == before[i];
                assert(prefix[w] == entries[w] && e == entries[entries.len() - 1]);
            }
        }
    }
}

/// Of sorted entries none of which has an id above `x`, none comes after
/// the text of `x`.
proof fn lemma_later_none(entries: Seq<(u64, BallEntity)>, x: u64)
    requires
        forall|i: int| 0 <= i < entries.len() ==> (#[trigger] entries[i]).0 <= x,
    ensures
        later(entries, id_text(x)) == Seq::<(u64, BallEntity)>::empty(),
    decreases entries.len(),
{
    if entries.len() > 0 {
        let prefix = entries.drop_last();
        assert forall|i: int| 0 <= i < prefix.len() implies (#[trigger] prefix[i]).0 <= x by {
            assert(prefix[i] == entries[i]);
        }
        lemma_later_none(prefix, x);
        assert(entries.last() == entries[entries.len() - 1]);
        lemma_id_text_order(x, entries.last().0);
        assert(id_text(x).len() == 20);
    }
}

/// In sorted entries, those after the text of the id of entry `k` are the
/// entries that follow it.
proof fn lemma_later_after_member(entries: Seq<(u64, BallEntity)>, k: int)
    requires
        ids_sorted(entries),
        0 <= k < entries.len(),
    ensures
        later(entries, id_text(entries[k].0)) == entries.skip(k + 1),
    decreases entries.len(),
{
    let x = entries[k].0;
    let prefix = entries.drop_last();
    let e = entries.last();
    assert(e == entries[entries.len() - 1]);
    assert(id_text(x).len() == 20);
    if k == entries.len() - 1 {
        assert forall|i: int| 0 <= i < entries.len() implies (#[trigger] entries[i]).0 <= x by {
        }
        lemma_later_none(entries, x);
        assert(entries.skip(k + 1) =~= Seq::<(u64, BallEntity)>::empty());
    } else {
        assert(ids_sorted(prefix)) by {
            assert forall|i: int, j: int| 0 <= i < j < prefix.len() implies (#[trigger] prefix[i]).0
                < (#[trigger] prefix[j]).0 by {
                assert(prefix[i] == entries[i] && prefix[j] == entries[j]);
            }
        }
        assert(prefix[k] == entries[k]);
        lemma_later_after_member(prefix, k);
        lemma_id_text_order(x, e.0);
        assert(entries.skip(k + 1) =~= prefix.skip(k + 1).push(e));
    }
}

/// Where every entry that `narrow` selects is selected by `wide`, selecting
/// with `narrow` after `wide` selects as `narrow` alone.
proof fn lemma_later_nested(
    entries: Seq<(u64, BallEntity)>,
    wide: Seq<char>,
    narrow: Seq<char>,
)
    requires
        forall|i: int|
            0 <= i < entries.len() && selected(narrow, #[trigger] entries[i]) ==> selected(wide, entries[i]),
    ensures
        later(entries, narrow) == later(later(entries, wide), narrow),
    decreases entries.len(),
{
    if entries.len() > 0 {
        let prefix = entries.drop_last();
        let e = entries.last();
        assert(e == entries[entries.len() - 1]);
        assert forall|i: int|
            0 <= i < prefix.len() && selected(narrow, #[trigger] prefix[i]) implies selected(
            wide,
            prefix[i],
        ) by {
            assert(prefix[i] == entries[i]);
        }
        lemma_later_nested(prefix, wide, narrow);
        assert(entries =~= prefix.push(e));
        lemma_later_push(prefix, e, wide);
        lemma_later_push(prefix, e, narrow);
        if selected(wide, e) {
            lemma_later_push(later(prefix, wide), e, narrow);
        }
    }
}

/// On sorted entries, what comes after the last entry of a page is what
/// came after the cursor, less that page.
pub proof fn lemma_next_page_follows(entries: Seq<(u64, BallEntity)>, cursor: Seq<char>)
    requires
        ids_sorted(entries),
        log_page(entries, cursor).len() > 0,
    ensures
        later(entries, id_text(log_page(entries, cursor).last().0)) == later(entries, cursor).skip(
            log_page(entries, cursor).len() as int,
        ),
{
    let page = log_page(entries, cursor);
    let all = later(entries, cursor);
    let k = page.len() as int;
    let l = id_text(page.last().0);
    assert(page.last() == all[k - 1]);
    lemma_later_members(entries, cursor);
    assert(!from_start(l)) by {
        assert(l.len() == 20);
    }
    assert forall|i: int|
        0 <= i < entries.len() && selected(l, #[trigger] entries[i]) implies selected(
        cursor,
        entries[i],
    ) by {
        if !from_start(cursor) {
            assert(selected(cursor, all[k - 1]));
            lemma_lex_lt_transitive(cursor, l, id_text(entries[i].0));
        }
    }
    lemma_later_nested(entries, cursor, l);
    lemma_later_sorted(entries, cursor);
    lemma_later_after_member(all, k - 1);
}

/// The cursor after `k` calls, each of which passes on the id of the last
/// entry of the page before; an empty page leaves the cursor as it was.
pub open spec fn cursor_after(entries: Seq<(u64, BallEntity)>, cursor: Seq<char>, k: nat) -> Seq<char>
    decreases k,
{
    if k == 0 {
        cursor
    } else {
        let c = cursor_after(entries, cursor, (k - 1) as nat);
        let page = log_page(entries, c);
        if page.len() == 0 {
            c
        } else {
            id_text(page.last().0)
        }
    }
}

proof fn lemma_remaining_after(entries: Seq<(u64, BallEntity)>, cursor: Seq<char>, k: nat)
    requires
        ids_sorted(entries),
    ensures
        later(entries, cursor_after(entries, cursor, k)).len() == if later(entries, cursor).len()
            >= PAGE_SIZE * k {
            later(entries, cursor).len() - PAGE_SIZE * k
        } else {
            0
        },
    decreases k,
{
    if k > 0 {
        lemma_remaining_after(entries, cursor, (k - 1) as nat);
        let c = cursor_after(entries, cursor, (k - 1) as nat);
        if log_page(entries, c).len() > 0 {
            lemma_next_page_follows(entries, c);
        }
    }
}

/// Tailing a globe from `cursor`, each call passing on the id of the last
/// entry it received: with `n` entries after the cursor, the first
/// `ceil(n / PAGE_SIZE)` pages are non-empty and the next is empty, so the
/// client is caught up within `ceil(n / PAGE_SIZE) + 1` calls. Every page
/// continues where the one before ended.
pub proof fn lemma_tailing_catches_up(entries: Seq<(u64, BallEntity)>, cursor: Seq<char>, k: nat)
    requires
        ids_sorted(entries),
    ensures
        ({
            let n = later(entries, cursor).len();
            let calls = (n + PAGE_SIZE - 1) / (PAGE_SIZE as int);
            &&& k < calls ==> log_page(entries, cursor_after(entries, cursor, k)).len() > 0
            &&& k >= calls ==> log_page(entries, cursor_after(entries, cursor, k)).len() == 0
            &&& log_page(entries, cursor_after(entries, cursor, k)).len() > 0 ==> later(
                entries,
                cursor_after(entries, cursor, k + 1),
            ) == later(entries, cursor_after(entries, cursor, k)).skip(
                log_page(entries, cursor_after(entries, cursor, k)).len() as int,
            )
        }),
{
    let n = later(entries, cursor).len() as int;
    lemma_remaining_after(entries, cursor, k);
    let calls = (n + PAGE_SIZE - 1) / (PAGE_SIZE as int);
    assert(k < calls <==> n > 10 * k) by {
        assert(10 * calls <= n + 9 < 10 * calls + 10);
        assert(k < calls <==> 10 * k < 10 * calls) by (nonlinear_arith);
    }
    let c = cursor_after(entries, cursor, k);
    if log_page(entries, c).len() > 0 {
        lemma_next_page_follows(entries, c);
    }
}

impl MemoryLog {
    /// The entries of each globe of the log have strictly increasing ids, so
    /// the tailing law holds of them.
    pub proof fn lemma_globe_entries_sorted(&self, g: Seq<char>)
        requires
            self.wf(),
        ensures
            ids_sorted(globe_entries(self.records(), g)),
    {
        lemma_entry_ids_increasing(self.records@, g);
    }
}

} // verus!
