//! Orchestration: the state transitions that the single-threaded event
//! loop dispatches for flush ticks, rotation ticks, and startup.
use vstd::prelude::*;
use crate::counter::{charge, sum_u64, CategoryDurationCounter};
use crate::database::{Database, StoreError};
use crate::encoding::{entry_line, entry_shaped, lemma_entry_round_trip, parse_entry};

verus! {

/// The store and the counter agree on the category set.
pub open spec fn coupled(db: Database, duration_counter: CategoryDurationCounter) -> bool {
    &&& db.wf()
    &&& duration_counter.wf()
    &&& duration_counter.cats_dv() == db.cats_dv()
}

/// Flush tick: materialize up-to-the-moment totals and overwrite the open
/// entry with them.
pub fn write_durations_to_disk(
    db: &mut Database,
    duration_counter: &mut CategoryDurationCounter,
    window_start: u64,
    timestamp: u64,
)
    requires
        coupled(*old(db), *old(duration_counter)),
        old(duration_counter).last_update <= timestamp,
        sum_u64(old(duration_counter).durations@) + (timestamp - old(
            duration_counter,
        ).last_update) <= u64::MAX,
    ensures
        coupled(*final(db), *final(duration_counter)),
        final(duration_counter).categories == old(duration_counter).categories,
        final(duration_counter).model() == charge(
            old(duration_counter).model(),
            timestamp as int,
        ),
        final(db).categories == old(db).categories,
        final(db).open_offset == old(db).open_offset,
        final(db).locked == old(db).locked,
        final(db).content@ == old(db).content@.take(old(db).open_offset as int) + entry_line(
            window_start,
            final(duration_counter).durations@,
        ),
        final(db).open_region() == entry_line(window_start, final(duration_counter).durations@),
        parse_entry(final(db).open_region(), final(db).cats_dv().len()) == Some(
            (window_start, final(duration_counter).durations@),
        ),
{
    duration_counter.record_current_duration(timestamp);
    db.rewrite_last_entry(window_start, duration_counter.durations());
    proof {
        lemma_entry_round_trip(window_start, duration_counter.durations@);
    }
}

/// Rotation tick: flush, seal the entry, zero the totals, and advance the
/// window boundary by exactly one window size (grid-aligned).
pub fn change_time_window(
    db: &mut Database,
    duration_counter: &mut CategoryDurationCounter,
    window_start: &mut u64,
    time_window_size: u64,
    timestamp: u64,
)
    requires
        coupled(*old(db), *old(duration_counter)),
        old(duration_counter).last_update <= timestamp,
        sum_u64(old(duration_counter).durations@) + (timestamp - old(
            duration_counter,
        ).last_update) <= u64::MAX,
        *old(window_start) + time_window_size <= u64::MAX,
    ensures
        coupled(*final(db), *final(duration_counter)),
        ({
            let sealed = entry_line(
                *old(window_start),
                charge(old(duration_counter).model(), timestamp as int).durations,
            );
            &&& final(db).content@ == old(db).content@.take(old(db).open_offset as int) + sealed
            &&& final(db).locked@ == old(db).locked@.push(sealed)
            &&& parse_entry(sealed, final(db).cats_dv().len()) == Some(
                (
                    *old(window_start),
                    charge(old(duration_counter).model(), timestamp as int).durations,
                ),
            )
        }),
        final(db).categories == old(db).categories,
        final(db).open_offset == final(db).content@.len(),
        final(db).open_region().len() == 0,
        final(duration_counter).categories == old(duration_counter).categories,
        final(duration_counter).current_category == old(duration_counter).current_category,
        final(duration_counter).last_update == timestamp,
        final(duration_counter).durations@.len() == old(duration_counter).durations@.len(),
        forall|i: int|
            0 <= i < final(duration_counter).durations@.len()
                ==> final(duration_counter).durations@[i] == 0,
        sum_u64(final(duration_counter).durations@) == 0,
        *final(window_start) == *old(window_start) + time_window_size,
{
    write_durations_to_disk(db, duration_counter, *window_start, timestamp);
    proof {
        lemma_entry_round_trip(*window_start, duration_counter.durations@);
    }
    db.lock_last_entry();
    duration_counter.reset_durations();
    *window_start = *window_start + time_window_size;
}

/// Startup: resume the persisted open window if `now` falls inside it;
/// otherwise seal the stale entry (any clock anomaly included) and start a
/// fresh window at `now`. Returns the window start.
pub fn resume_or_start_window(
    db: &mut Database,
    duration_counter: &mut CategoryDurationCounter,
    now: u64,
    time_window_size: u64,
) -> (r: Result<u64, StoreError>)
    requires
        coupled(*old(db), *old(duration_counter)),
    ensures
        coupled(*final(db), *final(duration_counter)),
        final(db).categories == old(db).categories,
        final(duration_counter).categories == old(duration_counter).categories,
        final(duration_counter).current_category == old(duration_counter).current_category,
        final(duration_counter).last_update == old(duration_counter).last_update,
        ({
            let region = old(db).open_region();
            let parsed = parse_entry(region, old(db).cats_dv().len());
            &&& (r is Err <==> (region.len() > 0 && parsed is None))
            &&& (r matches Err(e) ==> e == StoreError::MalformedEntry && *final(db) == *old(db)
                && *final(duration_counter) == *old(duration_counter))
            &&& (region.len() == 0 ==> r == Ok::<u64, StoreError>(now) && *final(db) == *old(db)
                && *final(duration_counter) == *old(duration_counter))
            &&& (parsed matches Some((t, ds)) ==> {
                if t <= now < t + time_window_size {
                    // resume: keep the persisted boundary and totals
                    &&& r == Ok::<u64, StoreError>(t)
                    &&& *final(db) == *old(db)
                    &&& final(duration_counter).durations@ == ds
                } else {
                    // expired window or clock anomaly: seal it, start fresh
                    &&& r == Ok::<u64, StoreError>(now)
                    &&& final(db).content == old(db).content
                    &&& final(db).open_offset == final(db).content@.len()
                    &&& final(db).open_region().len() == 0
                    &&& final(db).locked@ == old(db).locked@.push(region)
                    &&& *final(duration_counter) == *old(duration_counter)
                }
            })
        }),
{
    let ghost region = db.open_region();
    let ghost ncats = db.cats_dv().len();
    match db.get_last_entry() {
        Err(e) => Err(e),
        Ok(None) => Ok(now),
        Ok(Some((t, ds))) => {
            assert(parse_entry(region, ncats) == Some((t, ds@)));
            assert(region.len() > 0) by {
                if region.len() == 0 {
                    assert(parse_entry(region, ncats) is None);
                }
            }
            if t <= now && now - t < time_window_size {
                duration_counter.set_durations(ds);
                Ok(t)
            } else {
                proof {
                    assert(entry_shaped(region, ncats)) by {
                        crate::encoding::lemma_split_on_len(region.drop_last(), '\t');
                    }
                }
                db.lock_last_entry();
                Ok(now)
            }
        },
    }
}

/// The delay until the rotation timer must first fire, so that rotations
/// stay on the window grid.
pub fn time_to_next_rotation(now: u64, window_start: u64, time_window_size: u64) -> (r: u64)
    requires
        window_start <= now,
        now - window_start < time_window_size,
    ensures
        r == time_window_size - (now - window_start),
        0 < r <= time_window_size,
{
    time_window_size - (now - window_start)
}

/// The configuration constraint checked before the daemon starts: the
/// flush interval is positive and shorter than the window size.
pub fn check_time_intervals(db_write_interval: u64, time_window_size: u64) -> (r: bool)
    ensures
        r == (0 < db_write_interval && db_write_interval < time_window_size),
{
    0 < db_write_interval && db_write_interval < time_window_size
}

} // verus!
