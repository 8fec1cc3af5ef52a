//! The rules that records must meet before they are sent to or taken from a
//! sync peer.

use std::collections::HashSet;
use vstd::prelude::*;
use vstd::utf8::encode_utf8;
use crate::error::TrackerError;
use crate::model::{Task, TimeEntry};
use crate::records::{strictly_sorted, task_id, task_id_spec};
use crate::text::{bytes_less, bytes_lt, chars_of, contains_control, has_control, same_text};
use crate::time::Timestamp;

verus! {

broadcast use vstd::std_specs::hash::group_hash_axioms;

/// The most tasks, and the most entries, that one sync payload may hold.
pub const MAX_SYNC_RECORDS: usize = 100000;

/// The most characters in a name, a project or a tag.
pub const MAX_TEXT_CHARS: usize = 1024;

/// The most tags on one record.
pub const MAX_TAGS: usize = 64;

/// How far ahead of the receiving clock, in seconds, an update, a start or
/// a stop may lie: ten minutes.
pub const MAX_CLOCK_LEAD_SECS: i64 = 600;

/// A hexadecimal digit as `Uuid`'s text writes it: `0`-`9` or `a`-`f`.
pub open spec fn is_hex_digit(c: char) -> bool {
    let u = c as u32;
    (0x30 <= u <= 0x39) || (0x61 <= u <= 0x66)
}

/// The positions of the hyphens in a hyphenated UUID.
pub open spec fn is_uuid_hyphen_position(k: int) -> bool {
    k == 8 || k == 13 || k == 18 || k == 23
}

/// The first characters of a hyphenated lowercase UUID: a hyphen at each
/// hyphen position, a hexadecimal digit elsewhere.
pub open spec fn uuid_prefix_ok(t: Seq<char>) -> bool {
    &&& t.len() <= 36
    &&& forall|k: int| #![trigger t[k]] 0 <= k < t.len() ==>
            if is_uuid_hyphen_position(k) { t[k] == '-' } else { is_hex_digit(t[k]) }
}

/// A UUID in the text that `Uuid` writes: 36 characters, eight, four, four,
/// four and twelve lowercase hexadecimal digits separated by hyphens.
pub open spec fn is_uuid_text(t: Seq<char>) -> bool {
    t.len() == 36 && uuid_prefix_ok(t)
}

/// The value of a hexadecimal digit.
pub open spec fn hex_value(c: char) -> int {
    let u = c as u32;
    if u <= 0x39 {
        u - 0x30
    } else {
        u - 0x61 + 10
    }
}

/// The number that the digits of a UUID text spell, hyphens skipped.
pub open spec fn uuid_number(t: Seq<char>) -> int
    decreases t.len(),
{
    if t.len() == 0 {
        0
    } else if t.last() == '-' {
        uuid_number(t.drop_last())
    } else {
        uuid_number(t.drop_last()) * 16 + hex_value(t.last())
    }
}

spec fn digit_count(t: Seq<char>) -> nat
    decreases t.len(),
{
    if t.len() == 0 {
        0
    } else if t.last() == '-' {
        digit_count(t.drop_last())
    } else {
        digit_count(t.drop_last()) + 1
    }
}

spec fn hyphens_before(n: int) -> int {
    (if n > 8 { 1int } else { 0int }) + (if n > 13 { 1int } else { 0int })
        + (if n > 18 { 1int } else { 0int }) + (if n > 23 { 1int } else { 0int })
}

spec fn pow16(n: nat) -> nat
    decreases n,
{
    if n == 0 {
        1
    } else {
        16 * pow16((n - 1) as nat)
    }
}

proof fn lemma_uuid_number_bound(t: Seq<char>)
    requires
        uuid_prefix_ok(t),
    ensures
        0 <= uuid_number(t) < pow16(digit_count(t)),
        digit_count(t) == t.len() - hyphens_before(t.len() as int),
    decreases t.len(),
{
    if t.len() > 0 {
        let r = t.drop_last();
        assert(uuid_prefix_ok(r)) by {
            assert forall|k: int| 0 <= k < r.len() implies
                (if is_uuid_hyphen_position(k) { r[k] == '-' } else { is_hex_digit(r[k]) }) by {
                assert(r[k] == t[k]);
            }
        }
        lemma_uuid_number_bound(r);
        let k = t.len() - 1;
        assert(t.last() == t[k]);
        if !is_uuid_hyphen_position(k) {
            assert(t.last() != '-') by {
                assert(is_hex_digit(t[k]));
            }
            assert(0 <= hex_value(t.last()) < 16);
        }
    }
}

proof fn lemma_pow16_limit(n: nat)
    requires
        n <= 32,
    ensures
        pow16(n) <= pow16(32),
    decreases 32 - n,
{
    if n < 32 {
        lemma_pow16_limit(n + 1);
    }
}

proof fn lemma_same_code_same_char(a: char, b: char)
    requires
        (a as u32) == (b as u32),
    ensures
        a == b,
{
    assert((a as int) == (b as int));
}

/// Two UUID texts with the same number are the same text.
proof fn lemma_uuid_number_injective(t: Seq<char>, u: Seq<char>)
    requires
        uuid_prefix_ok(t),
        uuid_prefix_ok(u),
        t.len() == u.len(),
        uuid_number(t) == uuid_number(u),
    ensures
        t == u,
    decreases t.len(),
{
    if t.len() > 0 {
        let rt = t.drop_last();
        let ru = u.drop_last();
        let k = t.len() - 1;
        assert(uuid_prefix_ok(rt)) by {
            assert forall|j: int| 0 <= j < rt.len() implies
                (if is_uuid_hyphen_position(j) { rt[j] == '-' } else { is_hex_digit(rt[j]) }) by {
                assert(rt[j] == t[j]);
            }
        }
        assert(uuid_prefix_ok(ru)) by {
            assert forall|j: int| 0 <= j < ru.len() implies
                (if is_uuid_hyphen_position(j) { ru[j] == '-' } else { is_hex_digit(ru[j]) }) by {
                assert(ru[j] == u[j]);
            }
        }
        assert(t.last() == t[k] && u.last() == u[k]);
        if is_uuid_hyphen_position(k) {
            assert(t.last() == '-' && u.last() == '-');
        } else {
            assert(is_hex_digit(t[k]) && is_hex_digit(u[k]));
            assert(t.last() != '-' && u.last() != '-');
            let a = uuid_number(rt);
            let b = uuid_number(ru);
            let x = hex_value(t.last());
            let y = hex_value(u.last());
            assert(0 <= x < 16 && 0 <= y < 16);
            assert(a * 16 + x == b * 16 + y);
            assert(a == b && x == y) by (nonlinear_arith)
                requires
                    a * 16 + x == b * 16 + y,
                    0 <= x < 16,
                    0 <= y < 16,
            ;
            assert((t.last() as u32) == (u.last() as u32));
            lemma_same_code_same_char(t.last(), u.last());
        }
        assert(t.last() == u.last());
        lemma_uuid_number_injective(rt, ru);
        assert(t =~= rt.push(t.last()));
        assert(u =~= ru.push(u.last()));
    } else {
        assert(t =~= u);
    }
}

/// The number of a UUID text, or `None` when the text is not one.
fn uuid_value(t: &str) -> (res: Option<u128>)
    ensures
        res is Some <==> is_uuid_text(t@),
        res matches Some(v) ==> v as int == uuid_number(t@),
{
    let cs = chars_of(t);
    if cs.len() != 36 {
        return None;
    }
    let mut value: u128 = 0;
    let mut i: usize = 0;
    proof {
        assert(t@.take(0) =~= Seq::<char>::empty());
        reveal_with_fuel(pow16, 33);
        assert(pow16(32) == 0x1_0000_0000_0000_0000_0000_0000_0000_0000nat);
    }
    while i < 36
        invariant
            cs@ == t@,
            cs.len() == 36,
            i <= 36,
            uuid_prefix_ok(t@.take(i as int)),
            value as int == uuid_number(t@.take(i as int)),
            pow16(32) == 0x1_0000_0000_0000_0000_0000_0000_0000_0000nat,
        decreases 36 - i,
    {
        let ghost before = t@.take(i as int);
        let c = cs[i];
        let ghost after = t@.take(i + 1);
        proof {
            assert(after.drop_last() =~= before);
            assert(after.last() == c);
            lemma_uuid_number_bound(before);
        }
        if i == 8 || i == 13 || i == 18 || i == 23 {
            if c != '-' {
                proof {
                    assert(t@[i as int] == c);
                }
                return None;
            }
        } else {
            let u = c as u32;
            let d: u128 = if 0x30 <= u && u <= 0x39 {
                (u - 0x30) as u128
            } else if 0x61 <= u && u <= 0x66 {
                (u - 0x61 + 10) as u128
            } else {
                proof {
                    assert(t@[i as int] == c);
                }
                return None;
            };
            proof {
                assert(c != '-');
                assert(digit_count(before) <= 31);
                lemma_pow16_limit(digit_count(before) + 1);
                assert(pow16(digit_count(before) + 1) == 16 * pow16(digit_count(before)));
            }
            value = value * 16 + d;
        }
        proof {
            assert forall|k: int| 0 <= k < after.len() implies
                (if is_uuid_hyphen_position(k) { after[k] == '-' } else { is_hex_digit(#[trigger] after[k]) }) by {
                if k < i {
                    assert(after[k] == before[k]);
                }
            }
        }
        i = i + 1;
    }
    proof {
        assert(t@.take(36) =~= t@);
    }
    Some(value)
}

/// A name, a project or a tag: not empty, at most `MAX_TEXT_CHARS`
/// characters, and without control characters.
pub open spec fn text_ok(t: Seq<char>) -> bool {
    0 < t.len() <= MAX_TEXT_CHARS && !has_control(t)
}

/// An optional project: absent, or an acceptable text.
pub open spec fn project_ok(p: Option<String>) -> bool {
    match p {
        Some(v) => text_ok(v@),
        None => true,
    }
}

/// Tags of a record: at most `MAX_TAGS`, each an acceptable text, in strictly
/// increasing byte order (so without repeats).
pub open spec fn tags_ok(tags: Seq<Seq<char>>) -> bool {
    &&& tags.len() <= MAX_TAGS
    &&& strictly_sorted(tags)
    &&& forall|k: int| 0 <= k < tags.len() ==> text_ok(#[trigger] tags[k])
}

/// `a` is not later than `b`.
pub open spec fn not_after(a: Timestamp, b: Timestamp) -> bool {
    a.unix_secs() < b.unix_secs() || (a.unix_secs() == b.unix_secs() && a.subsec_nanos() <= b.subsec_nanos())
}

/// `t` lies at most `MAX_CLOCK_LEAD_SECS` seconds after `now`.
pub open spec fn within_lead(t: Timestamp, now: Timestamp) -> bool {
    let limit = now.unix_secs() + MAX_CLOCK_LEAD_SECS;
    t.unix_secs() < limit || (t.unix_secs() == limit && t.subsec_nanos() <= now.subsec_nanos())
}

/// The age of a record is never held against it: an instant that is not
/// after the clock, or less than ten minutes ahead of it, is accepted, and an
/// accepted instant lies at most ten minutes (600 seconds) ahead.
pub proof fn lemma_clock_lead_bounds(t: Timestamp, now: Timestamp)
    ensures
        not_after(t, now) ==> within_lead(t, now),
        t.unix_secs() < now.unix_secs() + 600 ==> within_lead(t, now),
        within_lead(t, now) ==> t.unix_secs() <= now.unix_secs() + 600,
{
}

/// A later clock never refuses what an earlier one accepted: a payload valid
/// at `now` stays valid at every later instant.
pub proof fn lemma_payload_valid_later(
    device_id: Seq<char>,
    tasks: Seq<Task>,
    entries: Seq<TimeEntry>,
    now: Timestamp,
    later: Timestamp,
)
    requires
        payload_valid(device_id, tasks, entries, now),
        not_after(now, later),
    ensures
        payload_valid(device_id, tasks, entries, later),
{
    assert forall|i: int| 0 <= i < tasks.len() implies task_ok(#[trigger] tasks[i], later) by {
        assert(task_ok(tasks[i], now));
    }
    assert forall|i: int| 0 <= i < entries.len() implies entry_ok(#[trigger] entries[i], later) by {
        assert(entry_ok(entries[i], now));
    }
}

/// A task that may be synced at `now`: UUID ids, the id derived from its
/// name, acceptable texts and tags, created no later than updated, and the
/// update not too far ahead of the clock.
pub open spec fn task_ok(t: Task, now: Timestamp) -> bool {
    &&& is_uuid_text(t.id@)
    &&& t.id@ == task_id_spec(t.name@)
    &&& text_ok(t.name@)
    &&& project_ok(t.project)
    &&& tags_ok(t.tags.deep_view())
    &&& not_after(t.created_at, t.updated_at)
    &&& within_lead(t.updated_at, now)
    &&& is_uuid_text(t.source_device@)
}

/// An entry that may be synced at `now`, apart from what it refers to: UUID
/// ids, acceptable texts and tags, started no later than stopped and
/// updated, stopped no later than updated, and its start, stop and update
/// not too far ahead of the clock.
pub open spec fn entry_ok(e: TimeEntry, now: Timestamp) -> bool {
    &&& is_uuid_text(e.id@)
    &&& is_uuid_text(e.task_id@)
    &&& text_ok(e.task_name@)
    &&& project_ok(e.project)
    &&& tags_ok(e.tags.deep_view())
    &&& not_after(e.started_at, e.updated_at)
    &&& within_lead(e.started_at, now)
    &&& within_lead(e.updated_at, now)
    &&& match e.stopped_at {
        Some(stop) => not_after(e.started_at, stop) && not_after(stop, e.updated_at) && within_lead(stop, now),
        None => true,
    }
    &&& is_uuid_text(e.source_device@)
}

/// The entry's task is among the tasks.
pub open spec fn refers_to_task(tasks: Seq<Task>, e: TimeEntry) -> bool {
    exists|k: int| 0 <= k < tasks.len() && (#[trigger] tasks[k]).id@ == e.task_id@
}

/// A sync payload that may be sent or taken at `now`: a UUID device, at most
/// `MAX_SYNC_RECORDS` tasks and entries, each acceptable, no id twice among
/// the tasks or among the entries, and every entry's task among the tasks.
pub open spec fn payload_valid(device_id: Seq<char>, tasks: Seq<Task>, entries: Seq<TimeEntry>, now: Timestamp) -> bool {
    &&& is_uuid_text(device_id)
    &&& tasks.len() <= MAX_SYNC_RECORDS
    &&& entries.len() <= MAX_SYNC_RECORDS
    &&& forall|i: int| 0 <= i < tasks.len() ==> task_ok(#[trigger] tasks[i], now)
    &&& forall|i: int, j: int| 0 <= i < j < tasks.len() ==> (#[trigger] tasks[i]).id@ != (#[trigger] tasks[j]).id@
    &&& forall|i: int| 0 <= i < entries.len() ==> entry_ok(#[trigger] entries[i], now)
    &&& forall|i: int| 0 <= i < entries.len() ==> refers_to_task(tasks, #[trigger] entries[i])
    &&& forall|i: int, j: int| 0 <= i < j < entries.len() ==> (#[trigger] entries[i]).id@ != (#[trigger] entries[j]).id@
}

fn text_acceptable(t: &str) -> (res: bool)
    ensures
        res == text_ok(t@),
{
    let n = t.unicode_len();
    0 < n && n <= MAX_TEXT_CHARS && !contains_control(t)
}

fn project_acceptable(p: &Option<String>) -> (res: bool)
    ensures
        res == project_ok(*p),
{
    match p {
        Some(v) => text_acceptable(v.as_str()),
        None => true,
    }
}

fn tags_acceptable(tags: &Vec<String>) -> (res: bool)
    ensures
        res == tags_ok(tags.deep_view()),
{
    let ghost dv = tags.deep_view();
    if tags.len() > MAX_TAGS {
        return false;
    }
    let mut k: usize = 0;
    while k < tags.len()
        invariant
            k <= tags.len(),
            tags.len() <= MAX_TAGS,
            dv == tags.deep_view(),
            forall|j: int| 0 <= j < k ==> text_ok(#[trigger] dv[j]),
            strictly_sorted(dv.take(k as int)),
        decreases tags.len() - k,
    {
        if !text_acceptable(tags[k].as_str()) {
            proof {
                assert(dv[k as int] == tags@[k as int]@);
                assert(!text_ok(dv[k as int]));
            }
            return false;
        }
        if k > 0 && !bytes_less(tags[k - 1].as_str().as_bytes(), tags[k].as_str().as_bytes()) {
            proof {
                assert(dv[k - 1] == tags@[k - 1]@ && dv[k as int] == tags@[k as int]@);
            }
            return false;
        }
        proof {
            let before = dv.take(k as int);
            let after = dv.take(k + 1);
            assert forall|a: int, b: int| 0 <= a < b < after.len() implies
                bytes_lt(encode_utf8(#[trigger] after[a]), encode_utf8(#[trigger] after[b])) by {
                if b < k {
                    assert(after[a] == before[a] && after[b] == before[b]);
                } else if a < k - 1 {
                    assert(after[a] == before[a] && after[k - 1] == before[k - 1]);
                    assert(bytes_lt(encode_utf8(before[a]), encode_utf8(before[k - 1])));
                    crate::text::lemma_bytes_lt_transitive(encode_utf8(dv[a]), encode_utf8(dv[k - 1]), encode_utf8(dv[k as int]));
                }
            }
        }
        k = k + 1;
    }
    proof {
        assert(dv.take(k as int) =~= dv);
    }
    true
}

fn is_not_after(a: Timestamp, b: Timestamp) -> (res: bool)
    ensures
        res == not_after(a, b),
{
    a.secs() < b.secs() || (a.secs() == b.secs() && a.nanos() <= b.nanos())
}

fn is_within_lead(t: Timestamp, now: Timestamp) -> (res: bool)
    ensures
        res == within_lead(t, now),
{
    let limit: i128 = now.secs() as i128 + MAX_CLOCK_LEAD_SECS as i128;
    let secs: i128 = t.secs() as i128;
    secs < limit || (secs == limit && t.nanos() <= now.nanos())
}

fn task_acceptable(t: &Task, now: Timestamp) -> (res: bool)
    ensures
        res == task_ok(*t, now),
{
    if uuid_value(t.id.as_str()).is_none() {
        return false;
    }
    let expected = task_id(t.name.as_str());
    same_text(t.id.as_str(), expected.as_str())
        && text_acceptable(t.name.as_str())
        && project_acceptable(&t.project)
        && tags_acceptable(&t.tags)
        && is_not_after(t.created_at, t.updated_at)
        && is_within_lead(t.updated_at, now)
        && uuid_value(t.source_device.as_str()).is_some()
}

fn entry_acceptable(e: &TimeEntry, now: Timestamp) -> (res: bool)
    ensures
        res == entry_ok(*e, now),
{
    let stop_ok = match e.stopped_at {
        Some(stop) => is_not_after(e.started_at, stop) && is_not_after(stop, e.updated_at)
            && is_within_lead(stop, now),
        None => true,
    };
    uuid_value(e.id.as_str()).is_some()
        && uuid_value(e.task_id.as_str()).is_some()
        && text_acceptable(e.task_name.as_str())
        && project_acceptable(&e.project)
        && tags_acceptable(&e.tags)
        && is_not_after(e.started_at, e.updated_at)
        && is_within_lead(e.started_at, now)
        && is_within_lead(e.updated_at, now)
        && stop_ok
        && uuid_value(e.source_device.as_str()).is_some()
}

/// Refuses a sync payload that breaks the rules for exchanged records
/// (`payload_valid`) at `now`, the receiving or sending clock.
pub fn validate_sync_payload(device_id: &str, tasks: &[Task], entries: &[TimeEntry], now: Timestamp) -> (res: Result<(), TrackerError>)
    ensures
        res is Ok <==> payload_valid(device_id@, tasks@, entries@, now),
        res matches Err(e) ==> e is InvalidSyncPayload,
{
    if uuid_value(device_id).is_none() || tasks.len() > MAX_SYNC_RECORDS || entries.len() > MAX_SYNC_RECORDS {
        return Err(TrackerError::InvalidSyncPayload);
    }
    let mut task_ids: HashSet<u128> = HashSet::new();
    let mut i: usize = 0;
    while i < tasks.len()
        invariant
            i <= tasks.len(),
            forall|k: int| 0 <= k < i ==> task_ok(#[trigger] tasks@[k], now),
            forall|a: int, b: int| 0 <= a < b < i ==> (#[trigger] tasks@[a]).id@ != (#[trigger] tasks@[b]).id@,
            forall|v: u128| #[trigger] task_ids@.contains(v) <==>
                exists|k: int| 0 <= k < i && uuid_number((#[trigger] tasks@[k]).id@) == v as int,
        decreases tasks.len() - i,
    {
        if !task_acceptable(&tasks[i], now) {
            return Err(TrackerError::InvalidSyncPayload);
        }
        let v = uuid_value(tasks[i].id.as_str()).unwrap();
        let ghost old_ids = task_ids@;
        if !task_ids.insert(v) {
            proof {
                let k = choose|k: int| 0 <= k < i && uuid_number((#[trigger] tasks@[k]).id@) == v as int;
                lemma_uuid_number_injective(tasks@[k].id@, tasks@[i as int].id@);
                assert(tasks@[k].id@ == tasks@[i as int].id@);
            }
            return Err(TrackerError::InvalidSyncPayload);
        }
        proof {
            assert forall|a: int, b: int| 0 <= a < b < i + 1 implies (#[trigger] tasks@[a]).id@ != (#[trigger] tasks@[b]).id@ by {
                if b == i && tasks@[a].id@ == tasks@[b].id@ {
                    assert(old_ids.contains(v));
                }
            }
            assert forall|w: u128| #[trigger] task_ids@.contains(w) <==>
                exists|k: int| 0 <= k < i + 1 && uuid_number((#[trigger] tasks@[k]).id@) == w as int by {
                if w == v {
                    assert(uuid_number(tasks@[i as int].id@) == w as int);
                }
                if exists|k: int| 0 <= k < i + 1 && uuid_number((#[trigger] tasks@[k]).id@) == w as int {
                    let k = choose|k: int| 0 <= k < i + 1 && uuid_number((#[trigger] tasks@[k]).id@) == w as int;
                    if k < i {
                        assert(old_ids.contains(w));
                    }
                }
            }
        }
        i = i + 1;
    }
    let mut entry_ids: HashSet<u128> = HashSet::new();
    let mut j: usize = 0;
    while j < entries.len()
        invariant
            j <= entries.len(),
            forall|k: int| 0 <= k < tasks.len() ==> task_ok(#[trigger] tasks@[k], now),
            forall|v: u128| #[trigger] task_ids@.contains(v) <==>
                exists|k: int| 0 <= k < tasks.len() && uuid_number((#[trigger] tasks@[k]).id@) == v as int,
            forall|k: int| 0 <= k < j ==> entry_ok(#[trigger] entries@[k], now),
            forall|k: int| 0 <= k < j ==> refers_to_task(tasks@, #[trigger] entries@[k]),
            forall|a: int, b: int| 0 <= a < b < j ==> (#[trigger] entries@[a]).id@ != (#[trigger] entries@[b]).id@,
            forall|v: u128| #[trigger] entry_ids@.contains(v) <==>
                exists|k: int| 0 <= k < j && uuid_number((#[trigger] entries@[k]).id@) == v as int,
        decreases entries.len() - j,
    {
        if !entry_acceptable(&entries[j], now) {
            return Err(TrackerError::InvalidSyncPayload);
        }
        let tv = uuid_value(entries[j].task_id.as_str()).unwrap();
        if !task_ids.contains(&tv) {
            proof {
                if refers_to_task(tasks@, entries@[j as int]) {
                    let k = choose|k: int| 0 <= k < tasks.len() && (#[trigger] tasks@[k]).id@ == entries@[j as int].task_id@;
                    assert(uuid_number(tasks@[k].id@) == tv as int);
                    assert(task_ids@.contains(tv));
                }
            }
            return Err(TrackerError::InvalidSyncPayload);
        }
        proof {
            assert(task_ids@.contains(tv));
            let k = choose|k: int| 0 <= k < tasks.len() && uuid_number((#[trigger] tasks@[k]).id@) == tv as int;
            assert(task_ok(tasks@[k], now));
            lemma_uuid_number_injective(tasks@[k].id@, entries@[j as int].task_id@);
            assert(refers_to_task(tasks@, entries@[j as int]));
        }
        let v = uuid_value(entries[j].id.as_str()).unwrap();
        let ghost old_ids = entry_ids@;
        if !entry_ids.insert(v) {
            proof {
                let k = choose|k: int| 0 <= k < j && uuid_number((#[trigger] entries@[k]).id@) == v as int;
                lemma_uuid_number_injective(entries@[k].id@, entries@[j as int].id@);
                assert(entries@[k].id@ == entries@[j as int].id@);
            }
            return Err(TrackerError::InvalidSyncPayload);
        }
        proof {
            assert forall|a: int, b: int| 0 <= a < b < j + 1 implies (#[trigger] entries@[a]).id@ != (#[trigger] entries@[b]).id@ by {
                if b == j && entries@[a].id@ == entries@[b].id@ {
                    assert(old_ids.contains(v));
                }
            }
            assert forall|w: u128| #[trigger] entry_ids@.contains(w) <==>
                exists|k: int| 0 <= k < j + 1 && uuid_number((#[trigger] entries@[k]).id@) == w as int by {
                if w == v {
                    assert(uuid_number(entries@[j as int].id@) == w as int);
                }
                if exists|k: int| 0 <= k < j + 1 && uuid_number((#[trigger] entries@[k]).id@) == w as int {
                    let k = choose|k: int| 0 <= k < j + 1 && uuid_number((#[trigger] entries@[k]).id@) == w as int;
                    if k < j {
                        assert(old_ids.contains(w));
                    }
                }
            }
        }
        j = j + 1;
    }
    Ok(())
}

} // verus!
