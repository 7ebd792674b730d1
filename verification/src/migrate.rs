//! One-shot migration of the legacy calendar-event store into the
//! per-day todo model.
//!
//! The legacy file maps date keys to lists of event texts. For each
//! entry, the events become fresh todo items placed *before* the
//! day's existing todos (keeping both orders), and the day is saved
//! back. The caller drives the file work: it reads the legacy file and
//! each day file, writes the merged contents, and finally renames the
//! legacy file to its `.backup` name; this module supplies the parsing,
//! the merge, the counting and the outcome messages. A failure on one
//! date aborts the run and days already merged are not rolled back —
//! a documented limitation of the store, not repaired here.

use vstd::prelude::*;
use vstd::string::StringExecFns;
use crate::StoreError;
use crate::chars::dec_str;
use crate::date::{is_valid_date_key, key_date};
use crate::day::{DayData, DayDataV, TodoItemV, todos_v, day_from_content, create_todo_item};
use crate::json::{Json, JsonV, jv_seq, jv_members};
use crate::stamp::{ts_valid, is_uuid_text};

verus! {

/// Views of a vector of strings and of the legacy entry list.
pub open spec fn strs_v(s: Seq<String>) -> Seq<Seq<char>> {
    Seq::new(s.len(), |i: int| s[i]@)
}

pub open spec fn entries_v(s: Seq<(String, Vec<String>)>) -> Seq<(Seq<char>, Seq<Seq<char>>)> {
    Seq::new(s.len(), |i: int| (s[i].0@, strs_v(s[i].1@)))
}

/// Reads one event list from its tree: an array of strings.
pub open spec fn events_from_tree(j: JsonV) -> Option<Seq<Seq<char>>>
    decreases j,
{
    match j {
        JsonV::Arr(elems) => events_from_elems(elems),
        _ => None,
    }
}

pub open spec fn events_from_elems(s: Seq<JsonV>) -> Option<Seq<Seq<char>>>
    decreases s.len(),
{
    if s.len() == 0 {
        Some(Seq::empty())
    } else if s[0] is Str {
        match events_from_elems(s.drop_first()) {
            Some(es) => Some(seq![s[0]->Str_0] + es),
            None => None,
        }
    } else {
        None
    }
}

/// Reads the legacy map from its tree: an object whose members map
/// date-key strings to event lists, kept in file order.
pub open spec fn legacy_from_members(ms: Seq<(Seq<char>, JsonV)>) -> Option<
    Seq<(Seq<char>, Seq<Seq<char>>)>,
>
    decreases ms.len(),
{
    if ms.len() == 0 {
        Some(Seq::empty())
    } else {
        match events_from_tree(ms[0].1) {
            None => None,
            Some(es) => match legacy_from_members(ms.drop_first()) {
                None => None,
                Some(rest) => Some(seq![(ms[0].0, es)] + rest),
            },
        }
    }
}

pub open spec fn legacy_from_tree(j: JsonV) -> Option<Seq<(Seq<char>, Seq<Seq<char>>)>> {
    match j {
        JsonV::Obj(ms) => legacy_from_members(ms),
        _ => None,
    }
}

/// What the legacy file's text means.
pub open spec fn legacy_from_content(c: Seq<char>) -> Option<Seq<(Seq<char>, Seq<Seq<char>>)>> {
    match crate::json::parse_text(c) {
        Some(t) => legacy_from_tree(t),
        None => None,
    }
}

fn decode_events(arr: &Vec<Json>, k: usize, out: &mut Vec<String>) -> (r: bool)
    requires
        k <= arr@.len(),
    ensures
        match events_from_elems(jv_seq(arr@).skip(k as int)) {
            Some(es) => r && strs_v(final(out)@) == strs_v(old(out)@) + es,
            None => !r,
        },
    decreases arr@.len() - k,
{
    proof {
        crate::json::lemma_jv_seq(arr@);
    }
    if k == arr.len() {
        proof {
            assert(jv_seq(arr@).skip(k as int) =~= Seq::<JsonV>::empty());
            assert(strs_v(out@) =~= strs_v(out@) + Seq::<Seq<char>>::empty());
        }
        return true;
    }
    proof {
        assert(jv_seq(arr@).skip(k as int)[0] == arr@[k as int].jv());
        assert(jv_seq(arr@).skip(k as int).drop_first() =~= jv_seq(arr@).skip(k + 1 as int));
    }
    match &arr[k] {
        Json::Str(v) => {
            let s = crate::chars::chars_to_string(v);
            let ghost pre = out@;
            out.push(s);
            proof {
                assert(strs_v(out@) =~= strs_v(pre) + seq![arr@[k as int].jv()->Str_0]);
            }
            let ok = decode_events(arr, k + 1, out);
            if ok {
                proof {
                    match events_from_elems(jv_seq(arr@).skip(k + 1 as int)) {
                        Some(rest) => {
                            assert(strs_v(out@) =~= strs_v(pre) + (seq![
                                arr@[k as int].jv()->Str_0,
                            ] + rest));
                        },
                        None => {
                            assert(false);
                        },
                    }
                }
            }
            ok
        },
        _ => false,
    }
}

fn decode_legacy_members(
    ms: &Vec<(Vec<char>, Json)>,
    k: usize,
    out: &mut Vec<(String, Vec<String>)>,
) -> (r: bool)
    requires
        k <= ms@.len(),
    ensures
        match legacy_from_members(jv_members(ms@).skip(k as int)) {
            Some(es) => r && entries_v(final(out)@) == entries_v(old(out)@) + es,
            None => !r,
        },
    decreases ms@.len() - k,
{
    proof {
        crate::json::lemma_jv_members(ms@);
    }
    if k == ms.len() {
        proof {
            assert(jv_members(ms@).skip(k as int) =~= Seq::<(Seq<char>, JsonV)>::empty());
            assert(entries_v(out@) =~= entries_v(out@) + Seq::<(Seq<char>, Seq<Seq<char>>)>::empty());
        }
        return true;
    }
    proof {
        assert(jv_members(ms@)[k as int] == (ms@[k as int].0@, ms@[k as int].1.jv()));
        assert(jv_members(ms@).skip(k as int)[0] == jv_members(ms@)[k as int]);
        assert(jv_members(ms@).skip(k as int).drop_first() =~= jv_members(ms@).skip(k + 1 as int));
    }
    let arr = match &ms[k].1 {
        Json::Arr(arr) => arr,
        _ => {
            return false;
        },
    };
    let mut evs: Vec<String> = Vec::new();
    if !decode_events(arr, 0, &mut evs) {
        proof {
            assert(jv_seq(arr@).skip(0) =~= jv_seq(arr@));
        }
        return false;
    }
    proof {
        assert(jv_seq(arr@).skip(0) =~= jv_seq(arr@));
    }
    let key = crate::chars::chars_to_string(&ms[k].0);
    let ghost pre = out@;
    let ghost evs_snap = evs@;
    out.push((key, evs));
    proof {
        match events_from_elems(jv_seq(arr@)) {
            Some(es) => {
                assert(strs_v(evs_snap) =~= Seq::<Seq<char>>::empty() + es);
                assert(entries_v(out@) =~= entries_v(pre) + seq![(ms@[k as int].0@, es)]);
            },
            None => {
                assert(false);
            },
        }
    }
    let ok = decode_legacy_members(ms, k + 1, out);
    if ok {
        proof {
            match legacy_from_members(jv_members(ms@).skip(k + 1 as int)) {
                Some(rest) => {
                    match events_from_elems(jv_seq(arr@)) {
                        Some(es) => {
                            assert(entries_v(out@) =~= entries_v(pre) + (seq![
                                (ms@[k as int].0@, es),
                            ] + rest));
                        },
                        None => {
                            assert(false);
                        },
                    }
                },
                None => {
                    assert(false);
                },
            }
        }
    }
    ok
}

/// Parses the legacy calendar-event file: a JSON object mapping date
/// keys to arrays of event texts. Entries come back in file order.
pub fn parse_legacy_events(content: &str) -> (r: Result<Vec<(String, Vec<String>)>, StoreError>)
    ensures
        match r {
            Ok(m) => legacy_from_content(content@) == Some(entries_v(m@)),
            Err(e) => {
                &&& legacy_from_content(content@) is None
                &&& e matches StoreError::CorruptData(m) && m@ == "Failed to parse calendar events"@
            },
        },
{
    let tree = match crate::json::from_text(content) {
        Some(t) => t,
        None => {
            return Err(StoreError::CorruptData("Failed to parse calendar events".to_owned()));
        },
    };
    let ms = match &tree {
        Json::Obj(ms) => ms,
        _ => {
            return Err(StoreError::CorruptData("Failed to parse calendar events".to_owned()));
        },
    };
    let mut out: Vec<(String, Vec<String>)> = Vec::new();
    if !decode_legacy_members(ms, 0, &mut out) {
        proof {
            assert(jv_members(ms@).skip(0) =~= jv_members(ms@));
        }
        return Err(StoreError::CorruptData("Failed to parse calendar events".to_owned()));
    }
    proof {
        assert(jv_members(ms@).skip(0) =~= jv_members(ms@));
        match legacy_from_members(jv_members(ms@)) {
            Some(es) => {
                assert(entries_v(out@) =~= Seq::<(Seq<char>, Seq<Seq<char>>)>::empty() + es);
            },
            None => {
                assert(false);
            },
        }
    }
    Ok(out)
}

/// A freshly migrated todo: the event text, nothing completed, nothing
/// carried over, empty notes, a well-formed id and timestamp.
pub open spec fn fresh_event_todo(t: TodoItemV, text: Seq<char>) -> bool {
    &&& t.text == text
    &&& !t.completed
    &&& !t.move_to_next_day
    &&& t.notes == Seq::<char>::empty()
    &&& is_uuid_text(t.id)
    &&& ts_valid(t.created_at)
}

/// Merges one legacy entry into the day it belongs to.
///
/// `existing` is the content of the day's backing file, or `None` when
/// the day has no record yet. The merged record keeps the day's date
/// and notes; its todo list is the event list (in order, as fresh
/// items) followed by the existing todos (in order, untouched).
pub fn merge_events_into_day(date_key: &str, existing: Option<&str>, events: &Vec<String>) -> (r:
    Result<DayData, StoreError>)
    ensures
        match r {
            Ok(day) => {
                &&& is_valid_date_key(date_key@)
                &&& match existing {
                    Some(c) => day_from_content(c@) is Some,
                    None => true,
                }
                &&& {
                    let base = match existing {
                        Some(c) => day_from_content(c@)->0,
                        None => DayDataV::empty(key_date(date_key@)),
                    };
                    &&& day.v().date == base.date
                    &&& day.v().notes == base.notes
                    &&& day.v().todos.len() == events@.len() + base.todos.len()
                    &&& day.v().todos.skip(events@.len() as int) == base.todos
                    &&& forall|i: int|
                        0 <= i < events@.len() ==> fresh_event_todo(
                            #[trigger] day.v().todos[i],
                            events@[i]@,
                        )
                }
                &&& day.v().wf()
            },
            Err(e) => match e {
                StoreError::InvalidInput(m) => !is_valid_date_key(date_key@) && m@
                    == "Invalid date format in calendar events: "@ + date_key@,
                StoreError::CorruptData(m) => {
                    &&& is_valid_date_key(date_key@)
                    &&& existing is Some
                    &&& day_from_content((existing->0)@) is None
                    &&& m@ == (if crate::json::parse_text((existing->0)@) is None {
                        "Failed to parse JSON"@
                    } else {
                        "Failed to parse day data"@
                    })
                },
                StoreError::IoError(_) => false,
            },
        },
{
    let base = match crate::day::load_day_data(date_key, existing) {
        Ok(day) => day,
        Err(e) => {
            match e {
                StoreError::InvalidInput(_) => {
                    let mut m: String = "Invalid date format in calendar events: ".to_owned();
                    m.append(date_key);
                    return Err(StoreError::InvalidInput(m));
                },
                StoreError::CorruptData(m) => {
                    return Err(StoreError::CorruptData(m));
                },
                StoreError::IoError(_) => {
                    proof {
                        assert(false);
                    }
                    return Err(e);
                },
            }
        },
    };
    let ghost base_v = base.v();
    let mut todos: Vec<crate::day::TodoItem> = Vec::new();
    let mut k: usize = 0;
    while k < events.len()
        invariant
            k <= events@.len(),
            todos@.len() == k,
            forall|i: int|
                0 <= i < k ==> fresh_event_todo(#[trigger] todos@[i].v(), events@[i]@),
        decreases events@.len() - k,
    {
        let text = clone_string(&events[k]);
        let t = create_todo_item(text);
        todos.push(t);
        k = k + 1;
    }
    let DayData { date, todos: mut base_todos, notes } = base;
    let ghost base_snap = base_todos@;
    let ghost fresh_part = todos@;
    todos.append(&mut base_todos);
    let day = DayData { date, todos, notes };
    proof {
        assert(day.v().todos =~= todos_v(fresh_part) + todos_v(base_snap));
        assert(todos_v(base_snap) =~= base_v.todos);
        assert(day.v().todos.skip(events@.len() as int) =~= base_v.todos);
        assert(forall|i: int|
            0 <= i < events@.len() ==> #[trigger] day.v().todos[i] == fresh_part[i].v());
    }
    Ok(day)
}

fn clone_string(s: &String) -> (r: String)
    ensures
        r@ == s@,
{
    let r: String = s.as_str().to_owned();
    r
}

// ------------------------------------------------------------------
// Outcome messages
// ------------------------------------------------------------------
/// Message when the legacy file does not exist.
pub fn migration_not_needed() -> (r: String)
    ensures
        r@ == "No calendar events file found - migration not needed"@,
{
    "No calendar events file found - migration not needed".to_owned()
}

/// Message when the legacy file was an empty map.
pub fn migration_empty() -> (r: String)
    ensures
        r@ == "Calendar events file was empty - backed up and removed"@,
{
    "Calendar events file was empty - backed up and removed".to_owned()
}

/// The summary of a successful migration run.
pub open spec fn migration_summary(count: nat, days: nat) -> Seq<char> {
    "Successfully migrated "@ + dec_str(count) + " calendar events from "@ + dec_str(days)
        + " days to todos. Backup saved as calendar_events.json.backup"@
}

/// Renders the summary of a successful migration run.
pub fn migration_summary_message(count: usize, days: usize) -> (r: String)
    ensures
        r@ == migration_summary(count as nat, days as nat),
{
    let mut s: String = "Successfully migrated ".to_owned();
    let c = crate::chars::dec_string(count);
    s.append(c.as_str());
    s.append(" calendar events from ");
    let d = crate::chars::dec_string(days);
    s.append(d.as_str());
    s.append(" days to todos. Backup saved as calendar_events.json.backup");
    s
}

/// Sum of the event-list lengths over all entries, saturating at the
/// machine limit.
pub open spec fn total_events(es: Seq<(Seq<char>, Seq<Seq<char>>)>) -> int
    decreases es.len(),
{
    if es.len() == 0 {
        0
    } else {
        es[0].1.len() + total_events(es.drop_first())
    }
}

/// Counts the events of a parsed legacy map.
pub fn count_events(entries: &Vec<(String, Vec<String>)>) -> (r: usize)
    ensures
        r == total_events(entries_v(entries@)) || (r == usize::MAX && total_events(
            entries_v(entries@),
        ) > usize::MAX),
{
    let ghost full = entries_v(entries@);
    proof {
        assert(full.skip(0) =~= full);
    }
    let mut acc: usize = 0;
    let mut i: usize = 0;
    let mut saturated = false;
    while i < entries.len()
        invariant
            i <= entries@.len(),
            full == entries_v(entries@),
            !saturated ==> acc + total_events(full.skip(i as int)) == total_events(full),
            saturated ==> acc == usize::MAX && total_events(full) > usize::MAX,
            saturated ==> total_events(full.skip(i as int)) >= 0,
        decreases entries@.len() - i,
    {
        proof {
            assert(full[i as int] == (entries@[i as int].0@, strs_v(entries@[i as int].1@)));
            assert(full.skip(i as int)[0] == full[i as int]);
            assert(full.skip(i as int).drop_first() =~= full.skip(i + 1 as int));
            lemma_total_events_nonneg(full.skip(i + 1 as int));
        }
        let n = entries[i].1.len();
        if !saturated && n <= usize::MAX - acc {
            acc = acc + n;
        } else if !saturated {
            acc = usize::MAX;
            saturated = true;
        }
        i = i + 1;
    }
    proof {
        assert(full.skip(entries@.len() as int) =~= Seq::<(Seq<char>, Seq<Seq<char>>)>::empty());
    }
    acc
}

proof fn lemma_total_events_nonneg(es: Seq<(Seq<char>, Seq<Seq<char>>)>)
    ensures
        total_events(es) >= 0,
    decreases es.len(),
{
    if es.len() > 0 {
        lemma_total_events_nonneg(es.drop_first());
    }
}

} // verus!
