//! The day document store: one `DayData` record per calendar date,
//! kept as JSON text.
//!
//! `save_day_data` renders a record into its canonical file content;
//! `load_day_data` turns a date key and the content of the backing
//! file (or its absence) back into a record. Both directions are
//! specified against the same mathematical tree, and
//! `crate::laws` proves that they invert each other.

use vstd::prelude::*;
use crate::date::{Date, is_valid_date_key, key_date};
use crate::json::{Json, JsonV, ser_value, parse_text, count_key, obj_get, obj_count, obj_find};
use crate::stamp::{ts_valid, is_uuid_text};
use crate::StoreError;

verus! {

/// A single todo item. The creation timestamp is kept in its textual
/// RFC 3339 form; the store validates it but never computes with it.
#[derive(Debug)]
pub struct TodoItem {
    pub id: String,
    pub text: String,
    pub completed: bool,
    pub created_at: String,
    pub move_to_next_day: bool,
    pub notes: String,
}

/// Mathematical view of a todo item.
pub struct TodoItemV {
    pub id: Seq<char>,
    pub text: Seq<char>,
    pub completed: bool,
    pub created_at: Seq<char>,
    pub move_to_next_day: bool,
    pub notes: Seq<char>,
}

impl TodoItem {
    pub open spec fn v(self) -> TodoItemV {
        TodoItemV {
            id: self.id@,
            text: self.text@,
            completed: self.completed,
            created_at: self.created_at@,
            move_to_next_day: self.move_to_next_day,
            notes: self.notes@,
        }
    }
}

impl TodoItemV {
    /// What the store guarantees of every item it hands out or
    /// accepts from a file: the creation timestamp is well-formed.
    pub open spec fn wf(self) -> bool {
        ts_valid(self.created_at)
    }
}

/// All data of one calendar day.
#[derive(Debug)]
pub struct DayData {
    pub date: Date,
    pub todos: Vec<TodoItem>,
    pub notes: String,
}

/// Mathematical view of a day record.
pub struct DayDataV {
    pub date: Date,
    pub todos: Seq<TodoItemV>,
    pub notes: Seq<char>,
}

pub open spec fn todos_v(s: Seq<TodoItem>) -> Seq<TodoItemV> {
    Seq::new(s.len(), |i: int| s[i].v())
}

impl DayData {
    pub open spec fn v(self) -> DayDataV {
        DayDataV { date: self.date, todos: todos_v(self.todos@), notes: self.notes@ }
    }
}

impl DayDataV {
    /// A well-formed record: real date, well-formed items.
    pub open spec fn wf(self) -> bool {
        &&& self.date.wf()
        &&& forall|i: int| 0 <= i < self.todos.len() ==> (#[trigger] self.todos[i]).wf()
    }

    /// The fresh record handed out for a date with no backing file.
    pub open spec fn empty(date: Date) -> DayDataV {
        DayDataV { date, todos: Seq::empty(), notes: Seq::empty() }
    }
}

// ------------------------------------------------------------------
// The JSON shape of a day record
// ------------------------------------------------------------------
pub open spec fn k_date() -> Seq<char> {
    seq!['d', 'a', 't', 'e']
}

pub open spec fn k_todos() -> Seq<char> {
    seq!['t', 'o', 'd', 'o', 's']
}

pub open spec fn k_notes() -> Seq<char> {
    seq!['n', 'o', 't', 'e', 's']
}

pub open spec fn k_id() -> Seq<char> {
    seq!['i', 'd']
}

pub open spec fn k_text() -> Seq<char> {
    seq!['t', 'e', 'x', 't']
}

pub open spec fn k_completed() -> Seq<char> {
    seq!['c', 'o', 'm', 'p', 'l', 'e', 't', 'e', 'd']
}

pub open spec fn k_created_at() -> Seq<char> {
    seq!['c', 'r', 'e', 'a', 't', 'e', 'd', '_', 'a', 't']
}

pub open spec fn k_move() -> Seq<char> {
    seq!['m', 'o', 'v', 'e', '_', 't', 'o', '_', 'n', 'e', 'x', 't', '_', 'd', 'a', 'y']
}

/// The canonical tree of one todo item.
pub open spec fn todo_tree(t: TodoItemV) -> JsonV {
    JsonV::Obj(
        seq![
            (k_id(), JsonV::Str(t.id)),
            (k_text(), JsonV::Str(t.text)),
            (k_completed(), JsonV::Bool(t.completed)),
            (k_created_at(), JsonV::Str(t.created_at)),
            (k_move(), JsonV::Bool(t.move_to_next_day)),
            (k_notes(), JsonV::Str(t.notes)),
        ],
    )
}

pub open spec fn todo_trees(s: Seq<TodoItemV>) -> Seq<JsonV> {
    Seq::new(s.len(), |i: int| todo_tree(s[i]))
}

/// The canonical tree of a whole day record.
pub open spec fn day_tree(d: DayDataV) -> JsonV {
    JsonV::Obj(
        seq![
            (k_date(), JsonV::Str(d.date.key())),
            (k_todos(), JsonV::Arr(todo_trees(d.todos))),
            (k_notes(), JsonV::Str(d.notes)),
        ],
    )
}

/// The canonical file content of a day record.
pub open spec fn day_content(d: DayDataV) -> Seq<char> {
    ser_value(day_tree(d))
}

// ------------------------------------------------------------------
// Encoding
// ------------------------------------------------------------------
fn str_node(s: &str) -> (r: Json)
    ensures
        r.jv() == JsonV::Str(s@),
{
    let v = crate::chars::str_to_chars(s);
    Json::Str(v)
}

fn key_date_exec() -> (r: Vec<char>)
    ensures
        r@ == k_date(),
{
    let mut v: Vec<char> = Vec::new();
    v.push('d');
    v.push('a');
    v.push('t');
    v.push('e');
    proof {
        assert(v@ =~= k_date());
    }
    v
}

fn key_todos_exec() -> (r: Vec<char>)
    ensures
        r@ == k_todos(),
{
    let mut v: Vec<char> = Vec::new();
    v.push('t');
    v.push('o');
    v.push('d');
    v.push('o');
    v.push('s');
    proof {
        assert(v@ =~= k_todos());
    }
    v
}

fn key_notes_exec() -> (r: Vec<char>)
    ensures
        r@ == k_notes(),
{
    let mut v: Vec<char> = Vec::new();
    v.push('n');
    v.push('o');
    v.push('t');
    v.push('e');
    v.push('s');
    proof {
        assert(v@ =~= k_notes());
    }
    v
}

fn key_id_exec() -> (r: Vec<char>)
    ensures
        r@ == k_id(),
{
    let mut v: Vec<char> = Vec::new();
    v.push('i');
    v.push('d');
    proof {
        assert(v@ =~= k_id());
    }
    v
}

fn key_text_exec() -> (r: Vec<char>)
    ensures
        r@ == k_text(),
{
    let mut v: Vec<char> = Vec::new();
    v.push('t');
    v.push('e');
    v.push('x');
    v.push('t');
    proof {
        assert(v@ =~= k_text());
    }
    v
}

fn key_completed_exec() -> (r: Vec<char>)
    ensures
        r@ == k_completed(),
{
    let mut v: Vec<char> = Vec::new();
    v.push('c');
    v.push('o');
    v.push('m');
    v.push('p');
    v.push('l');
    v.push('e');
    v.push('t');
    v.push('e');
    v.push('d');
    proof {
        assert(v@ =~= k_completed());
    }
    v
}

fn key_created_at_exec() -> (r: Vec<char>)
    ensures
        r@ == k_created_at(),
{
    let mut v: Vec<char> = Vec::new();
    v.push('c');
    v.push('r');
    v.push('e');
    v.push('a');
    v.push('t');
    v.push('e');
    v.push('d');
    v.push('_');
    v.push('a');
    v.push('t');
    proof {
        assert(v@ =~= k_created_at());
    }
    v
}

fn key_move_exec() -> (r: Vec<char>)
    ensures
        r@ == k_move(),
{
    let mut v: Vec<char> = Vec::new();
    v.push('m');
    v.push('o');
    v.push('v');
    v.push('e');
    v.push('_');
    v.push('t');
    v.push('o');
    v.push('_');
    v.push('n');
    v.push('e');
    v.push('x');
    v.push('t');
    v.push('_');
    v.push('d');
    v.push('a');
    v.push('y');
    proof {
        assert(v@ =~= k_move());
    }
    v
}

/// Builds the canonical tree of one item.
fn build_todo_tree(t: &TodoItem) -> (r: Json)
    ensures
        r.jv() == todo_tree(t.v()),
{
    let mut ms: Vec<(Vec<char>, Json)> = Vec::new();
    ms.push((key_id_exec(), str_node(self_str(&t.id))));
    ms.push((key_text_exec(), str_node(self_str(&t.text))));
    ms.push((key_completed_exec(), Json::Bool(t.completed)));
    ms.push((key_created_at_exec(), str_node(self_str(&t.created_at))));
    ms.push((key_move_exec(), Json::Bool(t.move_to_next_day)));
    ms.push((key_notes_exec(), str_node(self_str(&t.notes))));
    proof {
        crate::json::lemma_jv_members(ms@);
        assert(crate::json::jv_members(ms@) =~= (todo_tree(t.v()))->0);
    }
    Json::Obj(ms)
}

fn self_str(s: &String) -> (r: &str)
    ensures
        r@ == s@,
{
    s.as_str()
}

/// Builds the canonical tree of a whole record.
fn build_day_tree(d: &DayData) -> (r: Json)
    requires
        d.v().date.wf(),
    ensures
        r.jv() == day_tree(d.v()),
{
    let date_chars = d.date.key_chars();
    let mut arr: Vec<Json> = Vec::new();
    let mut k: usize = 0;
    while k < d.todos.len()
        invariant
            k <= d.todos@.len(),
            crate::json::jv_seq(arr@) == todo_trees(todos_v(d.todos@)).take(k as int),
        decreases d.todos@.len() - k,
    {
        let t = build_todo_tree(&d.todos[k]);
        let ghost pre = arr@;
        arr.push(t);
        proof {
            assert(arr@.drop_last() =~= pre);
            assert(arr@.last() == t);
            assert(crate::json::jv_seq(arr@) == crate::json::jv_seq(pre).push(t.jv()));
            assert(todos_v(d.todos@)[k as int] == d.todos@[k as int].v());
            assert(crate::json::jv_seq(arr@) =~= todo_trees(todos_v(d.todos@)).take(k + 1 as int));
        }
        k = k + 1;
    }
    proof {
        assert(todo_trees(todos_v(d.todos@)).take(d.todos@.len() as int) =~= todo_trees(
            todos_v(d.todos@),
        ));
    }
    let mut ms: Vec<(Vec<char>, Json)> = Vec::new();
    ms.push((key_date_exec(), Json::Str(date_chars)));
    ms.push((key_todos_exec(), Json::Arr(arr)));
    ms.push((key_notes_exec(), str_node(self_str(&d.notes))));
    proof {
        crate::json::lemma_jv_members(ms@);
        assert(crate::json::jv_members(ms@) =~= (day_tree(d.v()))->0);
    }
    Json::Obj(ms)
}

/// Renders a day record as the content of its backing file: the
/// canonical JSON text of its tree. The caller writes the returned
/// text to `<dataDir>/<YYYY-MM-DD>.json` as one whole file.
pub fn save_day_data(day: &DayData) -> (r: String)
    requires
        day.v().date.wf(),
    ensures
        r@ == day_content(day.v()),
{
    let tree = build_day_tree(day);
    crate::json::to_text(&tree)
}

/// The file name a date's record is stored under.
pub fn day_file_name(date: &Date) -> (r: String)
    requires
        date.wf(),
    ensures
        r@ == date.key() + json_ext(),
{
    let mut v = date.key_chars();
    v.push('.');
    v.push('j');
    v.push('s');
    v.push('o');
    v.push('n');
    proof {
        assert(v@ =~= date.key() + json_ext());
    }
    crate::chars::chars_to_string(&v)
}

pub open spec fn json_ext() -> Seq<char> {
    seq!['.', 'j', 's', 'o', 'n']
}

/// Creates a new todo item: fresh unique id, current local time,
/// nothing completed, nothing carried over, empty notes.
pub fn create_todo_item(text: String) -> (t: TodoItem)
    ensures
        t.v().text == text@,
        t.v().completed == false,
        t.v().move_to_next_day == false,
        t.v().notes == Seq::<char>::empty(),
        is_uuid_text(t.v().id),
        t.v().wf(),
{
    TodoItem {
        id: crate::stamp::new_uuid_string(),
        text,
        completed: false,
        created_at: crate::stamp::now_rfc3339(),
        move_to_next_day: false,
        notes: String::new(),
    }
}

// ------------------------------------------------------------------
// Decoding
// ------------------------------------------------------------------
/// Reads one todo item back from its tree: a JSON object with the five
/// required fields of the right types, a well-formed timestamp, and an
/// optional `notes` field that defaults to the empty string (records
/// written before the field existed must still load).
pub open spec fn todo_from_tree(j: JsonV) -> Option<TodoItemV> {
    if !(j is Obj) {
        None
    } else {
        let ms = j->Obj_0;
        if count_key(ms, k_id()) == 1 && count_key(ms, k_text()) == 1 && count_key(
            ms,
            k_completed(),
        ) == 1 && count_key(ms, k_created_at()) == 1 && count_key(ms, k_move()) == 1 && count_key(
            ms,
            k_notes(),
        ) <= 1 {
            let idv = obj_get(ms, k_id())->0;
            let textv = obj_get(ms, k_text())->0;
            let compv = obj_get(ms, k_completed())->0;
            let catv = obj_get(ms, k_created_at())->0;
            let movev = obj_get(ms, k_move())->0;
            if idv is Str && textv is Str && compv is Bool && catv is Str && ts_valid(catv->Str_0)
                && movev is Bool && (count_key(ms, k_notes()) == 0 || obj_get(ms, k_notes())->0
                is Str) {
                Some(
                    TodoItemV {
                        id: idv->Str_0,
                        text: textv->Str_0,
                        completed: compv->Bool_0,
                        created_at: catv->Str_0,
                        move_to_next_day: movev->Bool_0,
                        notes: if count_key(ms, k_notes()) == 0 {
                            Seq::empty()
                        } else {
                            obj_get(ms, k_notes())->0->Str_0
                        },
                    },
                )
            } else {
                None
            }
        } else {
            None
        }
    }
}

pub open spec fn todos_from_trees(s: Seq<JsonV>) -> Option<Seq<TodoItemV>>
    decreases s.len(),
{
    if s.len() == 0 {
        Some(Seq::empty())
    } else {
        match todo_from_tree(s[0]) {
            None => None,
            Some(t) => match todos_from_trees(s.drop_first()) {
                None => None,
                Some(ts) => Some(seq![t] + ts),
            },
        }
    }
}

/// Reads a whole day record back from its tree: `date` (a strict date
/// key), `todos` (an array of items) and `notes` (a string) must all
/// be present exactly once; unknown members are ignored.
pub open spec fn day_from_tree(j: JsonV) -> Option<DayDataV> {
    if !(j is Obj) {
        None
    } else {
        let ms = j->Obj_0;
        if count_key(ms, k_date()) == 1 && count_key(ms, k_todos()) == 1 && count_key(
            ms,
            k_notes(),
        ) == 1 {
            let dv = obj_get(ms, k_date())->0;
            let tv = obj_get(ms, k_todos())->0;
            let nv = obj_get(ms, k_notes())->0;
            if dv is Str && is_valid_date_key(dv->Str_0) && tv is Arr && nv is Str {
                match todos_from_trees(tv->Arr_0) {
                    None => None,
                    Some(ts) => Some(
                        DayDataV { date: key_date(dv->Str_0), todos: ts, notes: nv->Str_0 },
                    ),
                }
            } else {
                None
            }
        } else {
            None
        }
    }
}

/// What a backing file's text means: parse the JSON document, then
/// read the record from its tree.
pub open spec fn day_from_content(c: Seq<char>) -> Option<DayDataV> {
    match parse_text(c) {
        Some(t) => day_from_tree(t),
        None => None,
    }
}

fn decode_str_field(j: &Json) -> (r: Option<String>)
    ensures
        match r {
            Some(s) => j.jv() is Str && s@ == j.jv()->Str_0,
            None => !(j.jv() is Str),
        },
{
    match j {
        Json::Str(v) => Some(crate::chars::chars_to_string(v)),
        _ => None,
    }
}

/// Reads one todo item from an executable tree.
#[verifier::rlimit(60)]
fn decode_todo(j: &Json) -> (r: Option<TodoItem>)
    ensures
        match r {
            Some(t) => todo_from_tree(j.jv()) == Some(t.v()) && t.v().wf(),
            None => todo_from_tree(j.jv()) is None,
        },
{
    let ms = match j {
        Json::Obj(ms) => ms,
        _ => {
            return None;
        },
    };
    let ghost msv = crate::json::jv_members(ms@);
    let kid = key_id_exec();
    let ktext = key_text_exec();
    let kcomp = key_completed_exec();
    let kcat = key_created_at_exec();
    let kmove = key_move_exec();
    let knotes = key_notes_exec();
    if obj_count(ms, &kid) != 1 || obj_count(ms, &ktext) != 1 || obj_count(ms, &kcomp) != 1
        || obj_count(ms, &kcat) != 1 || obj_count(ms, &kmove) != 1 {
        return None;
    }
    let ncount = obj_count(ms, &knotes);
    if ncount > 1 {
        return None;
    }
    proof {
        crate::json::lemma_count_get(msv, k_id());
        crate::json::lemma_count_get(msv, k_text());
        crate::json::lemma_count_get(msv, k_completed());
        crate::json::lemma_count_get(msv, k_created_at());
        crate::json::lemma_count_get(msv, k_move());
        crate::json::lemma_count_get(msv, k_notes());
    }
    let id = match obj_find(ms, &kid) {
        Some(i) => match decode_str_field(&ms[i].1) {
            Some(s) => s,
            None => {
                return None;
            },
        },
        None => {
            proof {
                assert(false);
            }
            return None;
        },
    };
    let text = match obj_find(ms, &ktext) {
        Some(i) => match decode_str_field(&ms[i].1) {
            Some(s) => s,
            None => {
                return None;
            },
        },
        None => {
            proof {
                assert(false);
            }
            return None;
        },
    };
    let completed = match obj_find(ms, &kcomp) {
        Some(i) => match &ms[i].1 {
            Json::Bool(b) => *b,
            _ => {
                return None;
            },
        },
        None => {
            proof {
                assert(false);
            }
            return None;
        },
    };
    let created_at = match obj_find(ms, &kcat) {
        Some(i) => match &ms[i].1 {
            Json::Str(v) => {
                if !crate::stamp::ts_valid_exec(v) {
                    return None;
                }
                crate::chars::chars_to_string(v)
            },
            _ => {
                return None;
            },
        },
        None => {
            proof {
                assert(false);
            }
            return None;
        },
    };
    let move_to_next_day = match obj_find(ms, &kmove) {
        Some(i) => match &ms[i].1 {
            Json::Bool(b) => *b,
            _ => {
                return None;
            },
        },
        None => {
            proof {
                assert(false);
            }
            return None;
        },
    };
    let notes = if ncount == 0 {
        String::new()
    } else {
        match obj_find(ms, &knotes) {
            Some(i) => match decode_str_field(&ms[i].1) {
                Some(s) => s,
                None => {
                    return None;
                },
            },
            None => {
                proof {
                    assert(false);
                }
                return None;
            },
        }
    };
    Some(TodoItem { id, text, completed, created_at, move_to_next_day, notes })
}

/// Reads the items of the `todos` array from position `k` on, pushing
/// them onto `out`.
fn decode_todos(arr: &Vec<Json>, k: usize, out: &mut Vec<TodoItem>) -> (r: bool)
    requires
        k <= arr@.len(),
    ensures
        match todos_from_trees(crate::json::jv_seq(arr@).skip(k as int)) {
            Some(ts) => r && todos_v(final(out)@) == todos_v(old(out)@) + ts && (forall|i: int|
                0 <= i < ts.len() ==> (#[trigger] ts[i]).wf()),
            None => !r,
        },
    decreases arr@.len() - k,
{
    proof {
        crate::json::lemma_jv_seq(arr@);
    }
    if k == arr.len() {
        proof {
            assert(crate::json::jv_seq(arr@).skip(k as int) =~= Seq::<JsonV>::empty());
            assert(todos_v(out@) =~= todos_v(out@) + Seq::<TodoItemV>::empty());
        }
        return true;
    }
    proof {
        assert(crate::json::jv_seq(arr@).skip(k as int)[0] == arr@[k as int].jv());
        assert(crate::json::jv_seq(arr@).skip(k as int).drop_first() =~= crate::json::jv_seq(
            arr@,
        ).skip(k + 1 as int));
    }
    match decode_todo(&arr[k]) {
        None => false,
        Some(t) => {
            let ghost pre = out@;
            out.push(t);
            proof {
                assert(todos_v(out@) =~= todos_v(pre) + seq![t.v()]);
            }
            let ok = decode_todos(arr, k + 1, out);
            if ok {
                proof {
                    match todos_from_trees(crate::json::jv_seq(arr@).skip(k + 1 as int)) {
                        Some(rest) => {
                            assert(todos_v(out@) =~= todos_v(pre) + (seq![t.v()] + rest));
                        },
                        None => {
                            assert(false);
                        },
                    }
                }
            }
            ok
        },
    }
}

/// Reads a whole day record from an executable tree.
fn decode_day_tree(j: &Json) -> (r: Option<DayData>)
    ensures
        match r {
            Some(d) => day_from_tree(j.jv()) == Some(d.v()) && d.v().wf(),
            None => day_from_tree(j.jv()) is None,
        },
{
    let ms = match j {
        Json::Obj(ms) => ms,
        _ => {
            return None;
        },
    };
    let ghost msv = crate::json::jv_members(ms@);
    let kdate = key_date_exec();
    let ktodos = key_todos_exec();
    let knotes = key_notes_exec();
    if obj_count(ms, &kdate) != 1 || obj_count(ms, &ktodos) != 1 || obj_count(ms, &knotes) != 1 {
        return None;
    }
    proof {
        crate::json::lemma_count_get(msv, k_date());
        crate::json::lemma_count_get(msv, k_todos());
        crate::json::lemma_count_get(msv, k_notes());
    }
    let date = match obj_find(ms, &kdate) {
        Some(i) => match &ms[i].1 {
            Json::Str(v) => match crate::date::parse_date_chars(v) {
                Some(d) => d,
                None => {
                    return None;
                },
            },
            _ => {
                return None;
            },
        },
        None => {
            proof {
                assert(false);
            }
            return None;
        },
    };
    let todos = match obj_find(ms, &ktodos) {
        Some(i) => match &ms[i].1 {
            Json::Arr(arr) => {
                let mut out: Vec<TodoItem> = Vec::new();
                if !decode_todos(arr, 0, &mut out) {
                    proof {
                        assert(crate::json::jv_seq(arr@).skip(0) =~= crate::json::jv_seq(arr@));
                    }
                    return None;
                }
                proof {
                    assert(crate::json::jv_seq(arr@).skip(0) =~= crate::json::jv_seq(arr@));
                    match todos_from_trees(crate::json::jv_seq(arr@)) {
                        Some(ts) => {
                            assert(todos_v(out@) =~= Seq::<TodoItemV>::empty() + ts);
                            assert(todos_v(out@) =~= ts);
                        },
                        None => {
                            assert(false);
                        },
                    }
                }
                out
            },
            _ => {
                return None;
            },
        },
        None => {
            proof {
                assert(false);
            }
            return None;
        },
    };
    let notes = match obj_find(ms, &knotes) {
        Some(i) => match decode_str_field(&ms[i].1) {
            Some(s) => s,
            None => {
                return None;
            },
        },
        None => {
            proof {
                assert(false);
            }
            return None;
        },
    };
    Some(DayData { date, todos, notes })
}

/// Loads the day record for `date` from the content of its backing
/// file.
///
/// `content` is what the caller read from `<dataDir>/<date>.json`, or
/// `None` when that file does not exist. A missing file is the normal
/// "new day" outcome: the empty record for that date, and nothing is
/// written. A malformed date key is `InvalidInput`; a file that does
/// not hold a well-formed day record is `CorruptData`, with one
/// message for text that is not JSON and another for JSON that is not
/// a day record.
pub fn load_day_data(date: &str, content: Option<&str>) -> (r: Result<DayData, StoreError>)
    ensures
        match r {
            Ok(d) => {
                &&& is_valid_date_key(date@)
                &&& d.v().wf()
                &&& match content {
                    Some(c) => day_from_content(c@) == Some(d.v()),
                    None => d.v() == DayDataV::empty(key_date(date@)),
                }
            },
            Err(e) => match e {
                StoreError::InvalidInput(m) => !is_valid_date_key(date@) && m@
                    == "Invalid date format"@,
                StoreError::CorruptData(m) => {
                    &&& is_valid_date_key(date@)
                    &&& content is Some
                    &&& day_from_content((content->0)@) is None
                    &&& m@ == (if parse_text((content->0)@) is None {
                        "Failed to parse JSON"@
                    } else {
                        "Failed to parse day data"@
                    })
                },
                StoreError::IoError(_) => false,
            },
        },
{
    let d = match crate::date::parse_date_key(date) {
        Some(d) => d,
        None => {
            return Err(StoreError::InvalidInput("Invalid date format".to_owned()));
        },
    };
    match content {
        None => {
            let day = DayData { date: d, todos: Vec::new(), notes: String::new() };
            proof {
                crate::date::lemma_valid_key_wf(date@);
                assert(todos_v(day.todos@) =~= Seq::<TodoItemV>::empty());
                assert(day.v() == DayDataV::empty(key_date(date@)));
            }
            Ok(day)
        },
        Some(c) => {
            match crate::json::from_text(c) {
                None => Err(StoreError::CorruptData("Failed to parse JSON".to_owned())),
                Some(tree) => match decode_day_tree(&tree) {
                    Some(day) => Ok(day),
                    None => Err(
                        StoreError::CorruptData("Failed to parse day data".to_owned()),
                    ),
                },
            }
        },
    }
}

} // verus!
