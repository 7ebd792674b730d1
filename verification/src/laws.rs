//! The store's laws: what holds across operations, proved once and
//! for all inputs.

use vstd::prelude::*;
use crate::date::{Date, is_valid_date_key, key_date, lemma_date_key_roundtrip};
use crate::day::{
    DayDataV, TodoItemV, day_tree, todo_tree, todo_trees, day_content, day_from_content,
    day_from_tree, todo_from_tree, todos_from_trees, k_date, k_todos, k_notes, k_id, k_text,
    k_completed, k_created_at, k_move,
};
use crate::json::{
    JsonV, tree_wf, trees_wf, members_wf, count_key, obj_get, obj_get_last,
    lemma_parse_text_roundtrip,
};
use crate::prefs::{dark_content, dark_from_content, dark_of_tree, dark_tree, k_dark};
use crate::zoom::{
    is_number_text, k_zoom, lemma_zoom_bounds_in_range, lemma_zoom_clamped_in_range, zoom_clamped,
    zoom_content, zoom_from_content, zoom_of_tree, zoom_text_in_range, zoom_tree,
};
use crate::json::lemma_num_obj_roundtrip;

verus! {

/// The canonical tree of a well-formed item round-trips through the
/// serializer's tree grammar.
proof fn lemma_todo_tree_wf(t: TodoItemV)
    ensures
        tree_wf(todo_tree(t)),
{
    let ms = todo_tree(t)->Obj_0;
    assert forall|i: int| 0 <= i < ms.len() implies tree_wf(#[trigger] (ms[i].1)) by {
        assert(ms =~= seq![
            (k_id(), JsonV::Str(t.id)),
            (k_text(), JsonV::Str(t.text)),
            (k_completed(), JsonV::Bool(t.completed)),
            (k_created_at(), JsonV::Str(t.created_at)),
            (k_move(), JsonV::Bool(t.move_to_next_day)),
            (k_notes(), JsonV::Str(t.notes)),
        ]);
    }
}

/// The canonical tree of a well-formed day record lies in the grammar
/// the parser is proved complete on.
proof fn lemma_day_tree_wf(d: DayDataV)
    ensures
        tree_wf(day_tree(d)),
{
    let trees = todo_trees(d.todos);
    assert forall|i: int| 0 <= i < trees.len() implies tree_wf(#[trigger] trees[i]) by {
        lemma_todo_tree_wf(d.todos[i]);
    }
    assert(trees_wf(trees));
    assert(tree_wf(JsonV::Arr(trees)));
    let ms = day_tree(d)->Obj_0;
    assert forall|i: int| 0 <= i < ms.len() implies tree_wf(#[trigger] (ms[i].1)) by {
        assert(ms =~= seq![
            (k_date(), JsonV::Str(d.date.key())),
            (k_todos(), JsonV::Arr(trees)),
            (k_notes(), JsonV::Str(d.notes)),
        ]);
    }
}

/// Reading the canonical tree of a well-formed item restores the item.
#[verifier::rlimit(100)]
#[verifier::spinoff_prover]
proof fn lemma_todo_decode_encode(t: TodoItemV)
    requires
        t.wf(),
    ensures
        todo_from_tree(todo_tree(t)) == Some(t),
{
    let ms = todo_tree(t)->Obj_0;
    reveal_with_fuel(count_key, 8);
    reveal_with_fuel(obj_get, 8);
    assert(k_id() != k_text() && k_id() != k_completed() && k_id() != k_created_at() && k_id()
        != k_move() && k_id() != k_notes());
    assert(k_text() != k_completed() && k_text() != k_created_at() && k_text() != k_move()
        && k_text() != k_notes());
    assert(k_completed() != k_created_at() && k_completed() != k_move() && k_completed()
        != k_notes());
    assert(k_created_at() != k_move() && k_created_at() != k_notes());
    assert(k_move() != k_notes());
    assert(count_key(ms, k_id()) == 1);
    assert(count_key(ms, k_text()) == 1);
    assert(count_key(ms, k_completed()) == 1);
    assert(count_key(ms, k_created_at()) == 1);
    assert(count_key(ms, k_move()) == 1);
    assert(count_key(ms, k_notes()) == 1);
    assert(obj_get(ms, k_id()) == Some(JsonV::Str(t.id)));
    assert(obj_get(ms, k_text()) == Some(JsonV::Str(t.text)));
    assert(obj_get(ms, k_completed()) == Some(JsonV::Bool(t.completed)));
    assert(obj_get(ms, k_created_at()) == Some(JsonV::Str(t.created_at)));
    assert(obj_get(ms, k_move()) == Some(JsonV::Bool(t.move_to_next_day)));
    assert(obj_get(ms, k_notes()) == Some(JsonV::Str(t.notes)));
}

/// Reading the canonical trees of well-formed items restores the
/// items.
proof fn lemma_todos_decode_encode(s: Seq<TodoItemV>)
    requires
        forall|i: int| 0 <= i < s.len() ==> (#[trigger] s[i]).wf(),
    ensures
        todos_from_trees(todo_trees(s)) == Some(s),
    decreases s.len(),
{
    let trees = todo_trees(s);
    if s.len() == 0 {
        assert(trees.len() == 0);
        assert(s =~= Seq::<TodoItemV>::empty());
    } else {
        lemma_todo_decode_encode(s[0]);
        assert(trees[0] == todo_tree(s[0]));
        assert(trees.drop_first() =~= todo_trees(s.drop_first()));
        lemma_todos_decode_encode(s.drop_first());
        assert(seq![s[0]] + s.drop_first() =~= s);
    }
}

/// Reading the canonical tree of a well-formed day record restores the
/// record.
#[verifier::rlimit(100)]
#[verifier::spinoff_prover]
proof fn lemma_day_decode_encode(d: DayDataV)
    requires
        d.wf(),
    ensures
        day_from_tree(day_tree(d)) == Some(d),
{
    let ms = day_tree(d)->Obj_0;
    reveal_with_fuel(count_key, 5);
    reveal_with_fuel(obj_get, 5);
    assert(k_date() != k_todos() && k_date() != k_notes() && k_todos() != k_notes());
    assert(count_key(ms, k_date()) == 1);
    assert(count_key(ms, k_todos()) == 1);
    assert(count_key(ms, k_notes()) == 1);
    assert(obj_get(ms, k_date()) == Some(JsonV::Str(d.date.key())));
    assert(obj_get(ms, k_todos()) == Some(JsonV::Arr(todo_trees(d.todos))));
    assert(obj_get(ms, k_notes()) == Some(JsonV::Str(d.notes)));
    lemma_date_key_roundtrip(d.date);
    lemma_todos_decode_encode(d.todos);
    assert(key_date(d.date.key()) == d.date);
}

/// The store's round-trip law: for every well-formed day record, the
/// content written by `save_day_data` loads back to exactly that
/// record. Together with the contracts of `save_day_data` and
/// `load_day_data`, saving a record and loading its date returns the
/// record unchanged, including the order of its todos.
pub proof fn lemma_day_roundtrip(d: DayDataV)
    requires
        d.wf(),
    ensures
        day_from_content(day_content(d)) == Some(d),
{
    lemma_day_tree_wf(d);
    lemma_parse_text_roundtrip(day_tree(d));
    lemma_day_decode_encode(d);
}

/// The dark-mode round-trip law: the content written for either flag
/// value loads back to exactly that value.
pub proof fn lemma_dark_mode_roundtrip(dark: bool)
    ensures
        dark_from_content(dark_content(dark)) == Some(dark),
{
    let tr = dark_tree(dark);
    let ms = tr->Obj_0;
    assert(tree_wf(tr)) by {
        assert(forall|i: int| 0 <= i < ms.len() ==> tree_wf(#[trigger] (ms[i].1)));
    }
    lemma_parse_text_roundtrip(tr);
    assert(ms.last() == (k_dark(), JsonV::Bool(dark)));
    assert(obj_get_last(ms, k_dark()) == Some(JsonV::Bool(dark)));
    assert(dark_of_tree(tr) == Some(dark));
}

/// The zoom round-trip law: any in-range numeral written to the zoom
/// file loads back exactly.
pub proof fn lemma_zoom_roundtrip(t: Seq<char>)
    requires
        is_number_text(t),
        zoom_text_in_range(t),
    ensures
        zoom_from_content(zoom_content(t)) == Some(t),
{
    lemma_num_obj_roundtrip(k_zoom(), t);
    let ms = zoom_tree(t)->Obj_0;
    assert(ms.last() == (k_zoom(), JsonV::Num(t)));
    assert(obj_get_last(ms, k_zoom()) == Some(JsonV::Num(t)));
    assert(zoom_of_tree(zoom_tree(t)) == t);
}

/// The zoom save-then-load law: whatever numeral a caller saves, the
/// stored file loads back to exactly the clamped value — in-range
/// values exactly as given, everything else as the violated bound.
pub proof fn lemma_zoom_save_load(text: Seq<char>)
    requires
        is_number_text(text),
    ensures
        zoom_from_content(zoom_content(zoom_clamped(text))) == Some(zoom_clamped(text)),
{
    lemma_zoom_bounds_in_range();
    lemma_zoom_clamped_in_range(text);
    lemma_zoom_roundtrip(zoom_clamped(text));
}

} // verus!
