//! What reading a form promises of each field it reports: its fully
//! qualified name, whether it holds a value, whether a reset would change
//! it, where its widgets sit and which state turns a button on. Each is
//! stated over the document's own dictionaries, and proved.

use vstd::prelude::*;
use crate::document::{deref, get_dictionary, DocView};
use crate::form::{
    emit_all, emitted, field_roots, form_from, no_inheritance, spec_read_form, title_of, walk,
    walk_list, widget_entries, AcroFormLocation, Emission, InheritedView, Record,
};
use crate::laws::lemma_walk_list_fresh;
use crate::names::{
    spec_acro_form_name, spec_ap_name, spec_n_name, spec_off_name, spec_rect_name, spec_root_name,
};
use crate::object::{dict_get, DictView, Obj, ObjectId};
use crate::text::{display, is_empty_value};

verus! {

// ---------------------------------------------------------------------------
// Names
// ---------------------------------------------------------------------------

/// Whether `s` begins with `p`.
pub open spec fn has_prefix(s: Seq<char>, p: Seq<char>) -> bool {
    p.len() <= s.len() && s.subrange(0, p.len() as int) == p
}

proof fn lemma_prefix_trans(s: Seq<char>, m: Seq<char>, p: Seq<char>)
    requires
        has_prefix(s, m),
        has_prefix(m, p),
    ensures
        has_prefix(s, p),
{
    assert(s.subrange(0, p.len() as int) =~= m.subrange(0, p.len() as int));
}

/// Every field found below a node walked under a non-empty name carries
/// that name, then a dot or nothing more, at the start of its own.
proof fn lemma_walk_named_under(
    objs: Seq<(ObjectId, Obj)>,
    id: ObjectId,
    parent: InheritedView,
    q: Seq<char>,
    depth: int,
    seen: Set<ObjectId>,
)
    requires
        q.len() > 0,
    ensures
        forall|k: int|
            0 <= k < walk(objs, id, parent, Some(q), depth, seen).0.len() ==> has_prefix(
                (#[trigger] walk(objs, id, parent, Some(q), depth, seen).0[k]).name,
                q,
            ),
    decreases crate::form::MAX_DEPTH + 2 - depth, 0int,
{
    if !(depth > crate::form::MAX_DEPTH || depth < 0 || seen.contains(id)) {
        if let Ok(dict) = get_dictionary(objs, id) {
            let seen1 = seen.insert(id);
            let state = crate::form::inherit(objs, id, dict, parent);
            let name = crate::form::field_name(dict, Some(q));
            let kids = crate::form::kids_of(objs, dict);
            let children = crate::form::split_kids(objs, kids, true);
            assert(has_prefix(name, q)) by {
                if let Some(part) = title_of(dict) {
                    assert((q + seq!['.'] + part).subrange(0, q.len() as int) =~= q);
                } else {
                    assert(name.subrange(0, q.len() as int) =~= q);
                }
            }
            lemma_walk_list_named_under(
                objs,
                children,
                state,
                name,
                depth + 1,
                seen1,
                children.len() as int,
            );
            let ems = walk(objs, id, parent, Some(q), depth, seen).0;
            let below = walk_list(
                objs,
                children,
                state,
                Some(name),
                depth + 1,
                seen1,
                children.len() as int,
            ).0;
            assert forall|k: int| 0 <= k < ems.len() implies has_prefix(#[trigger] ems[k].name, q) by {
                if k < below.len() {
                    assert(ems[k] == below[k]);
                    lemma_prefix_trans(ems[k].name, name, q);
                } else {
                    assert(ems[k].name == name);
                    assert(name.subrange(0, q.len() as int) =~= q);
                }
            }
        }
    }
}

proof fn lemma_walk_list_named_under(
    objs: Seq<(ObjectId, Obj)>,
    ids: Seq<ObjectId>,
    parent: InheritedView,
    q: Seq<char>,
    depth: int,
    seen: Set<ObjectId>,
    n: int,
)
    requires
        q.len() > 0,
    ensures
        forall|k: int|
            0 <= k < walk_list(objs, ids, parent, Some(q), depth, seen, n).0.len() ==> has_prefix(
                (#[trigger] walk_list(objs, ids, parent, Some(q), depth, seen, n).0[k]).name,
                q,
            ),
    decreases crate::form::MAX_DEPTH + 2 - depth, n + 1,
{
    if !(n <= 0 || n > ids.len() || depth > crate::form::MAX_DEPTH + 1) {
        let before = walk_list(objs, ids, parent, Some(q), depth, seen, n - 1);
        lemma_walk_list_named_under(objs, ids, parent, q, depth, seen, n - 1);
        let last = walk(objs, ids[n - 1], parent, Some(q), depth, before.1);
        lemma_walk_named_under(objs, ids[n - 1], parent, q, depth, before.1);
        let all = before.0 + last.0;
        assert forall|k: int| 0 <= k < all.len() implies has_prefix(#[trigger] all[k].name, q) by {
            if k < before.0.len() {
                assert(all[k] == before.0[k]);
            } else {
                assert(all[k] == last.0[k - before.0.len()]);
            }
        }
    }
}

/// A field's name is fully qualified: a node with a partial name /T,
/// reached below a parent whose fully qualified name `p` is not empty, is
/// named `p`, a dot and its decoded /T, and every field below it carries that
/// name, and a dot, at the start of its own.
pub proof fn law_a_field_is_named_below_its_parent(
    objs: Seq<(ObjectId, Obj)>,
    id: ObjectId,
    parent: InheritedView,
    p: Seq<char>,
    depth: int,
    seen: Set<ObjectId>,
)
    requires
        p.len() > 0,
        get_dictionary(objs, id) matches Ok(dict) && title_of(dict) is Some,
    ensures
        ({
            let part = title_of(get_dictionary(objs, id)->Ok_0)->Some_0;
            let full = p + seq!['.'] + part;
            let ems = walk(objs, id, parent, Some(p), depth, seen).0;
            forall|k: int|
                0 <= k < ems.len() ==> has_prefix((#[trigger] ems[k]).name, full) && (ems[k].id
                    == id ==> ems[k].name == full)
        }),
{
    let dict = get_dictionary(objs, id)->Ok_0;
    let part = title_of(dict)->Some_0;
    let full = p + seq!['.'] + part;
    let ems = walk(objs, id, parent, Some(p), depth, seen).0;
    if !(depth > crate::form::MAX_DEPTH || depth < 0 || seen.contains(id)) {
        let seen1 = seen.insert(id);
        let state = crate::form::inherit(objs, id, dict, parent);
        let name = crate::form::field_name(dict, Some(p));
        assert(name == full);
        let kids = crate::form::kids_of(objs, dict);
        let children = crate::form::split_kids(objs, kids, true);
        let below = walk_list(objs, children, state, Some(name), depth + 1, seen1, children.len() as int);
        lemma_walk_list_named_under(objs, children, state, name, depth + 1, seen1, children.len() as int);
        lemma_walk_list_fresh(objs, children, state, Some(name), depth + 1, seen1, children.len() as int);
        assert forall|k: int| 0 <= k < ems.len() implies has_prefix((#[trigger] ems[k]).name, full)
            && (ems[k].id == id ==> ems[k].name == full) by {
            if k < below.0.len() {
                assert(ems[k] == below.0[k]);
                assert(!seen1.contains(below.0[k].id));
            } else {
                assert(ems[k].name == full);
                assert(full.subrange(0, full.len() as int) =~= full);
            }
        }
    }
}

/// The other two ways a node is named: one with a partial name /T and no
/// parent name (a top-level field, or one below nameless nodes) is named by
/// its decoded /T alone; one without /T takes its parent's name, or none.
pub proof fn law_a_field_without_a_parent_name_or_title(
    objs: Seq<(ObjectId, Obj)>,
    id: ObjectId,
    parent: InheritedView,
    prefix: Option<Seq<char>>,
    depth: int,
    seen: Set<ObjectId>,
)
    requires
        get_dictionary(objs, id) is Ok,
    ensures
        ({
            let dict = get_dictionary(objs, id)->Ok_0;
            let ems = walk(objs, id, parent, prefix, depth, seen).0;
            forall|k: int|
                0 <= k < ems.len() && (#[trigger] ems[k]).id == id ==> {
                    &&& title_of(dict) matches Some(part) ==> ((prefix is None || prefix
                        == Some(Seq::<char>::empty())) ==> ems[k].name == part)
                    &&& prefix matches Some(p) ==> (title_of(dict) is None ==> ems[k].name == p)
                    &&& (title_of(dict) is None && prefix is None) ==> ems[k].name.len() == 0
                }
        }),
{
    let dict = get_dictionary(objs, id)->Ok_0;
    let ems = walk(objs, id, parent, prefix, depth, seen).0;
    if !(depth > crate::form::MAX_DEPTH || depth < 0 || seen.contains(id)) {
        let seen1 = seen.insert(id);
        let state = crate::form::inherit(objs, id, dict, parent);
        let name = crate::form::field_name(dict, prefix);
        let kids = crate::form::kids_of(objs, dict);
        let children = crate::form::split_kids(objs, kids, true);
        let below = walk_list(objs, children, state, Some(name), depth + 1, seen1, children.len() as int);
        lemma_walk_list_fresh(objs, children, state, Some(name), depth + 1, seen1, children.len() as int);
        assert forall|k: int| 0 <= k < ems.len() && (#[trigger] ems[k]).id == id implies ems[k].name
            == name by {
            if k < below.0.len() {
                assert(ems[k] == below.0[k]);
                assert(!seen1.contains(below.0[k].id));
            }
        }
    }
}

// ---------------------------------------------------------------------------
// What a field reports of its value, its widgets and its buttons
// ---------------------------------------------------------------------------

/// Whether a record is what a terminal field met on the walk makes.
pub open spec fn made_by_walk(objs: Seq<(ObjectId, Obj)>, pages: Seq<ObjectId>, rec: Record) -> bool {
    exists|e: Emission| rec == emitted(objs, pages, e)
}

proof fn lemma_form_from_records(d: DocView, acro: DictView, location: AcroFormLocation)
    ensures
        forall|i: int|
            0 <= i < form_from(d, acro, location).records.len() ==> made_by_walk(
                d.objects,
                d.pages,
                #[trigger] form_from(d, acro, location).records[i],
            ),
{
    let records = form_from(d, acro, location).records;
    let roots = field_roots(d.objects, acro);
    let ems = walk_list(d.objects, roots, no_inheritance(), None, 0, Set::empty(), roots.len() as int).0;
    assert(records == emit_all(d.objects, d.pages, ems));
    assert forall|i: int| 0 <= i < records.len() implies made_by_walk(
        d.objects,
        d.pages,
        #[trigger] records[i],
    ) by {
        assert(records[i] == emitted(d.objects, d.pages, ems[i]));
    }
}

/// Every field of a form read from a document is one the walk made.
proof fn lemma_read_records(d: DocView)
    ensures
        spec_read_form(d) matches Ok(form) ==> forall|i: int|
            0 <= i < form.records.len() ==> made_by_walk(d.objects, d.pages, #[trigger] form.records[i]),
{
    match dict_get(d.trailer, spec_root_name()) {
        Some(Obj::Reference(catalog_id)) => match get_dictionary(d.objects, catalog_id) {
            Ok(catalog) => match dict_get(catalog, spec_acro_form_name()) {
                Some(Obj::Reference(acro_id)) => match get_dictionary(d.objects, acro_id) {
                    Ok(acro) => lemma_form_from_records(d, acro, AcroFormLocation::Indirect(acro_id)),
                    Err(_) => {},
                },
                Some(Obj::Dict(acro)) => lemma_form_from_records(
                    d,
                    acro,
                    AcroFormLocation::InCatalog(catalog_id),
                ),
                _ => {},
            },
            Err(_) => {},
        },
        _ => {},
    }
}

/// The widgets kept for a field are dictionaries, each the one its id names.
proof fn lemma_widget_entries(objs: Seq<(ObjectId, Obj)>, wids: Seq<ObjectId>)
    ensures
        forall|k: int|
            0 <= k < widget_entries(objs, wids).len() ==> get_dictionary(
                objs,
                (#[trigger] widget_entries(objs, wids)[k]).0,
            ) == Ok::<DictView, crate::document::Fault>(widget_entries(objs, wids)[k].1),
    decreases wids.len(),
{
    if wids.len() > 0 {
        lemma_widget_entries(objs, wids.drop_last());
        let rest = widget_entries(objs, wids.drop_last());
        let all = widget_entries(objs, wids);
        assert forall|k: int| 0 <= k < all.len() implies get_dictionary(objs, (#[trigger] all[k]).0)
            == Ok::<DictView, crate::document::Fault>(all[k].1) by {
            if k < rest.len() {
                assert(all[k] == rest[k]);
            }
        }
    }
}

/// Whether a reset to the default would change a field: it is reported as
/// set when its value and its /DV differ, by being present or by what they
/// show.
pub proof fn law_a_field_a_reset_would_change_is_set(d: DocView)
    ensures
        spec_read_form(d) matches Ok(form) ==> forall|i: int|
            0 <= i < form.records.len() ==> {
                let f = (#[trigger] form.records[i]).0;
                let refs = form.records[i].1;
                f.resettable ==> {
                    &&& (refs.current_value is None && refs.default_value is Some
                        && !is_empty_value(refs.default_value->Some_0)) ==> f.is_set
                    &&& (refs.current_value is Some && refs.default_value is None
                        && !is_empty_value(refs.current_value->Some_0)) ==> f.is_set
                    &&& (refs.current_value is Some && refs.default_value is Some && display(
                        refs.current_value->Some_0,
                    ) != display(refs.default_value->Some_0)) ==> f.is_set
                }
            },
{
    lemma_read_records(d);
    if let Ok(form) = spec_read_form(d) {
        assert forall|i: int| 0 <= i < form.records.len() implies {
            let f = (#[trigger] form.records[i]).0;
            let refs = form.records[i].1;
            f.resettable ==> {
                &&& (refs.current_value is None && refs.default_value is Some && !is_empty_value(
                    refs.default_value->Some_0,
                )) ==> f.is_set
                &&& (refs.current_value is Some && refs.default_value is None && !is_empty_value(
                    refs.current_value->Some_0,
                )) ==> f.is_set
                &&& (refs.current_value is Some && refs.default_value is Some && display(
                    refs.current_value->Some_0,
                ) != display(refs.default_value->Some_0)) ==> f.is_set
            }
        } by {
            let e = choose|e: Emission| form.records[i] == emitted(d.objects, d.pages, e);
        }
    }
}

/// Whether a field holds a value: a resettable field is reported as holding
/// one exactly when its value is not empty or one of its widgets is drawn in
/// a state other than `Off`.
pub proof fn law_a_field_holds_a_value_when_it_shows_one(d: DocView)
    ensures
        spec_read_form(d) matches Ok(form) ==> forall|i: int|
            0 <= i < form.records.len() ==> {
                let f = (#[trigger] form.records[i]).0;
                let refs = form.records[i].1;
                f.resettable ==> (f.has_value <==> ((refs.current_value is Some && !is_empty_value(
                    refs.current_value->Some_0,
                )) || exists|w: int|
                    0 <= w < f.widgets.len() && (#[trigger] f.widgets[w]).appearance_state is Some
                        && f.widgets[w].appearance_state->Some_0 != crate::form::off_text()))
            },
{
    lemma_read_records(d);
    if let Ok(form) = spec_read_form(d) {
        assert forall|i: int| 0 <= i < form.records.len() implies {
            let f = (#[trigger] form.records[i]).0;
            let refs = form.records[i].1;
            f.resettable ==> (f.has_value <==> ((refs.current_value is Some && !is_empty_value(
                refs.current_value->Some_0,
            )) || exists|w: int|
                0 <= w < f.widgets.len() && (#[trigger] f.widgets[w]).appearance_state is Some
                    && f.widgets[w].appearance_state->Some_0 != crate::form::off_text()))
        } by {
            let e = choose|e: Emission| form.records[i] == emitted(d.objects, d.pages, e);
            let f = form.records[i].0;
            if exists|w: int|
                0 <= w < f.widgets.len() && crate::form::shows_on(#[trigger] f.widgets[w]) {
                let w = choose|w: int|
                    0 <= w < f.widgets.len() && crate::form::shows_on(#[trigger] f.widgets[w]);
                assert(f.widgets[w].appearance_state is Some && f.widgets[w].appearance_state->Some_0
                    != crate::form::off_text());
            }
            if exists|w: int|
                0 <= w < f.widgets.len() && (#[trigger] f.widgets[w]).appearance_state is Some
                    && f.widgets[w].appearance_state->Some_0 != crate::form::off_text() {
                let w = choose|w: int|
                    0 <= w < f.widgets.len() && (#[trigger] f.widgets[w]).appearance_state is Some
                        && f.widgets[w].appearance_state->Some_0 != crate::form::off_text();
                assert(crate::form::shows_on(f.widgets[w]));
            }
        }
    }
}

/// Where a widget sits: a widget's reported rectangle is the four numbers
/// of its dictionary's /Rect, in order, each a number (references followed).
pub proof fn law_a_widget_sits_where_its_rect_says(d: DocView)
    ensures
        spec_read_form(d) matches Ok(form) ==> forall|i: int, w: int|
            #![trigger form.records[i].0.widgets[w]]
            0 <= i < form.records.len() && 0 <= w < form.records[i].0.widgets.len()
                && form.records[i].0.widgets[w].rect is Some ==> {
                let r = form.records[i].0.widgets[w].rect->Some_0;
                let wid = form.records[i].1.widgets[w].id;
                &&& get_dictionary(d.objects, wid) is Ok
                &&& dict_get(get_dictionary(d.objects, wid)->Ok_0, spec_rect_name()) is Some
                &&& deref(
                    d.objects,
                    dict_get(get_dictionary(d.objects, wid)->Ok_0, spec_rect_name())->Some_0,
                ) matches Ok(Obj::Array(vals)) && vals.len() == 4 && r.len() == 4 && forall|j: int|
                    0 <= j < 4 ==> deref(d.objects, vals[j]) == Ok::<Obj, crate::document::Fault>(
                        #[trigger] r[j],
                    ) && (r[j] is Integer || r[j] is Real)
            },
{
    lemma_read_records(d);
    if let Ok(form) = spec_read_form(d) {
        assert forall|i: int, w: int|
            #![trigger form.records[i].0.widgets[w]]
            0 <= i < form.records.len() && 0 <= w < form.records[i].0.widgets.len()
                && form.records[i].0.widgets[w].rect is Some implies {
            let r = form.records[i].0.widgets[w].rect->Some_0;
            let wid = form.records[i].1.widgets[w].id;
            &&& get_dictionary(d.objects, wid) is Ok
            &&& dict_get(get_dictionary(d.objects, wid)->Ok_0, spec_rect_name()) is Some
            &&& deref(
                d.objects,
                dict_get(get_dictionary(d.objects, wid)->Ok_0, spec_rect_name())->Some_0,
            ) matches Ok(Obj::Array(vals)) && vals.len() == 4 && r.len() == 4 && forall|j: int|
                0 <= j < 4 ==> deref(d.objects, vals[j]) == Ok::<Obj, crate::document::Fault>(
                    #[trigger] r[j],
                ) && (r[j] is Integer || r[j] is Real)
        } by {
            let e = choose|e: Emission| form.records[i] == emitted(d.objects, d.pages, e);
            let entries = widget_entries(d.objects, e.widget_ids);
            lemma_widget_entries(d.objects, e.widget_ids);
            assert(form.records[i].1.widgets[w].id == entries[w].0);
            assert(form.records[i].0.widgets[w].rect == crate::form::rect_of(d.objects, entries[w].1));
        }
    }
}

/// A button widget's states: the /AP /N dictionary of a widget dictionary,
/// references followed.
pub open spec fn states_of(objs: Seq<(ObjectId, Obj)>, w: DictView) -> Option<DictView> {
    match dict_get(w, spec_ap_name()) {
        Some(ap) => match deref(objs, ap) {
            Ok(Obj::Dict(apd)) => match dict_get(apd, spec_n_name()) {
                Some(n) => match deref(objs, n) {
                    Ok(Obj::Dict(states)) => Some(states),
                    _ => None,
                },
                None => None,
            },
            _ => None,
        },
        None => None,
    }
}

proof fn lemma_first_non_off(states: DictView, k: int)
    requires
        0 <= k < states.len(),
        states[k].0 != spec_off_name(),
    ensures
        crate::form::first_non_off(states) is Some,
    decreases k,
{
    if exists|m: int| 0 <= m < k && states[m].0 != spec_off_name() {
        let m = choose|m: int| 0 <= m < k && states[m].0 != spec_off_name();
        lemma_first_non_off(states, m);
    } else {
        assert(crate::form::is_first_non_off(states, k));
    }
}

/// Which state turns a button on: a button widget's on-state, when it has
/// one, is a key of its /AP /N dictionary other than /Off, and it has one
/// whenever that dictionary has such a key. Other widgets have none.
pub proof fn law_a_button_is_turned_on_by_a_state_it_has(d: DocView)
    ensures
        spec_read_form(d) matches Ok(form) ==> forall|i: int, w: int|
            #![trigger form.records[i].1.widgets[w]]
            0 <= i < form.records.len() && 0 <= w < form.records[i].1.widgets.len() ==> {
                let refs = form.records[i].1;
                let wd = get_dictionary(d.objects, refs.widgets[w].id)->Ok_0;
                let button = refs.kind is Radio || refs.kind is Checkbox || refs.kind is PushButton;
                &&& get_dictionary(d.objects, refs.widgets[w].id) is Ok
                &&& refs.widgets[w].on_state is Some ==> {
                    &&& button
                    &&& refs.widgets[w].on_state->Some_0 != spec_off_name()
                    &&& states_of(d.objects, wd) is Some
                    &&& exists|k: int|
                        0 <= k < states_of(d.objects, wd)->Some_0.len() && (#[trigger] states_of(
                            d.objects,
                            wd,
                        )->Some_0[k]).0 == refs.widgets[w].on_state->Some_0
                }
                &&& (button && states_of(d.objects, wd) is Some && exists|k: int|
                    0 <= k < states_of(d.objects, wd)->Some_0.len() && (#[trigger] states_of(
                        d.objects,
                        wd,
                    )->Some_0[k]).0 != spec_off_name()) ==> refs.widgets[w].on_state is Some
            },
{
    lemma_read_records(d);
    if let Ok(form) = spec_read_form(d) {
        assert forall|i: int, w: int|
            #![trigger form.records[i].1.widgets[w]]
            0 <= i < form.records.len() && 0 <= w < form.records[i].1.widgets.len() implies {
            let refs = form.records[i].1;
            let wd = get_dictionary(d.objects, refs.widgets[w].id)->Ok_0;
            let button = refs.kind is Radio || refs.kind is Checkbox || refs.kind is PushButton;
            &&& get_dictionary(d.objects, refs.widgets[w].id) is Ok
            &&& refs.widgets[w].on_state is Some ==> {
                &&& button
                &&& refs.widgets[w].on_state->Some_0 != spec_off_name()
                &&& states_of(d.objects, wd) is Some
                &&& exists|k: int|
                    0 <= k < states_of(d.objects, wd)->Some_0.len() && (#[trigger] states_of(
                        d.objects,
                        wd,
                    )->Some_0[k]).0 == refs.widgets[w].on_state->Some_0
            }
            &&& (button && states_of(d.objects, wd) is Some && exists|k: int|
                0 <= k < states_of(d.objects, wd)->Some_0.len() && (#[trigger] states_of(
                    d.objects,
                    wd,
                )->Some_0[k]).0 != spec_off_name()) ==> refs.widgets[w].on_state is Some
        } by {
            let e = choose|e: Emission| form.records[i] == emitted(d.objects, d.pages, e);
            let entries = widget_entries(d.objects, e.widget_ids);
            lemma_widget_entries(d.objects, e.widget_ids);
            let refs = form.records[i].1;
            assert(refs.widgets[w].id == entries[w].0);
            let wd = entries[w].1;
            assert(get_dictionary(d.objects, refs.widgets[w].id) == Ok::<DictView, crate::document::Fault>(wd));
            assert(crate::form::on_state_of(d.objects, wd) == match states_of(d.objects, wd) {
                Some(st) => crate::form::first_non_off(st),
                None => None,
            });
            if let Some(st) = states_of(d.objects, wd) {
                if exists|c: int| crate::form::is_first_non_off(st, c) {
                    let c = choose|c: int| crate::form::is_first_non_off(st, c);
                    assert(st[c].0 != spec_off_name());
                }
                if exists|k: int| 0 <= k < st.len() && (#[trigger] st[k]).0 != spec_off_name() {
                    let k = choose|k: int| 0 <= k < st.len() && (#[trigger] st[k]).0 != spec_off_name();
                    lemma_first_non_off(st, k);
                }
            }
        }
    }
}

} // verus!
