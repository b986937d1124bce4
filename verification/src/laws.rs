//! What the library promises of itself as a whole, stated over the models
//! its functions' contracts use, and proved.

use vstd::prelude::*;
use crate::document::{
    dicts_unique, get_dictionary, get_object, id_pos, is_first_id, lemma_get_object_source,
    lemma_id_pos_range, lemma_lookup_push, lemma_lookup_replace, lookup, spec_is_encrypted,
    DocView, Fault,
};
use crate::form::{
    emit_all, emitted, field_name, field_roots, form_from, inherit, kids_of, no_inheritance,
    spec_read_form, split_kids, walk, walk_list, AcroFormLocation, AppearanceRef, Emission,
    FieldKind, FormView, InheritedView, Record, RefsView, WidgetRefsView, MAX_DEPTH,
};
use crate::ids::{lemma_decode_encode_id, spec_decode_id};
use crate::names::{
    spec_acro_form_name, spec_ap_name, spec_as_name, spec_i_name, spec_n_name,
    spec_need_appearances_name, spec_off_name, spec_root_name, spec_rv_name, spec_v_name,
};
use crate::object::{
    dict_get, dict_remove, dict_set, keys_unique, lemma_dict_remove, lemma_dict_set, DictView,
    Obj, ObjectId,
};
use crate::reset::{
    empty_value, asks_for_redraw, plans_redraw, blank_edits, blank_in, blank_stream, button_edits, button_state, changed_objects,
    clone_to_new, edit_dict, edit_in, field_pos, is_first_field, reset_target, restores_text,
    same_value, spec_apply, spec_apply_edit, spec_plan, spec_plan_field, spec_plan_one,
    spec_revision, spec_update, unchanged, value_set, with_object, EditView, ResetMode,
    UpdateView,
};
use crate::Failure;
use crate::text::is_empty_value;

verus! {

// ---------------------------------------------------------------------------
// Reading a form
// ---------------------------------------------------------------------------

/// What a field read from a form says of itself, consistently.
pub open spec fn reports_consistently(rec: Record) -> bool {
    let (f, refs) = rec;
    &&& f.resettable == !(f.kind is PushButton || f.kind is Signature)
    &&& (f.note is Some) == !f.resettable
    &&& f.has_value ==> f.resettable
    &&& f.is_set ==> f.resettable
    &&& refs.kind == f.kind
    &&& spec_decode_id(f.id) == Some(refs.field)
    &&& f.shared_value == (refs.value_owner != refs.field)
    &&& f.widgets.len() == refs.widgets.len()
    &&& forall|w: int|
        0 <= w < f.widgets.len() ==> spec_decode_id(#[trigger] f.widgets[w].id) == Some(
            refs.widgets[w].id,
        )
}

proof fn lemma_emitted_consistent(objs: Seq<(ObjectId, Obj)>, pages: Seq<ObjectId>, e: Emission)
    ensures
        reports_consistently(emitted(objs, pages, e)),
{
    let (f, refs) = emitted(objs, pages, e);
    lemma_decode_encode_id(e.id);
    assert forall|w: int| 0 <= w < f.widgets.len() implies spec_decode_id(
        #[trigger] f.widgets[w].id,
    ) == Some(refs.widgets[w].id) by {
        lemma_decode_encode_id(refs.widgets[w].id);
    }
}

proof fn lemma_form_from_consistent(d: DocView, acro: DictView, location: AcroFormLocation)
    ensures
        forall|i: int|
            0 <= i < form_from(d, acro, location).records.len() ==> reports_consistently(
                #[trigger] form_from(d, acro, location).records[i],
            ),
{
    let records = form_from(d, acro, location).records;
    assert forall|i: int| 0 <= i < records.len() implies reports_consistently(
        #[trigger] records[i],
    ) by {
        let roots = field_roots(d.objects, acro);
        let ems = walk_list(d.objects, roots, no_inheritance(), None, 0, Set::empty(), roots.len() as int).0;
        assert(records == emit_all(d.objects, d.pages, ems));
        lemma_emitted_consistent(d.objects, d.pages, ems[i]);
    }
}

/// Every field read from a form is resettable exactly when it is neither a
/// push button nor a signature, carries a note exactly when it is not, and
/// is reported as holding a value, or as set, only when it can be reset. Its
/// id, and each of its widgets' ids, read back as the objects a reset is
/// addressed to.
pub proof fn law_fields_report_consistently(d: DocView)
    ensures
        spec_read_form(d) matches Ok(form) ==> forall|i: int|
            0 <= i < form.records.len() ==> reports_consistently(#[trigger] form.records[i]),
{
    match dict_get(d.trailer, spec_root_name()) {
        Some(Obj::Reference(catalog_id)) => match get_dictionary(d.objects, catalog_id) {
            Ok(catalog) => match dict_get(catalog, spec_acro_form_name()) {
                Some(Obj::Reference(acro_id)) => match get_dictionary(d.objects, acro_id) {
                    Ok(acro) => lemma_form_from_consistent(
                        d,
                        acro,
                        AcroFormLocation::Indirect(acro_id),
                    ),
                    Err(_) => {},
                },
                Some(Obj::Dict(acro)) => lemma_form_from_consistent(
                    d,
                    acro,
                    AcroFormLocation::InCatalog(catalog_id),
                ),
                _ => {},
            },
            Err(_) => {},
        },
        _ => {},
    }
}

// ---------------------------------------------------------------------------
// Planning a reset
// ---------------------------------------------------------------------------

/// Text, dropdown and list fields: those drawn from their value's text.
pub open spec fn is_text_like(kind: FieldKind) -> bool {
    kind is Text || kind is Combo || kind is List
}

/// Whether an edit draws a button widget in a state other than /Off.
pub open spec fn draws_on(e: EditView) -> bool {
    e matches EditView::AppearanceState(_, s) && s != spec_off_name()
}

/// The edit `e` points the button widget `w` at its state once its field
/// holds `target`: on exactly when `target` names the widget's on-state.
pub open spec fn points_button(w: WidgetRefsView, target: Option<Obj>, e: EditView) -> bool {
    &&& e matches EditView::AppearanceState(id, s)
    &&& id == w.id
    &&& s != spec_off_name() ==> target == Some(Obj::Name(s)) && w.on_state == Some(s)
    &&& target matches Some(Obj::Name(v)) ==> (w.on_state == Some(v) ==> s == v)
}

proof fn lemma_blank_edits_blank(widgets: Seq<WidgetRefsView>)
    ensures
        forall|k: int|
            0 <= k < blank_edits(widgets).len() ==> #[trigger] blank_edits(widgets)[k] is BlankAppearance,
    decreases widgets.len(),
{
    if widgets.len() > 0 {
        lemma_blank_edits_blank(widgets.drop_last());
    }
}

/// Whatever the mode, a reset's first edit gives the field's value owner the
/// reset's target: the field's /DV when resetting to the default; when
/// clearing, nothing for a field without a /DV and an explicit empty value
/// for one with a /DV, so that a reader does not fall back to it. Planning
/// fails only where text would come back into a
/// field of a document that has no AcroForm dictionary to flag for a redraw.
pub proof fn law_plan_sets_the_value_first(
    refs: RefsView,
    location: Option<AcroFormLocation>,
    mode: ResetMode,
)
    ensures
        match spec_plan_field(refs, location, mode) {
            Ok(edits) => edits.len() >= 1 && edits[0] == EditView::Value(
                refs.value_owner,
                reset_target(refs, mode),
            ),
            Err(f) => f == Failure::NoForm && location is None,
        },
        mode is Default ==> reset_target(refs, mode) == refs.default_value,
        mode is Clear ==> reset_target(refs, mode) == match refs.default_value {
            Some(_) => Some(empty_value(refs.kind)),
            None => None::<Obj>,
        },
        is_empty_value(empty_value(refs.kind)),
{
}

/// Clearing leaves a field with no value, or an explicit empty one where it
/// has a /DV, never asks the viewer to redraw, and draws every button of it
/// unselected.
pub proof fn law_clear_empties_the_field(refs: RefsView, location: Option<AcroFormLocation>)
    ensures
        spec_plan_field(refs, location, ResetMode::Clear) matches Ok(edits) && {
            &&& edits[0] == EditView::Value(refs.value_owner, reset_target(refs, ResetMode::Clear))
            &&& reset_target(refs, ResetMode::Clear) matches Some(v) ==> is_empty_value(v)
            &&& forall|k: int| 0 <= k < edits.len() ==> !asks_for_redraw(#[trigger] edits[k])
            &&& forall|k: int| 0 <= k < edits.len() ==> !draws_on(#[trigger] edits[k])
        },
{
    let target = reset_target(refs, ResetMode::Clear);
    let edits = spec_plan_field(refs, location, ResetMode::Clear)->Ok_0;
    lemma_blank_edits_blank(refs.widgets);
    let value_edit = seq![EditView::Value(refs.value_owner, target)];
    if refs.kind is Radio || refs.kind is Checkbox {
        let b = button_edits(refs.widgets, target);
        assert(edits == value_edit + b);
        assert forall|k: int| 0 <= k < edits.len() implies !asks_for_redraw(#[trigger] edits[k])
            && !draws_on(edits[k]) by {
            if k > 0 {
                assert(edits[k] == b[k - 1]);
                assert(b[k - 1] == EditView::AppearanceState(
                    refs.widgets[k - 1].id,
                    button_state(target, refs.widgets[k - 1].on_state),
                ));
            }
        }
    } else if is_text_like(refs.kind) {
        assert(!restores_text(target));
        let b = blank_edits(refs.widgets);
        assert(edits == value_edit + b);
        assert forall|k: int| 0 <= k < edits.len() implies !asks_for_redraw(#[trigger] edits[k])
            && !draws_on(edits[k]) by {
            if k > 0 {
                assert(edits[k] == b[k - 1]);
            }
        }
    }
}

/// Resetting a radio group or a checkbox points every one of its widgets, in
/// order, at a new appearance state: a widget is drawn on exactly when the
/// reset's target value names its own on-state, and /Off otherwise.
pub proof fn law_buttons_follow_the_value(
    refs: RefsView,
    location: Option<AcroFormLocation>,
    mode: ResetMode,
)
    requires
        refs.kind is Radio || refs.kind is Checkbox,
    ensures
        spec_plan_field(refs, location, mode) matches Ok(edits) && {
            &&& edits.len() == refs.widgets.len() + 1
            &&& forall|w: int|
                0 <= w < refs.widgets.len() ==> points_button(
                    #[trigger] refs.widgets[w],
                    reset_target(refs, mode),
                    edits[w + 1],
                )
        },
{
    let target = reset_target(refs, mode);
    let edits = spec_plan_field(refs, location, mode)->Ok_0;
    let b = button_edits(refs.widgets, target);
    assert(edits == seq![EditView::Value(refs.value_owner, target)] + b);
    assert forall|w: int| 0 <= w < refs.widgets.len() implies points_button(
        #[trigger] refs.widgets[w],
        target,
        edits[w + 1],
    ) by {
        assert(edits[w + 1] == b[w]);
        assert(b[w] == EditView::AppearanceState(
            refs.widgets[w].id,
            button_state(target, refs.widgets[w].on_state),
        ));
    }
}

/// A reset asks the viewer to redraw the form (/NeedAppearances) exactly when
/// it puts text back into a text or choice field whose value changes.
pub proof fn law_redraw_only_when_text_comes_back(
    refs: RefsView,
    location: Option<AcroFormLocation>,
    mode: ResetMode,
)
    ensures
        spec_plan_field(refs, location, mode) matches Ok(edits) ==> (
        (exists|k: int| 0 <= k < edits.len() && asks_for_redraw(#[trigger] edits[k])) <==> (
        is_text_like(refs.kind) && restores_text(reset_target(refs, mode)) && !same_value(
            refs.current_value,
            reset_target(refs, mode),
        ))),
{
    let target = reset_target(refs, mode);
    if let Ok(edits) = spec_plan_field(refs, location, mode) {
        lemma_blank_edits_blank(refs.widgets);
        let value_edit = seq![EditView::Value(refs.value_owner, target)];
        if refs.kind is Radio || refs.kind is Checkbox {
            let b = button_edits(refs.widgets, target);
            assert(edits == value_edit + b);
            assert forall|k: int| 0 <= k < edits.len() implies !asks_for_redraw(
                #[trigger] edits[k],
            ) by {
                if k > 0 {
                    assert(edits[k] == b[k - 1]);
                }
            }
        } else if is_text_like(refs.kind) {
            if restores_text(target) {
                if !same_value(refs.current_value, target) {
                    assert(asks_for_redraw(edits[1]));
                }
            } else {
                let b = blank_edits(refs.widgets);
                assert(edits == value_edit + b);
                assert forall|k: int| 0 <= k < edits.len() implies !asks_for_redraw(
                    #[trigger] edits[k],
                ) by {
                    if k > 0 {
                        assert(edits[k] == b[k - 1]);
                    }
                }
            }
        }
    }
}

// ---------------------------------------------------------------------------
// Refusing a reset
// ---------------------------------------------------------------------------

proof fn lemma_plan_refused(form: FormView, ids: Seq<ObjectId>, mode: ResetMode, n: int, k: int)
    requires
        0 <= k < n <= ids.len(),
        spec_plan_one(form, ids[k], mode) is Err,
    ensures
        spec_plan(form, ids, mode, n) is Err,
    decreases n,
{
    if k < n - 1 {
        lemma_plan_refused(form, ids, mode, n - 1, k);
    }
}

/// A reset that names a field the form does not have, or one that cannot be
/// reset, is refused as a whole: no other field is reset either.
pub proof fn law_a_refused_field_refuses_the_reset(
    d: DocView,
    ids: Seq<ObjectId>,
    mode: ResetMode,
    k: int,
)
    requires
        0 <= k < ids.len(),
        spec_read_form(d) matches Ok(form) && (field_pos(form, ids[k]) < 0
            || !form.records[field_pos(form, ids[k])].0.resettable),
    ensures
        spec_update(d, ids, mode) is Err,
{
    let form = spec_read_form(d)->Ok_0;
    lemma_plan_refused(form, ids, mode, ids.len() as int, k);
}

// ---------------------------------------------------------------------------
// What a reset touches
// ---------------------------------------------------------------------------

pub open spec fn appearance_object(a: AppearanceRef) -> ObjectId {
    match a {
        AppearanceRef::Stream(id) => id,
        AppearanceRef::InlineInWidget(id) => id,
        AppearanceRef::InlineInApDict(id) => id,
    }
}

pub open spec fn location_object(l: AcroFormLocation) -> ObjectId {
    match l {
        AcroFormLocation::Indirect(id) => id,
        AcroFormLocation::InCatalog(id) => id,
    }
}

/// The object an edit rewrites.
pub open spec fn edit_target(e: EditView) -> ObjectId {
    match e {
        EditView::Value(o, _) => o,
        EditView::AppearanceState(o, _) => o,
        EditView::BlankAppearance(a) => appearance_object(a),
        EditView::NeedAppearances(l) => location_object(l),
    }
}

/// Whether the object numbered `id` is a widget's own: the widget, or the
/// object holding its normal appearance stream.
pub open spec fn widget_holds(w: WidgetRefsView, id: ObjectId) -> bool {
    w.id == id || (w.normal_appearance matches Some(a) && appearance_object(a) == id)
}

/// Whether the object numbered `id` is one a reset of the field may rewrite:
/// the object holding its value, one of its widgets or their appearances, or
/// the form's AcroForm dictionary (flagged for a redraw).
pub open spec fn belongs_to(refs: RefsView, location: Option<AcroFormLocation>, id: ObjectId) -> bool {
    ||| id == refs.value_owner
    ||| exists|w: int| 0 <= w < refs.widgets.len() && widget_holds(#[trigger] refs.widgets[w], id)
    ||| location matches Some(l) && location_object(l) == id
}

/// Whether the object numbered `id` belongs to one of the first `n` fields
/// named by `ids`.
pub open spec fn requested_object(form: FormView, ids: Seq<ObjectId>, n: int, id: ObjectId) -> bool {
    exists|j: int|
        0 <= j < n && field_pos(form, #[trigger] ids[j]) >= 0 && belongs_to(
            form.records[field_pos(form, ids[j])].1,
            form.location,
            id,
        )
}

pub open spec fn has_id(objs: Seq<(ObjectId, Obj)>, id: ObjectId) -> bool {
    exists|j: int| 0 <= j < objs.len() && (#[trigger] objs[j]).0 == id
}

pub open spec fn from_edits(edits: Seq<EditView>, n: int, id: ObjectId) -> bool {
    exists|m: int| 0 <= m < n && edit_target(#[trigger] edits[m]) == id
}

proof fn lemma_blank_edits_targets(ws: Seq<WidgetRefsView>)
    ensures
        forall|k: int|
            0 <= k < blank_edits(ws).len() ==> exists|w: int|
                0 <= w < ws.len() && widget_holds(
                    #[trigger] ws[w],
                    edit_target(#[trigger] blank_edits(ws)[k]),
                ),
    decreases ws.len(),
{
    if ws.len() > 0 {
        let rest = ws.drop_last();
        lemma_blank_edits_targets(rest);
        let b = blank_edits(ws);
        assert forall|k: int| 0 <= k < b.len() implies exists|w: int|
            0 <= w < ws.len() && widget_holds(#[trigger] ws[w], edit_target(#[trigger] b[k])) by {
            if k < blank_edits(rest).len() {
                assert(b[k] == blank_edits(rest)[k]);
                let w = choose|w: int|
                    0 <= w < rest.len() && widget_holds(
                        #[trigger] rest[w],
                        edit_target(blank_edits(rest)[k]),
                    );
                assert(rest[w] == ws[w]);
            } else {
                assert(widget_holds(ws[ws.len() - 1], edit_target(b[k])));
            }
        }
    }
}

proof fn lemma_plan_field_targets(refs: RefsView, location: Option<AcroFormLocation>, mode: ResetMode)
    ensures
        spec_plan_field(refs, location, mode) matches Ok(edits) ==> forall|m: int|
            0 <= m < edits.len() ==> belongs_to(refs, location, edit_target(#[trigger] edits[m])),
{
    let target = reset_target(refs, mode);
    if let Ok(edits) = spec_plan_field(refs, location, mode) {
        let value_edit = seq![EditView::Value(refs.value_owner, target)];
        lemma_blank_edits_targets(refs.widgets);
        assert forall|m: int| 0 <= m < edits.len() implies belongs_to(
            refs,
            location,
            edit_target(#[trigger] edits[m]),
        ) by {
            if m > 0 {
                if refs.kind is Radio || refs.kind is Checkbox {
                    let b = button_edits(refs.widgets, target);
                    assert(edits == value_edit + b);
                    assert(edits[m] == b[m - 1]);
                    assert(widget_holds(refs.widgets[m - 1], edit_target(edits[m])));
                } else if is_text_like(refs.kind) && !restores_text(target) {
                    let b = blank_edits(refs.widgets);
                    assert(edits == value_edit + b);
                    assert(edits[m] == b[m - 1]);
                }
            }
        }
    }
}

proof fn lemma_plan_targets(form: FormView, ids: Seq<ObjectId>, mode: ResetMode, n: int)
    requires
        0 <= n <= ids.len(),
    ensures
        spec_plan(form, ids, mode, n) matches Ok(p) ==> forall|m: int|
            0 <= m < p.0.len() ==> requested_object(form, ids, n, edit_target(#[trigger] p.0[m])),
    decreases n,
{
    if n > 0 {
        lemma_plan_targets(form, ids, mode, n - 1);
        if let Ok(p) = spec_plan(form, ids, mode, n) {
            let done = spec_plan(form, ids, mode, n - 1)->Ok_0;
            let step = spec_plan_one(form, ids[n - 1], mode)->Ok_0;
            let pos = field_pos(form, ids[n - 1]);
            let refs = form.records[pos].1;
            lemma_plan_field_targets(refs, form.location, mode);
            assert(p.0 == done.0 + step.0);
            assert forall|m: int| 0 <= m < p.0.len() implies requested_object(
                form,
                ids,
                n,
                edit_target(#[trigger] p.0[m]),
            ) by {
                if m < done.0.len() {
                    assert(p.0[m] == done.0[m]);
                    assert(requested_object(form, ids, n - 1, edit_target(done.0[m])));
                } else {
                    assert(p.0[m] == step.0[m - done.0.len()]);
                    assert(belongs_to(refs, form.location, edit_target(p.0[m])));
                    assert(field_pos(form, ids[n - 1]) >= 0);
                }
            }
        }
    }
}

proof fn lemma_clone_to_new_ids(prev: Seq<(ObjectId, Obj)>, new: Seq<(ObjectId, Obj)>, id: ObjectId)
    ensures
        clone_to_new(prev, new, id) matches Ok(n) ==> forall|i: int|
            0 <= i < n.len() ==> (#[trigger] n[i]).0 == id || has_id(new, n[i].0),
{
    if let Ok(n) = clone_to_new(prev, new, id) {
        assert forall|i: int| 0 <= i < n.len() implies (#[trigger] n[i]).0 == id || has_id(
            new,
            n[i].0,
        ) by {
            if i < new.len() {
                assert(n[i] == new[i]);
            }
        }
    }
}

proof fn lemma_with_object_ids(n: Seq<(ObjectId, Obj)>, id: ObjectId, o: Obj)
    requires
        lookup(n, id) is Some,
    ensures
        forall|i: int|
            0 <= i < with_object(n, id, o).len() ==> (#[trigger] with_object(n, id, o)[i]).0 == id
                || has_id(n, with_object(n, id, o)[i].0),
{
    let w = with_object(n, id, o);
    let pos = id_pos(n, id);
    assert(is_first_id(n, id, pos));
    assert forall|i: int| 0 <= i < w.len() implies (#[trigger] w[i]).0 == id || has_id(n, w[i].0) by {
        if i != pos {
            assert(w[i] == n[i]);
        }
    }
}

proof fn lemma_edit_dict_ids(
    prev: Seq<(ObjectId, Obj)>,
    new: Seq<(ObjectId, Obj)>,
    id: ObjectId,
    f: spec_fn(DictView) -> Result<DictView, Fault>,
)
    ensures
        edit_dict(prev, new, id, f) matches Ok(r) ==> forall|i: int|
            0 <= i < r.len() ==> (#[trigger] r[i]).0 == id || has_id(new, r[i].0),
{
    if let Ok(r) = edit_dict(prev, new, id, f) {
        let n = clone_to_new(prev, new, id)->Ok_0;
        lemma_clone_to_new_ids(prev, new, id);
        let d2 = f(lookup(n, id)->Some_0->Dict_0)->Ok_0;
        lemma_with_object_ids(n, id, Obj::Dict(d2));
        assert forall|i: int| 0 <= i < r.len() implies (#[trigger] r[i]).0 == id || has_id(
            new,
            r[i].0,
        ) by {
            if r[i].0 != id {
                let j = choose|j: int| 0 <= j < n.len() && (#[trigger] n[j]).0 == r[i].0;
                assert(n[j].0 == id || has_id(new, n[j].0));
            }
        }
    }
}

proof fn lemma_apply_edit_ids(prev: Seq<(ObjectId, Obj)>, new: Seq<(ObjectId, Obj)>, e: EditView)
    ensures
        spec_apply_edit(prev, new, e) matches Ok(r) ==> forall|i: int|
            0 <= i < r.len() ==> (#[trigger] r[i]).0 == edit_target(e) || has_id(new, r[i].0),
{
    match e {
        EditView::BlankAppearance(AppearanceRef::Stream(id)) => {
            if let Ok(r) = spec_apply_edit(prev, new, e) {
                let n = clone_to_new(prev, new, id)->Ok_0;
                lemma_clone_to_new_ids(prev, new, id);
                let s = lookup(n, id)->Some_0->Stream_0;
                lemma_with_object_ids(n, id, Obj::Stream(blank_stream(s)));
                assert forall|i: int| 0 <= i < r.len() implies (#[trigger] r[i]).0 == id
                    || has_id(new, r[i].0) by {
                    if r[i].0 != id {
                        let j = choose|j: int| 0 <= j < n.len() && (#[trigger] n[j]).0 == r[i].0;
                        assert(n[j].0 == id || has_id(new, n[j].0));
                    }
                }
            }
        },
        EditView::Value(object, to) => lemma_edit_dict_ids(
            prev,
            new,
            object,
            |d: DictView| Ok(value_set(d, to)),
        ),
        EditView::AppearanceState(object, state) => lemma_edit_dict_ids(
            prev,
            new,
            object,
            |d: DictView| Ok(dict_set(d, spec_as_name(), Obj::Name(state))),
        ),
        EditView::BlankAppearance(AppearanceRef::InlineInWidget(id)) => lemma_edit_dict_ids(
            prev,
            new,
            id,
            |d: DictView| edit_in(d, spec_ap_name(), |ap: DictView| blank_in(ap, spec_n_name())),
        ),
        EditView::BlankAppearance(AppearanceRef::InlineInApDict(id)) => lemma_edit_dict_ids(
            prev,
            new,
            id,
            |d: DictView| blank_in(d, spec_n_name()),
        ),
        EditView::NeedAppearances(AcroFormLocation::Indirect(id)) => lemma_edit_dict_ids(
            prev,
            new,
            id,
            |d: DictView| Ok(dict_set(d, spec_need_appearances_name(), Obj::Boolean(true))),
        ),
        EditView::NeedAppearances(AcroFormLocation::InCatalog(id)) => lemma_edit_dict_ids(
            prev,
            new,
            id,
            |d: DictView|
                edit_in(
                    d,
                    spec_acro_form_name(),
                    |a: DictView| Ok(dict_set(a, spec_need_appearances_name(), Obj::Boolean(true))),
                ),
        ),
    }
}

proof fn lemma_apply_ids(prev: Seq<(ObjectId, Obj)>, edits: Seq<EditView>, n: int)
    requires
        0 <= n <= edits.len(),
    ensures
        spec_apply(prev, edits, n) matches Ok(new) ==> forall|i: int|
            0 <= i < new.len() ==> from_edits(edits, n, (#[trigger] new[i]).0),
    decreases n,
{
    if n > 0 {
        lemma_apply_ids(prev, edits, n - 1);
        if let Ok(r) = spec_apply(prev, edits, n) {
            let new = spec_apply(prev, edits, n - 1)->Ok_0;
            lemma_apply_edit_ids(prev, new, edits[n - 1]);
            assert forall|i: int| 0 <= i < r.len() implies from_edits(edits, n, (#[trigger] r[i]).0) by {
                if r[i].0 == edit_target(edits[n - 1]) {
                    assert(from_edits(edits, n, r[i].0));
                } else {
                    let j = choose|j: int| 0 <= j < new.len() && (#[trigger] new[j]).0 == r[i].0;
                    assert(from_edits(edits, n - 1, new[j].0));
                }
            }
        }
    }
}

proof fn lemma_changed_objects(prev: Seq<(ObjectId, Obj)>, new: Seq<(ObjectId, Obj)>)
    ensures
        forall|k: int|
            0 <= k < changed_objects(prev, new).len() ==> !unchanged(
                prev,
                #[trigger] changed_objects(prev, new)[k],
            ) && has_id(new, changed_objects(prev, new)[k].0),
    decreases new.len(),
{
    if new.len() > 0 {
        let rest = new.drop_last();
        lemma_changed_objects(prev, rest);
        let c = changed_objects(prev, new);
        assert forall|k: int| 0 <= k < c.len() implies !unchanged(prev, #[trigger] c[k]) && has_id(
            new,
            c[k].0,
        ) by {
            if k < changed_objects(prev, rest).len() {
                assert(c[k] == changed_objects(prev, rest)[k]);
                let j = choose|j: int| 0 <= j < rest.len() && (#[trigger] rest[j]).0 == c[k].0;
                assert(new[j] == rest[j]);
            } else {
                assert(c[k] == new.last());
                assert(new[new.len() - 1] == new.last());
            }
        }
    }
}

/// A reset changes the selected fields and nothing else: every object of
/// the appended revision belongs to one of the fields asked for (see
/// [`belongs_to`]), and differs from the object the file already holds
/// under its number.
pub proof fn law_only_the_selected_fields_change(d: DocView, ids: Seq<ObjectId>, mode: ResetMode)
    ensures
        spec_update(d, ids, mode) matches Ok(u) ==> spec_read_form(d) matches Ok(form)
            && forall|k: int|
            0 <= k < u.changed.len() ==> !unchanged(d.objects, #[trigger] u.changed[k])
                && requested_object(form, ids, ids.len() as int, u.changed[k].0),
{
    if let Ok(u) = spec_update(d, ids, mode) {
        let form = spec_read_form(d)->Ok_0;
        let plan = spec_plan(form, ids, mode, ids.len() as int)->Ok_0;
        let new = spec_apply(d.objects, plan.0, plan.0.len() as int)->Ok_0;
        lemma_plan_targets(form, ids, mode, ids.len() as int);
        lemma_apply_ids(d.objects, plan.0, plan.0.len() as int);
        lemma_changed_objects(d.objects, new);
        assert forall|k: int| 0 <= k < u.changed.len() implies !unchanged(
            d.objects,
            #[trigger] u.changed[k],
        ) && requested_object(form, ids, ids.len() as int, u.changed[k].0) by {
            let j = choose|j: int| 0 <= j < new.len() && (#[trigger] new[j]).0 == u.changed[k].0;
            assert(from_edits(plan.0, plan.0.len() as int, new[j].0));
            let m = choose|m: int|
                0 <= m < plan.0.len() && edit_target(#[trigger] plan.0[m]) == new[j].0;
            assert(requested_object(form, ids, ids.len() as int, edit_target(plan.0[m])));
        }
    }
}

// ---------------------------------------------------------------------------
// What a reset writes
// ---------------------------------------------------------------------------

/// Whether every dictionary a lookup finds has unique keys.
pub open spec fn lookups_unique(objs: Seq<(ObjectId, Obj)>) -> bool {
    forall|x: ObjectId| unique_if_dict(#[trigger] lookup(objs, x))
}

/// Whether an object, if it is a dictionary, has unique keys.
pub open spec fn unique_if_dict(o: Option<Obj>) -> bool {
    o matches Some(Obj::Dict(d)) ==> keys_unique(d)
}

/// The value a dictionary object holds: its /V, and the /I and /RV that
/// cache it.
pub open spec fn value_part(objs: Seq<(ObjectId, Obj)>, o: ObjectId) -> Option<
    (Option<Obj>, Option<Obj>, Option<Obj>),
> {
    match lookup(objs, o) {
        Some(Obj::Dict(d)) => Some(
            (dict_get(d, spec_v_name()), dict_get(d, spec_i_name()), dict_get(d, spec_rv_name())),
        ),
        _ => None,
    }
}

/// Whether the object `o` is a dictionary holding the value `t`, with no
/// cached copy of an older one.
pub open spec fn holds_value(objs: Seq<(ObjectId, Obj)>, o: ObjectId, t: Option<Obj>) -> bool {
    value_part(objs, o) == Some((t, None::<Obj>, None::<Obj>))
}

/// The value the last of the first `n` edits that sets the value of `o`
/// gives it, if one does.
pub open spec fn last_value(edits: Seq<EditView>, n: int, o: ObjectId) -> Option<Option<Obj>>
    decreases n,
{
    if n <= 0 || n > edits.len() {
        None
    } else if let EditView::Value(x, t) = edits[n - 1] {
        if x == o {
            Some(t)
        } else {
            last_value(edits, n - 1, o)
        }
    } else {
        last_value(edits, n - 1, o)
    }
}

/// Whether `f` keeps the keys of a dictionary unique.
pub open spec fn keeps_unique(f: spec_fn(DictView) -> Result<DictView, Fault>) -> bool {
    forall|d: DictView| keys_unique(d) && (#[trigger] f(d)) is Ok ==> keys_unique(f(d)->Ok_0)
}

/// Whether `d2` holds the same value, and cached copies, as `d`.
pub open spec fn value_kept(d: DictView, d2: DictView) -> bool {
    &&& dict_get(d2, spec_v_name()) == dict_get(d, spec_v_name())
    &&& dict_get(d2, spec_i_name()) == dict_get(d, spec_i_name())
    &&& dict_get(d2, spec_rv_name()) == dict_get(d, spec_rv_name())
}

/// Whether `d2` draws its widget in the same state as `d`.
pub open spec fn state_kept(d: DictView, d2: DictView) -> bool {
    dict_get(d2, spec_as_name()) == dict_get(d, spec_as_name())
}

/// The appearance state a dictionary object is drawn in (its /AS).
pub open spec fn state_part(objs: Seq<(ObjectId, Obj)>, o: ObjectId) -> Option<Option<Obj>> {
    match lookup(objs, o) {
        Some(Obj::Dict(d)) => Some(dict_get(d, spec_as_name())),
        _ => None,
    }
}

/// The keys an edit other than a value edit sets are none of /V, /I, /RV.
proof fn lemma_other_keys()
    ensures
        spec_as_name() != spec_v_name() && spec_as_name() != spec_i_name() && spec_as_name()
            != spec_rv_name(),
        spec_ap_name() != spec_v_name() && spec_ap_name() != spec_i_name() && spec_ap_name()
            != spec_rv_name(),
        spec_n_name() != spec_v_name() && spec_n_name() != spec_i_name() && spec_n_name()
            != spec_rv_name(),
        spec_need_appearances_name() != spec_v_name() && spec_need_appearances_name()
            != spec_i_name() && spec_need_appearances_name() != spec_rv_name(),
        spec_acro_form_name() != spec_v_name() && spec_acro_form_name() != spec_i_name()
            && spec_acro_form_name() != spec_rv_name(),
        spec_v_name() != spec_i_name() && spec_v_name() != spec_rv_name() && spec_i_name()
            != spec_rv_name(),
        spec_ap_name() != spec_as_name() && spec_n_name() != spec_as_name()
            && spec_need_appearances_name() != spec_as_name() && spec_acro_form_name()
            != spec_as_name(),
        spec_ap_name() != spec_n_name() && spec_ap_name() != spec_need_appearances_name()
            && spec_ap_name() != spec_acro_form_name(),
        spec_n_name() != spec_need_appearances_name() && spec_n_name() != spec_acro_form_name(),
{
    assert(spec_ap_name()[1] != spec_as_name()[1]);
    assert(spec_n_name().len() != spec_need_appearances_name().len());
    assert(spec_n_name().len() != spec_acro_form_name().len());
    assert(spec_ap_name().len() != spec_need_appearances_name().len());
    assert(spec_ap_name().len() != spec_acro_form_name().len());
    assert(spec_as_name()[0] != spec_rv_name()[0]);
    assert(spec_ap_name()[0] != spec_rv_name()[0]);
    assert(spec_n_name()[0] != spec_v_name()[0]);
    assert(spec_n_name()[0] != spec_i_name()[0]);
    assert(spec_v_name()[0] != spec_i_name()[0]);
}

/// Setting a key other than /V, /I and /RV keeps the keys unique and the
/// value as it was.
proof fn lemma_set_other(d: DictView, k: Seq<u8>, v: Obj)
    requires
        k != spec_v_name() && k != spec_i_name() && k != spec_rv_name() && k != spec_as_name(),
    ensures
        dict_get(dict_set(d, k, v), spec_as_name()) == dict_get(d, spec_as_name()),
        keys_unique(d) ==> keys_unique(dict_set(d, k, v)),
        dict_get(dict_set(d, k, v), spec_v_name()) == dict_get(d, spec_v_name()),
        dict_get(dict_set(d, k, v), spec_i_name()) == dict_get(d, spec_i_name()),
        dict_get(dict_set(d, k, v), spec_rv_name()) == dict_get(d, spec_rv_name()),
{
    lemma_dict_set(d, k, v);
}

/// Setting a dictionary's value writes it and drops the cached copies.
proof fn lemma_value_set(d: DictView, to: Option<Obj>)
    requires
        keys_unique(d),
    ensures
        keys_unique(value_set(d, to)),
        dict_get(value_set(d, to), spec_v_name()) == to,
        dict_get(value_set(d, to), spec_i_name()) is None,
        dict_get(value_set(d, to), spec_rv_name()) is None,
        dict_get(value_set(d, to), spec_as_name()) == dict_get(d, spec_as_name()),
{
    lemma_other_keys();
    let d1 = match to {
        Some(v) => dict_set(d, spec_v_name(), v),
        None => dict_remove(d, spec_v_name()),
    };
    match to {
        Some(v) => lemma_dict_set(d, spec_v_name(), v),
        None => lemma_dict_remove(d, spec_v_name()),
    }
    lemma_dict_remove(d1, spec_i_name());
    let d2 = dict_remove(d1, spec_i_name());
    lemma_dict_remove(d2, spec_rv_name());
}

/// Editing the dictionary `id` by `f` changes the object `id` alone: it
/// becomes what `f` makes of the dictionary found for it.
proof fn lemma_edit_dict(
    prev: Seq<(ObjectId, Obj)>,
    new: Seq<(ObjectId, Obj)>,
    id: ObjectId,
    f: spec_fn(DictView) -> Result<DictView, Fault>,
) -> (d0: DictView)
    requires
        dicts_unique(prev),
        lookups_unique(new),
        keeps_unique(f),
    ensures
        edit_dict(prev, new, id, f) matches Ok(r) ==> {
            &&& keys_unique(d0)
            &&& lookup(new, id) is Some ==> lookup(new, id) == Some(Obj::Dict(d0))
            &&& f(d0) is Ok
            &&& forall|x: ObjectId| #[trigger] lookup(r, x) == if x == id {
                Some(Obj::Dict(f(d0)->Ok_0))
            } else {
                lookup(new, x)
            }
            &&& lookups_unique(r)
        },
{
    if let Ok(r) = edit_dict(prev, new, id, f) {
        let n = clone_to_new(prev, new, id)->Ok_0;
        if lookup(new, id) is None {
            let o = get_object(prev, id)->Ok_0;
            lemma_lookup_push(new, id, o);
            lemma_get_object_source(prev, id);
            let i = choose|i: int| 0 <= i < prev.len() && (#[trigger] prev[i]).1 == o;
            assert(lookup(n, id) == Some(o));
            assert(forall|x: ObjectId| x != id ==> #[trigger] lookup(n, x) == lookup(new, x));
        }
        let d0 = lookup(n, id)->Some_0->Dict_0;
        assert(keys_unique(d0)) by {
            if lookup(new, id) is Some {
                assert(lookup(new, id) == lookup(n, id));
            }
        }
        let d2 = f(d0)->Ok_0;
        lemma_lookup_replace(n, id, Obj::Dict(d2));
        assert(r == n.update(id_pos(n, id), (id, Obj::Dict(d2))));
        assert forall|x: ObjectId| #[trigger] lookup(r, x) == if x == id {
            Some(Obj::Dict(d2))
        } else {
            lookup(new, x)
        } by {
            if x != id {
                assert(lookup(n, x) == lookup(new, x));
            }
        }
        assert forall|x: ObjectId| unique_if_dict(#[trigger] lookup(r, x)) by {
            if x != id {
                assert(lookup(new, x) == lookup(r, x));
            }
        }
        d0
    } else {
        Seq::empty()
    }
}

/// One edit: its target is the only object it changes; a value edit writes
/// its value there; any other edit leaves a value standing.
proof fn lemma_apply_edit_values(prev: Seq<(ObjectId, Obj)>, new: Seq<(ObjectId, Obj)>, e: EditView)
    requires
        dicts_unique(prev),
        lookups_unique(new),
    ensures
        spec_apply_edit(prev, new, e) matches Ok(r) ==> {
            &&& lookups_unique(r)
            &&& forall|o: ObjectId| o != edit_target(e) ==> #[trigger] lookup(r, o) == lookup(new, o)
            &&& e matches EditView::Value(x, t) ==> holds_value(r, x, t)
            &&& (!(e is Value) && value_part(new, edit_target(e)) is Some) ==> value_part(
                r,
                edit_target(e),
            ) == value_part(new, edit_target(e))
            &&& e matches EditView::AppearanceState(x, st) ==> state_part(r, x) == Some(
                Some(Obj::Name(st)),
            )
            &&& (!(e is AppearanceState) && state_part(new, edit_target(e)) is Some) ==> state_part(
                r,
                edit_target(e),
            ) == state_part(new, edit_target(e))
        },
{
    lemma_other_keys();
    if let Ok(r) = spec_apply_edit(prev, new, e) {
        match e {
            EditView::Value(object, to) => {
                let f = |d: DictView| Ok::<DictView, Fault>(value_set(d, to));
                assert forall|d: DictView| keys_unique(d) && (#[trigger] f(d)) is Ok implies keys_unique(f(d)->Ok_0) by {
                    lemma_value_set(d, to);
                }
                let d0 = lemma_edit_dict(prev, new, object, f);
                lemma_value_set(d0, to);
                assert(lookup(r, object) == Some(Obj::Dict(value_set(d0, to))));
            },
            EditView::BlankAppearance(AppearanceRef::Stream(id)) => {
                let n = clone_to_new(prev, new, id)->Ok_0;
                if lookup(new, id) is None {
                    let o = get_object(prev, id)->Ok_0;
                    lemma_lookup_push(new, id, o);
                }
                let st = lookup(n, id)->Some_0->Stream_0;
                lemma_lookup_replace(n, id, Obj::Stream(blank_stream(st)));
                assert forall|x: ObjectId| x != id implies #[trigger] lookup(r, x) == lookup(new, x) by {
                    assert(lookup(n, x) == lookup(new, x));
                }
                assert forall|x: ObjectId| unique_if_dict(#[trigger] lookup(r, x)) by {
                    if x != id {
                        assert(lookup(new, x) == lookup(r, x));
                    }
                }
                if lookup(new, id) is Some {
                    assert(n == new);
                }
            },
            EditView::AppearanceState(object, state) => {
                let f = |d: DictView| Ok::<DictView, Fault>(dict_set(d, spec_as_name(), Obj::Name(state)));
                assert forall|d: DictView| (#[trigger] f(d)) is Ok implies (keys_unique(d) ==> keys_unique(f(d)->Ok_0)) && value_kept(d, f(d)->Ok_0) by {
                    lemma_dict_set(d, spec_as_name(), Obj::Name(state));
                }
                let d0 = lemma_edit_dict(prev, new, object, f);
                lemma_dict_set(d0, spec_as_name(), Obj::Name(state));
            },
            EditView::BlankAppearance(AppearanceRef::InlineInWidget(id)) => {
                let f = |d: DictView| edit_in(d, spec_ap_name(), |ap: DictView| blank_in(ap, spec_n_name()));
                assert forall|d: DictView| (#[trigger] f(d)) is Ok implies (keys_unique(d) ==> keys_unique(f(d)->Ok_0)) && value_kept(d, f(d)->Ok_0) && state_kept(d, f(d)->Ok_0) by {
                    let inner = dict_get(d, spec_ap_name())->Some_0->Dict_0;
                    let inner2 = blank_in(inner, spec_n_name())->Ok_0;
                    lemma_set_other(d, spec_ap_name(), Obj::Dict(inner2));
                }
                let d0 = lemma_edit_dict(prev, new, id, f);
            },
            EditView::BlankAppearance(AppearanceRef::InlineInApDict(id)) => {
                let f = |d: DictView| blank_in(d, spec_n_name());
                assert forall|d: DictView| (#[trigger] f(d)) is Ok implies (keys_unique(d) ==> keys_unique(f(d)->Ok_0)) && value_kept(d, f(d)->Ok_0) && state_kept(d, f(d)->Ok_0) by {
                    let st = dict_get(d, spec_n_name())->Some_0->Stream_0;
                    lemma_set_other(d, spec_n_name(), Obj::Stream(blank_stream(st)));
                }
                let d0 = lemma_edit_dict(prev, new, id, f);
            },
            EditView::NeedAppearances(AcroFormLocation::Indirect(id)) => {
                let f = |d: DictView| Ok::<DictView, Fault>(dict_set(d, spec_need_appearances_name(), Obj::Boolean(true)));
                assert forall|d: DictView| (#[trigger] f(d)) is Ok implies (keys_unique(d) ==> keys_unique(f(d)->Ok_0)) && value_kept(d, f(d)->Ok_0) && state_kept(d, f(d)->Ok_0) by {
                    lemma_set_other(d, spec_need_appearances_name(), Obj::Boolean(true));
                }
                let d0 = lemma_edit_dict(prev, new, id, f);
            },
            EditView::NeedAppearances(AcroFormLocation::InCatalog(id)) => {
                let f = |d: DictView|
                    edit_in(
                        d,
                        spec_acro_form_name(),
                        |a: DictView| Ok(dict_set(a, spec_need_appearances_name(), Obj::Boolean(true))),
                    );
                assert forall|d: DictView| (#[trigger] f(d)) is Ok implies (keys_unique(d) ==> keys_unique(f(d)->Ok_0)) && value_kept(d, f(d)->Ok_0) && state_kept(d, f(d)->Ok_0) by {
                    let inner = dict_get(d, spec_acro_form_name())->Some_0->Dict_0;
                    let inner2 = dict_set(inner, spec_need_appearances_name(), Obj::Boolean(true));
                    lemma_set_other(d, spec_acro_form_name(), Obj::Dict(inner2));
                }
                let d0 = lemma_edit_dict(prev, new, id, f);
            },
        }
    }
}

/// Whether the object `o` holds the value `lv` names, if it names one.
pub open spec fn value_written(objs: Seq<(ObjectId, Obj)>, lv: Option<Option<Obj>>, o: ObjectId) -> bool {
    lv matches Some(t) ==> holds_value(objs, o, t)
}

/// Applying edits in order leaves every object whose value an edit sets
/// holding the value the last such edit gives it.
proof fn lemma_apply_values(prev: Seq<(ObjectId, Obj)>, edits: Seq<EditView>, n: int)
    requires
        dicts_unique(prev),
        0 <= n <= edits.len(),
    ensures
        spec_apply(prev, edits, n) matches Ok(new) ==> lookups_unique(new) && forall|o: ObjectId|
            value_written(new, #[trigger] last_value(edits, n, o), o),
    decreases n,
{
    if n == 0 {
        let empty = Seq::<(ObjectId, Obj)>::empty();
        assert forall|x: ObjectId| unique_if_dict(#[trigger] lookup(empty, x)) by {
            lemma_id_pos_range(empty, x);
        }
    } else {
        lemma_apply_values(prev, edits, n - 1);
        if let Ok(r) = spec_apply(prev, edits, n) {
            let new = spec_apply(prev, edits, n - 1)->Ok_0;
            let e = edits[n - 1];
            lemma_apply_edit_values(prev, new, e);
            assert forall|o: ObjectId| value_written(r, #[trigger] last_value(edits, n, o), o) by {
                assert(value_written(new, last_value(edits, n - 1, o), o));
                if o != edit_target(e) {
                    assert(lookup(r, o) == lookup(new, o));
                }
            }
        }
    }
}

proof fn lemma_last_value_prefix(a: Seq<EditView>, b: Seq<EditView>, o: ObjectId, k: int)
    requires
        0 <= k <= a.len(),
    ensures
        last_value(a + b, k, o) == last_value(a, k, o),
    decreases k,
{
    if k > 0 {
        lemma_last_value_prefix(a, b, o, k - 1);
        assert((a + b)[k - 1] == a[k - 1]);
    }
}

proof fn lemma_last_value_concat(a: Seq<EditView>, b: Seq<EditView>, o: ObjectId, m: int)
    requires
        0 <= m <= b.len(),
    ensures
        last_value(a + b, a.len() + m, o) == match last_value(b, m, o) {
            Some(t) => Some(t),
            None => last_value(a, a.len() as int, o),
        },
    decreases m,
{
    if m == 0 {
        lemma_last_value_prefix(a, b, o, a.len() as int);
    } else {
        lemma_last_value_concat(a, b, o, m - 1);
        assert((a + b)[a.len() + m - 1] == b[m - 1]);
    }
}

proof fn lemma_no_value_edits(b: Seq<EditView>, o: ObjectId, m: int)
    requires
        0 <= m <= b.len(),
        forall|k: int| 0 <= k < b.len() ==> !(#[trigger] b[k] is Value),
    ensures
        last_value(b, m, o) is None,
    decreases m,
{
    if m > 0 {
        lemma_no_value_edits(b, o, m - 1);
    }
}

/// A field's plan sets the value of its value owner, and of nothing else.
proof fn lemma_plan_field_value(refs: RefsView, location: Option<AcroFormLocation>, mode: ResetMode)
    ensures
        spec_plan_field(refs, location, mode) matches Ok(edits) ==> forall|o: ObjectId|
            #[trigger] last_value(edits, edits.len() as int, o) == if o == refs.value_owner {
                Some(reset_target(refs, mode))
            } else {
                None
            },
{
    let target = reset_target(refs, mode);
    if let Ok(edits) = spec_plan_field(refs, location, mode) {
        let a = seq![EditView::Value(refs.value_owner, target)];
        let b = edits.subrange(1, edits.len() as int);
        assert(edits == a + b);
        lemma_blank_edits_blank(refs.widgets);
        assert forall|k: int| 0 <= k < b.len() implies !(#[trigger] b[k] is Value) by {
            assert(b[k] == edits[k + 1]);
            if refs.kind is Radio || refs.kind is Checkbox {
                assert(edits == a + button_edits(refs.widgets, target));
                assert(edits[k + 1] == button_edits(refs.widgets, target)[k]);
            } else if is_text_like(refs.kind) && !restores_text(target) {
                assert(edits == a + blank_edits(refs.widgets));
                assert(edits[k + 1] == blank_edits(refs.widgets)[k]);
            }
        }
        assert forall|o: ObjectId| #[trigger] last_value(edits, edits.len() as int, o) == if o
            == refs.value_owner {
            Some(target)
        } else {
            None
        } by {
            lemma_no_value_edits(b, o, b.len() as int);
            lemma_last_value_concat(a, b, o, b.len() as int);
            assert(last_value(a, 0, o) is None);
            assert(edits.len() == a.len() + b.len());
        }
    }
}

/// The reference record of the field numbered `id`.
pub open spec fn field_refs(form: FormView, id: ObjectId) -> RefsView {
    form.records[field_pos(form, id)].1
}

/// Whether no field after the `j`th of the first `n` named by `ids` holds
/// its value in the same object.
pub open spec fn last_to_set(form: FormView, ids: Seq<ObjectId>, n: int, j: int) -> bool {
    forall|k: int|
        j < k < n ==> field_refs(form, #[trigger] ids[k]).value_owner != field_refs(
            form,
            ids[j],
        ).value_owner
}

proof fn lemma_plan_values(form: FormView, ids: Seq<ObjectId>, mode: ResetMode, n: int)
    requires
        0 <= n <= ids.len(),
    ensures
        spec_plan(form, ids, mode, n) matches Ok(p) ==> forall|j: int|
            0 <= j < n ==> field_pos(form, #[trigger] ids[j]) >= 0 && (last_to_set(form, ids, n, j)
                ==> last_value(p.0, p.0.len() as int, field_refs(form, ids[j]).value_owner) == Some(
                reset_target(field_refs(form, ids[j]), mode),
            )),
    decreases n,
{
    if n > 0 {
        lemma_plan_values(form, ids, mode, n - 1);
        if let Ok(p) = spec_plan(form, ids, mode, n) {
            let done = spec_plan(form, ids, mode, n - 1)->Ok_0;
            let step = spec_plan_one(form, ids[n - 1], mode)->Ok_0;
            let refs = field_refs(form, ids[n - 1]);
            lemma_plan_field_value(refs, form.location, mode);
            assert(p.0 == done.0 + step.0);
            assert forall|j: int| 0 <= j < n implies field_pos(form, #[trigger] ids[j]) >= 0 && (
            last_to_set(form, ids, n, j) ==> last_value(
                p.0,
                p.0.len() as int,
                field_refs(form, ids[j]).value_owner,
            ) == Some(reset_target(field_refs(form, ids[j]), mode))) by {
                let o = field_refs(form, ids[j]).value_owner;
                lemma_last_value_concat(done.0, step.0, o, step.0.len() as int);
                assert(p.0.len() == done.0.len() + step.0.len());
                if j < n - 1 && last_to_set(form, ids, n, j) {
                    assert(field_refs(form, ids[n - 1]).value_owner != o);
                    assert(last_to_set(form, ids, n - 1, j));
                }
            }
        }
    }
}

/// What a reset writes: in the revision it appends, the object holding the
/// value of a requested field is a dictionary whose /V is the reset's target
/// for that field (its /DV when resetting to the default, none when the
/// field has none or when clearing), and whose cached copies /I and /RV are
/// gone. Where several requested fields hold their value in one object, the
/// target of the last of them stands.
pub proof fn law_a_reset_writes_each_target(d: DocView, ids: Seq<ObjectId>, mode: ResetMode, j: int)
    requires
        dicts_unique(d.objects),
        0 <= j < ids.len(),
    ensures
        spec_revision(d, ids, mode) matches Ok(r) ==> spec_read_form(d) matches Ok(form) && (
        last_to_set(form, ids, ids.len() as int, j) ==> holds_value(
            r.1,
            field_refs(form, ids[j]).value_owner,
            reset_target(field_refs(form, ids[j]), mode),
        )),
{
    if let Ok(r) = spec_revision(d, ids, mode) {
        let form = spec_read_form(d)->Ok_0;
        let plan = spec_plan(form, ids, mode, ids.len() as int)->Ok_0;
        lemma_plan_values(form, ids, mode, ids.len() as int);
        lemma_apply_values(d.objects, plan.0, plan.0.len() as int);
        let o = field_refs(form, ids[j]).value_owner;
        assert(value_written(r.1, last_value(plan.0, plan.0.len() as int, o), o));
    }
}

// ---------------------------------------------------------------------------
// How a reset draws buttons
// ---------------------------------------------------------------------------

/// The state the last of the first `n` edits that sets the appearance state
/// of `o` gives it, if one does.
pub open spec fn last_state(edits: Seq<EditView>, n: int, o: ObjectId) -> Option<Seq<u8>>
    decreases n,
{
    if n <= 0 || n > edits.len() {
        None
    } else if let EditView::AppearanceState(x, st) = edits[n - 1] {
        if x == o {
            Some(st)
        } else {
            last_state(edits, n - 1, o)
        }
    } else {
        last_state(edits, n - 1, o)
    }
}

/// Whether the object `o` is drawn in the state `ls` names, if it names one.
pub open spec fn state_written(objs: Seq<(ObjectId, Obj)>, ls: Option<Seq<u8>>, o: ObjectId) -> bool {
    ls matches Some(st) ==> state_part(objs, o) == Some(Some(Obj::Name(st)))
}

/// Applying edits in order leaves every widget whose appearance state an
/// edit sets drawn in the state the last such edit gives it.
proof fn lemma_apply_states(prev: Seq<(ObjectId, Obj)>, edits: Seq<EditView>, n: int)
    requires
        dicts_unique(prev),
        0 <= n <= edits.len(),
    ensures
        spec_apply(prev, edits, n) matches Ok(new) ==> forall|o: ObjectId|
            state_written(new, #[trigger] last_state(edits, n, o), o),
    decreases n,
{
    if n > 0 {
        lemma_apply_states(prev, edits, n - 1);
        lemma_apply_values(prev, edits, n - 1);
        if let Ok(r) = spec_apply(prev, edits, n) {
            let new = spec_apply(prev, edits, n - 1)->Ok_0;
            let e = edits[n - 1];
            lemma_apply_edit_values(prev, new, e);
            assert forall|o: ObjectId| state_written(r, #[trigger] last_state(edits, n, o), o) by {
                assert(state_written(new, last_state(edits, n - 1, o), o));
                if o != edit_target(e) {
                    assert(lookup(r, o) == lookup(new, o));
                }
            }
        }
    }
}

proof fn lemma_last_state_prefix(a: Seq<EditView>, b: Seq<EditView>, o: ObjectId, k: int)
    requires
        0 <= k <= a.len(),
    ensures
        last_state(a + b, k, o) == last_state(a, k, o),
    decreases k,
{
    if k > 0 {
        lemma_last_state_prefix(a, b, o, k - 1);
        assert((a + b)[k - 1] == a[k - 1]);
    }
}

proof fn lemma_last_state_concat(a: Seq<EditView>, b: Seq<EditView>, o: ObjectId, m: int)
    requires
        0 <= m <= b.len(),
    ensures
        last_state(a + b, a.len() + m, o) == match last_state(b, m, o) {
            Some(st) => Some(st),
            None => last_state(a, a.len() as int, o),
        },
    decreases m,
{
    if m == 0 {
        lemma_last_state_prefix(a, b, o, a.len() as int);
    } else {
        lemma_last_state_concat(a, b, o, m - 1);
        assert((a + b)[a.len() + m - 1] == b[m - 1]);
    }
}

proof fn lemma_no_state_edits(b: Seq<EditView>, o: ObjectId, m: int)
    requires
        0 <= m <= b.len(),
        forall|k: int| 0 <= k < b.len() ==> !(#[trigger] b[k] is AppearanceState),
    ensures
        last_state(b, m, o) is None,
    decreases m,
{
    if m > 0 {
        lemma_no_state_edits(b, o, m - 1);
    }
}

/// Whether the `w`th widget is the last of the first `n` with its id.
pub open spec fn last_with_id(ws: Seq<WidgetRefsView>, n: int, w: int) -> bool {
    forall|v: int| w < v < n ==> (#[trigger] ws[v]).id != ws[w].id
}

/// Whether none of the first `n` widgets has the id `o`.
pub open spec fn no_widget(ws: Seq<WidgetRefsView>, n: int, o: ObjectId) -> bool {
    forall|v: int| 0 <= v < n ==> (#[trigger] ws[v]).id != o
}

proof fn lemma_button_edits_states(ws: Seq<WidgetRefsView>, target: Option<Obj>, m: int)
    requires
        0 <= m <= ws.len(),
    ensures
        forall|w: int|
            0 <= w < m && last_with_id(ws, m, w) ==> last_state(button_edits(ws, target), m, (
            #[trigger] ws[w]).id) == Some(button_state(target, ws[w].on_state)),
        forall|o: ObjectId| no_widget(ws, m, o) ==> #[trigger] last_state(button_edits(ws, target), m, o) is None,
    decreases m,
{
    let b = button_edits(ws, target);
    if m > 0 {
        lemma_button_edits_states(ws, target, m - 1);
        assert(b[m - 1] == EditView::AppearanceState(
            ws[m - 1].id,
            button_state(target, ws[m - 1].on_state),
        ));
        assert forall|w: int| 0 <= w < m && last_with_id(ws, m, w) implies last_state(b, m, (
        #[trigger] ws[w]).id) == Some(button_state(target, ws[w].on_state)) by {
            if w < m - 1 {
                assert(ws[m - 1].id != ws[w].id);
                assert(last_with_id(ws, m - 1, w));
            }
        }
        assert forall|o: ObjectId| no_widget(ws, m, o) implies #[trigger] last_state(b, m, o) is None by {
            assert(ws[m - 1].id != o);
            assert(no_widget(ws, m - 1, o));
            assert(last_state(b, m - 1, o) is None);
            assert(b.len() == ws.len());
        }
    }
}

/// A field's plan draws each button widget, the last with its id, in the
/// state the reset's target gives it, and draws nothing else.
proof fn lemma_plan_field_states(refs: RefsView, location: Option<AcroFormLocation>, mode: ResetMode)
    ensures
        spec_plan_field(refs, location, mode) matches Ok(edits) && {
            &&& forall|w: int|
                0 <= w < refs.widgets.len() && last_with_id(refs.widgets, refs.widgets.len() as int, w)
                    && (refs.kind is Radio || refs.kind is Checkbox) ==> last_state(
                    edits,
                    edits.len() as int,
                    (#[trigger] refs.widgets[w]).id,
                ) == Some(button_state(reset_target(refs, mode), refs.widgets[w].on_state))
            &&& forall|o: ObjectId|
                no_widget(refs.widgets, refs.widgets.len() as int, o) ==> #[trigger] last_state(
                    edits,
                    edits.len() as int,
                    o,
                ) is None
        } || spec_plan_field(refs, location, mode) is Err,
{
    let target = reset_target(refs, mode);
    if let Ok(edits) = spec_plan_field(refs, location, mode) {
        let a = seq![EditView::Value(refs.value_owner, target)];
        let b = edits.subrange(1, edits.len() as int);
        assert(edits == a + b);
        assert(edits.len() == a.len() + b.len());
        lemma_blank_edits_blank(refs.widgets);
        if refs.kind is Radio || refs.kind is Checkbox {
            assert(b == button_edits(refs.widgets, target));
            lemma_button_edits_states(refs.widgets, target, refs.widgets.len() as int);
            assert forall|o: ObjectId| #[trigger] last_state(edits, edits.len() as int, o) == last_state(
                b,
                b.len() as int,
                o,
            ) || last_state(b, b.len() as int, o) is None by {
                lemma_last_state_concat(a, b, o, b.len() as int);
            }
            assert forall|w: int|
                0 <= w < refs.widgets.len() && last_with_id(refs.widgets, refs.widgets.len() as int, w)
                    implies last_state(edits, edits.len() as int, (#[trigger] refs.widgets[w]).id)
                == Some(button_state(target, refs.widgets[w].on_state)) by {
                lemma_last_state_concat(a, b, refs.widgets[w].id, b.len() as int);
            }
            assert forall|o: ObjectId| no_widget(refs.widgets, refs.widgets.len() as int, o) implies #[trigger] last_state(
                edits,
                edits.len() as int,
                o,
            ) is None by {
                lemma_last_state_concat(a, b, o, b.len() as int);
                assert(last_state(a, 0, o) is None);
            }
        } else {
            assert forall|k: int| 0 <= k < b.len() implies !(#[trigger] b[k] is AppearanceState) by {
                assert(b[k] == edits[k + 1]);
                if is_text_like(refs.kind) && !restores_text(target) {
                    assert(edits == a + blank_edits(refs.widgets));
                    assert(edits[k + 1] == blank_edits(refs.widgets)[k]);
                }
            }
            assert forall|o: ObjectId| #[trigger] last_state(edits, edits.len() as int, o) is None by {
                lemma_no_state_edits(b, o, b.len() as int);
                lemma_last_state_concat(a, b, o, b.len() as int);
                assert(last_state(a, 0, o) is None);
            }
        }
    }
}

/// Whether no requested field after the `j`th of the first `n` has a widget
/// numbered `o`.
pub open spec fn no_later_widget(form: FormView, ids: Seq<ObjectId>, n: int, j: int, o: ObjectId) -> bool {
    forall|k: int|
        j < k < n ==> no_widget(
            field_refs(form, #[trigger] ids[k]).widgets,
            field_refs(form, ids[k]).widgets.len() as int,
            o,
        )
}

proof fn lemma_plan_states(form: FormView, ids: Seq<ObjectId>, mode: ResetMode, n: int)
    requires
        0 <= n <= ids.len(),
    ensures
        spec_plan(form, ids, mode, n) matches Ok(p) ==> forall|j: int, w: int|
            0 <= j < n && 0 <= w < field_refs(form, ids[j]).widgets.len()
                && (field_refs(form, ids[j]).kind is Radio || field_refs(form, ids[j]).kind is Checkbox)
                && last_with_id(
                field_refs(form, ids[j]).widgets,
                field_refs(form, ids[j]).widgets.len() as int,
                w,
            ) && no_later_widget(form, ids, n, j, field_refs(form, ids[j]).widgets[w].id)
                ==> last_state(
                p.0,
                p.0.len() as int,
                (#[trigger] field_refs(form, #[trigger] ids[j]).widgets[w]).id,
            ) == Some(
                button_state(
                    reset_target(field_refs(form, ids[j]), mode),
                    field_refs(form, ids[j]).widgets[w].on_state,
                ),
            ),
    decreases n,
{
    if n > 0 {
        lemma_plan_states(form, ids, mode, n - 1);
        if let Ok(p) = spec_plan(form, ids, mode, n) {
            let done = spec_plan(form, ids, mode, n - 1)->Ok_0;
            let step = spec_plan_one(form, ids[n - 1], mode)->Ok_0;
            let last = field_refs(form, ids[n - 1]);
            lemma_plan_field_states(last, form.location, mode);
            assert(p.0 == done.0 + step.0);
            assert(p.0.len() == done.0.len() + step.0.len());
            assert forall|j: int, w: int|
                0 <= j < n && 0 <= w < field_refs(form, ids[j]).widgets.len()
                    && (field_refs(form, ids[j]).kind is Radio || field_refs(form, ids[j]).kind is Checkbox)
                    && last_with_id(
                    field_refs(form, ids[j]).widgets,
                    field_refs(form, ids[j]).widgets.len() as int,
                    w,
                ) && no_later_widget(form, ids, n, j, field_refs(form, ids[j]).widgets[w].id)
                    implies last_state(
                    p.0,
                    p.0.len() as int,
                    (#[trigger] field_refs(form, #[trigger] ids[j]).widgets[w]).id,
                ) == Some(
                    button_state(
                        reset_target(field_refs(form, ids[j]), mode),
                        field_refs(form, ids[j]).widgets[w].on_state,
                    ),
                ) by {
                let o = field_refs(form, ids[j]).widgets[w].id;
                lemma_last_state_concat(done.0, step.0, o, step.0.len() as int);
                if j < n - 1 {
                    assert(no_widget(last.widgets, last.widgets.len() as int, o));
                    assert(no_later_widget(form, ids, n - 1, j, o));
                }
            }
        }
    }
}

/// How a reset draws buttons: in the revision it appends, each widget of a
/// requested radio group or checkbox is drawn in the state the field's new
/// value names, its own on-state when the value is that state's name and
/// /Off otherwise; unless a requested field after it has the same widget,
/// or the field lists the widget again, whose state then stands.
pub proof fn law_buttons_are_drawn_as_their_value(
    d: DocView,
    ids: Seq<ObjectId>,
    mode: ResetMode,
    j: int,
    w: int,
)
    requires
        dicts_unique(d.objects),
        0 <= j < ids.len(),
    ensures
        spec_revision(d, ids, mode) matches Ok(r) ==> spec_read_form(d) matches Ok(form) && ({
            let refs = field_refs(form, ids[j]);
            (0 <= w < refs.widgets.len() && (refs.kind is Radio || refs.kind is Checkbox)
                && last_with_id(refs.widgets, refs.widgets.len() as int, w) && no_later_widget(
                form,
                ids,
                ids.len() as int,
                j,
                refs.widgets[w].id,
            )) ==> state_part(r.1, refs.widgets[w].id) == Some(
                Some(Obj::Name(button_state(reset_target(refs, mode), refs.widgets[w].on_state))),
            )
        }),
{
    if let Ok(r) = spec_revision(d, ids, mode) {
        let form = spec_read_form(d)->Ok_0;
        let plan = spec_plan(form, ids, mode, ids.len() as int)->Ok_0;
        lemma_plan_states(form, ids, mode, ids.len() as int);
        lemma_apply_states(d.objects, plan.0, plan.0.len() as int);
        let refs = field_refs(form, ids[j]);
        if 0 <= w < refs.widgets.len() {
            let o = refs.widgets[w].id;
            assert(state_written(r.1, last_state(plan.0, plan.0.len() as int, o), o));
        }
    }
}

// ---------------------------------------------------------------------------
// How a reset blanks text
// ---------------------------------------------------------------------------

/// Whether `d2` holds what `d` holds under every key outside `ks`.
pub open spec fn kept_except(d: DictView, d2: DictView, ks: Set<Seq<u8>>) -> bool {
    forall|k: Seq<u8>| !ks.contains(k) ==> #[trigger] dict_get(d2, k) == dict_get(d, k)
}

/// The keys of a dictionary an edit sets or removes.
pub open spec fn edit_keys(e: EditView) -> Set<Seq<u8>> {
    match e {
        EditView::Value(_, _) => set![spec_v_name(), spec_i_name(), spec_rv_name()],
        EditView::AppearanceState(_, _) => set![spec_as_name()],
        EditView::BlankAppearance(AppearanceRef::InlineInWidget(_)) => set![spec_ap_name()],
        EditView::BlankAppearance(_) => set![spec_n_name()],
        EditView::NeedAppearances(AcroFormLocation::Indirect(_)) => set![spec_need_appearances_name()],
        EditView::NeedAppearances(AcroFormLocation::InCatalog(_)) => set![spec_acro_form_name()],
    }
}

/// Whether a stream object is there with no content.
pub open spec fn blank_stream_obj(o: Option<Obj>) -> bool {
    o matches Some(Obj::Stream(st)) && st.content.len() == 0
}

/// Whether the appearance `a` is there, emptied: the stream itself, or the
/// stream under /N of the appearance dictionary it sits in.
pub open spec fn appearance_blank(objs: Seq<(ObjectId, Obj)>, a: AppearanceRef) -> bool {
    match a {
        AppearanceRef::Stream(id) => blank_stream_obj(lookup(objs, id)),
        AppearanceRef::InlineInWidget(id) => match lookup(objs, id) {
            Some(Obj::Dict(w)) => match dict_get(w, spec_ap_name()) {
                Some(Obj::Dict(ap)) => blank_stream_obj(dict_get(ap, spec_n_name())),
                _ => false,
            },
            _ => false,
        },
        AppearanceRef::InlineInApDict(id) => match lookup(objs, id) {
            Some(Obj::Dict(ap)) => blank_stream_obj(dict_get(ap, spec_n_name())),
            _ => false,
        },
    }
}

/// Whether a dictionary object, if it was one, is still one and holds what
/// it held outside the keys `ks`.
pub open spec fn dict_edited(before: Option<Obj>, after: Option<Obj>, ks: Set<Seq<u8>>) -> bool {
    match before {
        Some(Obj::Dict(d)) => after matches Some(Obj::Dict(d2)) && kept_except(d, d2, ks),
        Some(_) => false,
        None => true,
    }
}

proof fn lemma_set_kept(d: DictView, k: Seq<u8>, v: Obj)
    ensures
        kept_except(d, dict_set(d, k, v), set![k]),
        dict_get(dict_set(d, k, v), k) == Some(v),
        keys_unique(d) ==> keys_unique(dict_set(d, k, v)),
{
    lemma_dict_set(d, k, v);
}

/// One edit, key by key: the object it edits keeps every key the edit does
/// not set, and a blanking edit leaves its appearance empty.
proof fn lemma_apply_edit_keys(prev: Seq<(ObjectId, Obj)>, new: Seq<(ObjectId, Obj)>, e: EditView)
    requires
        dicts_unique(prev),
        lookups_unique(new),
    ensures
        spec_apply_edit(prev, new, e) matches Ok(r) ==> {
            &&& !(e matches EditView::BlankAppearance(AppearanceRef::Stream(_))) ==> dict_edited(
                lookup(new, edit_target(e)),
                lookup(r, edit_target(e)),
                edit_keys(e),
            )
            &&& e matches EditView::BlankAppearance(AppearanceRef::Stream(_)) ==> !(lookup(
                new,
                edit_target(e),
            ) matches Some(Obj::Dict(_)))
            &&& e matches EditView::BlankAppearance(a) ==> appearance_blank(r, a)
        },
{
    lemma_other_keys();
    if let Ok(r) = spec_apply_edit(prev, new, e) {
        match e {
            EditView::Value(object, to) => {
                let f = |d: DictView| Ok::<DictView, Fault>(value_set(d, to));
                assert forall|d: DictView| keys_unique(d) && (#[trigger] f(d)) is Ok implies keys_unique(f(d)->Ok_0) by {
                    lemma_value_set(d, to);
                }
                let d0 = lemma_edit_dict(prev, new, object, f);
                let d1 = match to {
                    Some(v) => dict_set(d0, spec_v_name(), v),
                    None => dict_remove(d0, spec_v_name()),
                };
                match to {
                    Some(v) => lemma_dict_set(d0, spec_v_name(), v),
                    None => lemma_dict_remove(d0, spec_v_name()),
                }
                lemma_dict_remove(d1, spec_i_name());
                lemma_dict_remove(dict_remove(d1, spec_i_name()), spec_rv_name());
                assert(kept_except(d0, value_set(d0, to), edit_keys(e)));
            },
            EditView::BlankAppearance(AppearanceRef::Stream(id)) => {
                let n = clone_to_new(prev, new, id)->Ok_0;
                if lookup(new, id) is None {
                    let o = get_object(prev, id)->Ok_0;
                    lemma_lookup_push(new, id, o);
                }
                let st = lookup(n, id)->Some_0->Stream_0;
                lemma_lookup_replace(n, id, Obj::Stream(blank_stream(st)));
                if lookup(new, id) is Some {
                    assert(n == new);
                }
            },
            EditView::AppearanceState(object, state) => {
                let f = |d: DictView| Ok::<DictView, Fault>(dict_set(d, spec_as_name(), Obj::Name(state)));
                assert forall|d: DictView| keys_unique(d) && (#[trigger] f(d)) is Ok implies keys_unique(f(d)->Ok_0) by {
                    lemma_set_kept(d, spec_as_name(), Obj::Name(state));
                }
                let d0 = lemma_edit_dict(prev, new, object, f);
                lemma_set_kept(d0, spec_as_name(), Obj::Name(state));
            },
            EditView::BlankAppearance(AppearanceRef::InlineInWidget(id)) => {
                let f = |d: DictView| edit_in(d, spec_ap_name(), |ap: DictView| blank_in(ap, spec_n_name()));
                assert forall|d: DictView| keys_unique(d) && (#[trigger] f(d)) is Ok implies keys_unique(f(d)->Ok_0) by {
                    let inner = dict_get(d, spec_ap_name())->Some_0->Dict_0;
                    let inner2 = blank_in(inner, spec_n_name())->Ok_0;
                    lemma_set_kept(d, spec_ap_name(), Obj::Dict(inner2));
                }
                let d0 = lemma_edit_dict(prev, new, id, f);
                let inner = dict_get(d0, spec_ap_name())->Some_0->Dict_0;
                let st = dict_get(inner, spec_n_name())->Some_0->Stream_0;
                let inner2 = dict_set(inner, spec_n_name(), Obj::Stream(blank_stream(st)));
                lemma_set_kept(inner, spec_n_name(), Obj::Stream(blank_stream(st)));
                lemma_set_kept(d0, spec_ap_name(), Obj::Dict(inner2));
            },
            EditView::BlankAppearance(AppearanceRef::InlineInApDict(id)) => {
                let f = |d: DictView| blank_in(d, spec_n_name());
                assert forall|d: DictView| keys_unique(d) && (#[trigger] f(d)) is Ok implies keys_unique(f(d)->Ok_0) by {
                    let st = dict_get(d, spec_n_name())->Some_0->Stream_0;
                    lemma_set_kept(d, spec_n_name(), Obj::Stream(blank_stream(st)));
                }
                let d0 = lemma_edit_dict(prev, new, id, f);
                let st = dict_get(d0, spec_n_name())->Some_0->Stream_0;
                lemma_set_kept(d0, spec_n_name(), Obj::Stream(blank_stream(st)));
            },
            EditView::NeedAppearances(AcroFormLocation::Indirect(id)) => {
                let f = |d: DictView| Ok::<DictView, Fault>(dict_set(d, spec_need_appearances_name(), Obj::Boolean(true)));
                assert forall|d: DictView| keys_unique(d) && (#[trigger] f(d)) is Ok implies keys_unique(f(d)->Ok_0) by {
                    lemma_set_kept(d, spec_need_appearances_name(), Obj::Boolean(true));
                }
                let d0 = lemma_edit_dict(prev, new, id, f);
                lemma_set_kept(d0, spec_need_appearances_name(), Obj::Boolean(true));
            },
            EditView::NeedAppearances(AcroFormLocation::InCatalog(id)) => {
                let f = |d: DictView|
                    edit_in(
                        d,
                        spec_acro_form_name(),
                        |a: DictView| Ok(dict_set(a, spec_need_appearances_name(), Obj::Boolean(true))),
                    );
                assert forall|d: DictView| keys_unique(d) && (#[trigger] f(d)) is Ok implies keys_unique(f(d)->Ok_0) by {
                    let inner = dict_get(d, spec_acro_form_name())->Some_0->Dict_0;
                    let inner2 = dict_set(inner, spec_need_appearances_name(), Obj::Boolean(true));
                    lemma_set_kept(d, spec_acro_form_name(), Obj::Dict(inner2));
                }
                let d0 = lemma_edit_dict(prev, new, id, f);
                let inner = dict_get(d0, spec_acro_form_name())->Some_0->Dict_0;
                let inner2 = dict_set(inner, spec_need_appearances_name(), Obj::Boolean(true));
                lemma_set_kept(d0, spec_acro_form_name(), Obj::Dict(inner2));
            },
        }
    }
}

/// A blanked appearance stays blank whatever edit follows.
proof fn lemma_blank_kept(
    prev: Seq<(ObjectId, Obj)>,
    new: Seq<(ObjectId, Obj)>,
    e: EditView,
    a: AppearanceRef,
)
    requires
        dicts_unique(prev),
        lookups_unique(new),
        appearance_blank(new, a),
    ensures
        spec_apply_edit(prev, new, e) matches Ok(r) ==> appearance_blank(r, a),
{
    lemma_other_keys();
    lemma_apply_edit_values(prev, new, e);
    lemma_apply_edit_keys(prev, new, e);
    if let Ok(r) = spec_apply_edit(prev, new, e) {
        let id = appearance_object(a);
        if edit_target(e) != id {
            assert(lookup(r, id) == lookup(new, id));
        } else {
            match a {
                AppearanceRef::Stream(_) => {
                    if let EditView::BlankAppearance(AppearanceRef::Stream(x)) = e {
                        assert(e == EditView::BlankAppearance(a));
                    } else {
                        assert(dict_edited(lookup(new, id), lookup(r, id), edit_keys(e)));
                        assert(false);
                    }
                },
                AppearanceRef::InlineInWidget(_) => {
                    let w = lookup(new, id)->Some_0->Dict_0;
                    assert(dict_edited(lookup(new, id), lookup(r, id), edit_keys(e)));
                    let w2 = lookup(r, id)->Some_0->Dict_0;
                    if let EditView::BlankAppearance(AppearanceRef::InlineInWidget(x)) = e {
                        assert(e == EditView::BlankAppearance(a));
                    } else {
                        assert(!edit_keys(e).contains(spec_ap_name()));
                        assert(dict_get(w2, spec_ap_name()) == dict_get(w, spec_ap_name()));
                    }
                },
                AppearanceRef::InlineInApDict(_) => {
                    let ap = lookup(new, id)->Some_0->Dict_0;
                    assert(dict_edited(lookup(new, id), lookup(r, id), edit_keys(e)));
                    let ap2 = lookup(r, id)->Some_0->Dict_0;
                    if let EditView::BlankAppearance(AppearanceRef::InlineInApDict(x)) = e {
                        assert(e == EditView::BlankAppearance(a));
                    } else if let EditView::BlankAppearance(AppearanceRef::Stream(x)) = e {
                        assert(lookup(new, edit_target(e)) matches Some(Obj::Dict(_)));
                    } else {
                        assert(!edit_keys(e).contains(spec_n_name()));
                        assert(dict_get(ap2, spec_n_name()) == dict_get(ap, spec_n_name()));
                    }
                },
            }
        }
    }
}

/// Whether the edit `e`, if it blanks an appearance, finds it blank.
pub open spec fn blanked(objs: Seq<(ObjectId, Obj)>, e: EditView) -> bool {
    e matches EditView::BlankAppearance(a) ==> appearance_blank(objs, a)
}

/// Applying edits in order leaves every appearance an edit blanks blank.
proof fn lemma_apply_blanks(prev: Seq<(ObjectId, Obj)>, edits: Seq<EditView>, n: int)
    requires
        dicts_unique(prev),
        0 <= n <= edits.len(),
    ensures
        spec_apply(prev, edits, n) matches Ok(new) ==> forall|m: int|
            0 <= m < n ==> blanked(new, #[trigger] edits[m]),
    decreases n,
{
    if n > 0 {
        lemma_apply_blanks(prev, edits, n - 1);
        lemma_apply_values(prev, edits, n - 1);
        if let Ok(r) = spec_apply(prev, edits, n) {
            let new = spec_apply(prev, edits, n - 1)->Ok_0;
            lemma_apply_edit_keys(prev, new, edits[n - 1]);
            assert forall|m: int| 0 <= m < n implies blanked(r, #[trigger] edits[m]) by {
                if m < n - 1 {
                    if let EditView::BlankAppearance(a) = edits[m] {
                        lemma_blank_kept(prev, new, edits[n - 1], a);
                    }
                }
            }
        }
    }
}

proof fn lemma_blank_edits_cover(ws: Seq<WidgetRefsView>)
    ensures
        forall|w: int|
            0 <= w < ws.len() && (#[trigger] ws[w]).normal_appearance is Some ==> exists|k: int|
                0 <= k < blank_edits(ws).len() && blank_edits(ws)[k] == EditView::BlankAppearance(
                    ws[w].normal_appearance->Some_0,
                ),
    decreases ws.len(),
{
    if ws.len() > 0 {
        let rest = ws.drop_last();
        lemma_blank_edits_cover(rest);
        let b = blank_edits(ws);
        assert forall|w: int| 0 <= w < ws.len() && (#[trigger] ws[w]).normal_appearance is Some implies exists|k: int|
            0 <= k < b.len() && b[k] == EditView::BlankAppearance(ws[w].normal_appearance->Some_0) by {
            if w < ws.len() - 1 {
                assert(rest[w] == ws[w]);
                let k = choose|k: int|
                    0 <= k < blank_edits(rest).len() && blank_edits(rest)[k]
                        == EditView::BlankAppearance(rest[w].normal_appearance->Some_0);
                assert(b[k] == blank_edits(rest)[k]);
            } else {
                assert(b[b.len() - 1] == EditView::BlankAppearance(ws[w].normal_appearance->Some_0));
            }
        }
    }
}

/// Whether a reset leaves a field without text to draw: a text, dropdown or
/// list field whose reset puts no text back.
pub open spec fn left_without_text(refs: RefsView, mode: ResetMode) -> bool {
    is_text_like(refs.kind) && !restores_text(reset_target(refs, mode))
}

proof fn lemma_plan_blanks(form: FormView, ids: Seq<ObjectId>, mode: ResetMode, n: int)
    requires
        0 <= n <= ids.len(),
    ensures
        spec_plan(form, ids, mode, n) matches Ok(p) ==> forall|j: int, w: int|
            0 <= j < n && left_without_text(field_refs(form, ids[j]), mode) && 0 <= w < field_refs(
                form,
                ids[j],
            ).widgets.len() && (#[trigger] field_refs(form, #[trigger] ids[j]).widgets[w]).normal_appearance is Some
                ==> exists|m: int|
                0 <= m < p.0.len() && p.0[m] == EditView::BlankAppearance(
                    field_refs(form, ids[j]).widgets[w].normal_appearance->Some_0,
                ),
    decreases n,
{
    if n > 0 {
        lemma_plan_blanks(form, ids, mode, n - 1);
        if let Ok(p) = spec_plan(form, ids, mode, n) {
            let done = spec_plan(form, ids, mode, n - 1)->Ok_0;
            let step = spec_plan_one(form, ids[n - 1], mode)->Ok_0;
            let last = field_refs(form, ids[n - 1]);
            assert(p.0 == done.0 + step.0);
            lemma_blank_edits_cover(last.widgets);
            assert forall|j: int, w: int|
                0 <= j < n && left_without_text(field_refs(form, ids[j]), mode) && 0 <= w < field_refs(
                    form,
                    ids[j],
                ).widgets.len() && (#[trigger] field_refs(form, #[trigger] ids[j]).widgets[w]).normal_appearance is Some
                    implies exists|m: int|
                    0 <= m < p.0.len() && p.0[m] == EditView::BlankAppearance(
                        field_refs(form, ids[j]).widgets[w].normal_appearance->Some_0,
                    ) by {
                let a = field_refs(form, ids[j]).widgets[w].normal_appearance->Some_0;
                if j < n - 1 {
                    let m = choose|m: int|
                        0 <= m < done.0.len() && done.0[m] == EditView::BlankAppearance(a);
                    assert(p.0[m] == done.0[m]);
                } else {
                    let target = reset_target(last, mode);
                    let value_edit = seq![EditView::Value(last.value_owner, target)];
                    assert(step.0 == value_edit + blank_edits(last.widgets));
                    let k = choose|k: int|
                        0 <= k < blank_edits(last.widgets).len() && blank_edits(last.widgets)[k]
                            == EditView::BlankAppearance(a);
                    assert(p.0[done.0.len() + 1 + k] == EditView::BlankAppearance(a));
                }
            }
        }
    }
}

/// How a reset blanks text: in the revision it appends, every normal
/// appearance stream of the widgets of a requested text, dropdown or list
/// field that the reset leaves without text is there with no content; the
/// stream object, and the dictionary it sits in, are kept.
pub proof fn law_text_left_empty_is_not_drawn(
    d: DocView,
    ids: Seq<ObjectId>,
    mode: ResetMode,
    j: int,
    w: int,
)
    requires
        dicts_unique(d.objects),
        0 <= j < ids.len(),
    ensures
        spec_revision(d, ids, mode) matches Ok(r) ==> spec_read_form(d) matches Ok(form) && ({
            let refs = field_refs(form, ids[j]);
            (left_without_text(refs, mode) && 0 <= w < refs.widgets.len()
                && refs.widgets[w].normal_appearance is Some) ==> appearance_blank(
                r.1,
                refs.widgets[w].normal_appearance->Some_0,
            )
        }),
{
    if let Ok(r) = spec_revision(d, ids, mode) {
        let form = spec_read_form(d)->Ok_0;
        let plan = spec_plan(form, ids, mode, ids.len() as int)->Ok_0;
        lemma_plan_blanks(form, ids, mode, ids.len() as int);
        lemma_apply_blanks(d.objects, plan.0, plan.0.len() as int);
        let refs = field_refs(form, ids[j]);
        if left_without_text(refs, mode) && 0 <= w < refs.widgets.len()
            && refs.widgets[w].normal_appearance is Some {
            let a = refs.widgets[w].normal_appearance->Some_0;
            assert(refs.widgets[w] == field_refs(form, ids[j]).widgets[w]);
            let m = choose|m: int| 0 <= m < plan.0.len() && plan.0[m] == EditView::BlankAppearance(a);
            assert(blanked(r.1, plan.0[m]));
        }
    }
}

// ---------------------------------------------------------------------------
// What a reset reports, and when its two modes agree
// ---------------------------------------------------------------------------

/// An encrypted document is refused whatever is asked of it.
pub proof fn law_an_encrypted_document_is_refused(d: DocView, ids: Seq<ObjectId>, mode: ResetMode)
    requires
        spec_is_encrypted(d),
    ensures
        spec_update(d, ids, mode) == Err::<UpdateView, Failure>(Failure::Encrypted),
{
}

proof fn lemma_plan_names(form: FormView, ids: Seq<ObjectId>, mode: ResetMode, n: int)
    requires
        0 <= n <= ids.len(),
    ensures
        spec_plan(form, ids, mode, n) matches Ok(p) ==> p.1.len() == n && forall|j: int|
            0 <= j < n ==> p.1[j] == form.records[field_pos(form, #[trigger] ids[j])].0.name,
    decreases n,
{
    if n > 0 {
        lemma_plan_names(form, ids, mode, n - 1);
    }
}

/// A reset names the fields it reset in the order they were asked for: the
/// `j`th name is the name of the field numbered by the `j`th id.
pub proof fn law_the_report_names_the_fields_in_order(d: DocView, ids: Seq<ObjectId>, mode: ResetMode)
    ensures
        spec_update(d, ids, mode) matches Ok(u) ==> spec_read_form(d) matches Ok(form)
            && u.names.len() == ids.len() && forall|j: int|
            0 <= j < ids.len() ==> u.names[j] == form.records[field_pos(
                form,
                #[trigger] ids[j],
            )].0.name,
{
    if let Ok(u) = spec_update(d, ids, mode) {
        let form = spec_read_form(d)->Ok_0;
        lemma_plan_names(form, ids, mode, ids.len() as int);
    }
}

/// Whether every field named by the first `n` of `ids` that the form has
/// lacks a default value.
pub open spec fn no_defaults(form: FormView, ids: Seq<ObjectId>, n: int) -> bool {
    forall|j: int|
        0 <= j < n && field_pos(form, #[trigger] ids[j]) >= 0 ==> field_refs(form, ids[j]).default_value
            is None
}

proof fn lemma_plan_modes_agree(form: FormView, ids: Seq<ObjectId>, n: int)
    requires
        0 <= n <= ids.len(),
        no_defaults(form, ids, n),
    ensures
        spec_plan(form, ids, ResetMode::Default, n) == spec_plan(form, ids, ResetMode::Clear, n),
    decreases n,
{
    if n > 0 {
        lemma_plan_modes_agree(form, ids, n - 1);
        let refs = field_refs(form, ids[n - 1]);
        if field_pos(form, ids[n - 1]) >= 0 {
            assert(reset_target(refs, ResetMode::Default) == reset_target(refs, ResetMode::Clear));
            assert(spec_plan_field(refs, form.location, ResetMode::Default) == spec_plan_field(
                refs,
                form.location,
                ResetMode::Clear,
            ));
        }
    }
}

/// Where no field asked for has a default value, resetting to the default
/// and clearing are the same thing.
pub proof fn law_without_a_default_reset_and_clear_agree(d: DocView, ids: Seq<ObjectId>)
    requires
        spec_read_form(d) matches Ok(form) ==> no_defaults(form, ids, ids.len() as int),
    ensures
        spec_update(d, ids, ResetMode::Default) == spec_update(d, ids, ResetMode::Clear),
{
    if let Ok(form) = spec_read_form(d) {
        lemma_plan_modes_agree(form, ids, ids.len() as int);
    }
}

proof fn lemma_changed_objects_keep(prev: Seq<(ObjectId, Obj)>, new: Seq<(ObjectId, Obj)>)
    ensures
        forall|i: int|
            0 <= i < new.len() ==> unchanged(prev, #[trigger] new[i]) || changed_objects(
                prev,
                new,
            ).contains(new[i]),
    decreases new.len(),
{
    if new.len() > 0 {
        let rest = new.drop_last();
        lemma_changed_objects_keep(prev, rest);
        let c = changed_objects(prev, new);
        let cr = changed_objects(prev, rest);
        assert forall|i: int| 0 <= i < new.len() implies unchanged(prev, #[trigger] new[i]) || c.contains(
            new[i],
        ) by {
            if i < rest.len() {
                assert(new[i] == rest[i]);
                if cr.contains(rest[i]) {
                    let k = choose|k: int| 0 <= k < cr.len() && cr[k] == rest[i];
                    assert(c[k] == cr[k]);
                }
            } else if !unchanged(prev, new[i]) {
                assert(c[c.len() - 1] == new[i]);
            }
        }
    }
}

/// The revision a reset appends holds every object of its revision that
/// differs from the file's, as it is; the others are identical to the file's.
pub proof fn law_the_update_appends_every_change(d: DocView, ids: Seq<ObjectId>, mode: ResetMode)
    ensures
        spec_revision(d, ids, mode) matches Ok(r) ==> spec_update(d, ids, mode) matches Ok(u)
            && forall|i: int|
            0 <= i < r.1.len() ==> unchanged(d.objects, #[trigger] r.1[i]) || u.changed.contains(
                r.1[i],
            ),
{
    if let Ok(r) = spec_revision(d, ids, mode) {
        lemma_changed_objects_keep(d.objects, r.1);
    }
}

// ---------------------------------------------------------------------------
// Each field, addressed by its own id
// ---------------------------------------------------------------------------

/// Whether the ids of some emissions are distinct, none of them among
/// `before`, and all of them among `after`.
pub open spec fn fresh_ids(ems: Seq<Emission>, before: Set<ObjectId>, after: Set<ObjectId>) -> bool {
    &&& before.subset_of(after)
    &&& forall|i: int| 0 <= i < ems.len() ==> after.contains(#[trigger] ems[i].id) && !before.contains(ems[i].id)
    &&& forall|i: int, j: int| 0 <= i < j < ems.len() ==> #[trigger] ems[i].id != #[trigger] ems[j].id
}

pub proof fn lemma_walk_fresh(
    objs: Seq<(ObjectId, Obj)>,
    id: ObjectId,
    parent: InheritedView,
    prefix: Option<Seq<char>>,
    depth: int,
    seen: Set<ObjectId>,
)
    ensures
        fresh_ids(
            walk(objs, id, parent, prefix, depth, seen).0,
            seen,
            walk(objs, id, parent, prefix, depth, seen).1,
        ),
    decreases MAX_DEPTH + 2 - depth, 0int,
{
    if !(depth > MAX_DEPTH || depth < 0 || seen.contains(id)) {
        let seen1 = seen.insert(id);
        if let Ok(dict) = get_dictionary(objs, id) {
            let state = inherit(objs, id, dict, parent);
            let name = field_name(dict, prefix);
            let kids = kids_of(objs, dict);
            let children = split_kids(objs, kids, true);
            lemma_walk_list_fresh(objs, children, state, Some(name), depth + 1, seen1, children.len() as int);
        }
    }
}

pub proof fn lemma_walk_list_fresh(
    objs: Seq<(ObjectId, Obj)>,
    ids: Seq<ObjectId>,
    parent: InheritedView,
    prefix: Option<Seq<char>>,
    depth: int,
    seen: Set<ObjectId>,
    n: int,
)
    ensures
        fresh_ids(
            walk_list(objs, ids, parent, prefix, depth, seen, n).0,
            seen,
            walk_list(objs, ids, parent, prefix, depth, seen, n).1,
        ),
    decreases MAX_DEPTH + 2 - depth, n + 1,
{
    if !(n <= 0 || n > ids.len() || depth > MAX_DEPTH + 1) {
        let before = walk_list(objs, ids, parent, prefix, depth, seen, n - 1);
        lemma_walk_list_fresh(objs, ids, parent, prefix, depth, seen, n - 1);
        let last = walk(objs, ids[n - 1], parent, prefix, depth, before.1);
        lemma_walk_fresh(objs, ids[n - 1], parent, prefix, depth, before.1);
        let all = before.0 + last.0;
        assert forall|i: int, j: int| 0 <= i < j < all.len() implies #[trigger] all[i].id
            != #[trigger] all[j].id by {
            if j < before.0.len() {
                assert(all[i] == before.0[i] && all[j] == before.0[j]);
            } else if i >= before.0.len() {
                assert(all[i] == last.0[i - before.0.len()] && all[j] == last.0[j - before.0.len()]);
            } else {
                assert(all[i] == before.0[i] && all[j] == last.0[j - before.0.len()]);
            }
        }
        assert forall|i: int| 0 <= i < all.len() implies last.1.contains(#[trigger] all[i].id)
            && !seen.contains(all[i].id) by {
            if i < before.0.len() {
                assert(all[i] == before.0[i]);
            } else {
                assert(all[i] == last.0[i - before.0.len()]);
            }
        }
    }
}

proof fn lemma_first_field(form: FormView, id: ObjectId, i: int)
    requires
        is_first_field(form, id, i),
    ensures
        field_pos(form, id) == i,
{
    let j = choose|j: int| is_first_field(form, id, j);
    assert(is_first_field(form, id, j));
    if j < i {
        assert(form.records[j].1.field != id);
    }
    if i < j {
        assert(form.records[i].1.field != id);
    }
}

proof fn lemma_form_from_ids(d: DocView, acro: DictView, location: AcroFormLocation)
    ensures
        forall|i: int|
            0 <= i < form_from(d, acro, location).records.len() ==> field_pos(
                form_from(d, acro, location),
                (#[trigger] form_from(d, acro, location).records[i]).1.field,
            ) == i,
{
    let form = form_from(d, acro, location);
    let roots = field_roots(d.objects, acro);
    let ems = walk_list(d.objects, roots, no_inheritance(), None, 0, Set::empty(), roots.len() as int).0;
    lemma_walk_list_fresh(d.objects, roots, no_inheritance(), None, 0, Set::empty(), roots.len() as int);
    assert(form.records == emit_all(d.objects, d.pages, ems));
    assert forall|i: int| 0 <= i < form.records.len() implies field_pos(
        form,
        (#[trigger] form.records[i]).1.field,
    ) == i by {
        assert(form.records[i].1.field == ems[i].id);
        assert forall|j: int| 0 <= j < i implies form.records[j].1.field != ems[i].id by {
            assert(form.records[j].1.field == ems[j].id);
        }
        lemma_first_field(form, ems[i].id, i);
    }
}

/// Every field a form reports is reached by its own id: no two fields are
/// the same object, so a reset asked for the object of the `i`th field
/// resets that field and no other.
pub proof fn law_each_field_is_reached_by_its_own_id(d: DocView)
    ensures
        spec_read_form(d) matches Ok(form) ==> forall|i: int|
            0 <= i < form.records.len() ==> field_pos(form, (#[trigger] form.records[i]).1.field) == i,
{
    match dict_get(d.trailer, spec_root_name()) {
        Some(Obj::Reference(catalog_id)) => match get_dictionary(d.objects, catalog_id) {
            Ok(catalog) => match dict_get(catalog, spec_acro_form_name()) {
                Some(Obj::Reference(acro_id)) => match get_dictionary(d.objects, acro_id) {
                    Ok(acro) => lemma_form_from_ids(d, acro, AcroFormLocation::Indirect(acro_id)),
                    Err(_) => {},
                },
                Some(Obj::Dict(acro)) => lemma_form_from_ids(
                    d,
                    acro,
                    AcroFormLocation::InCatalog(catalog_id),
                ),
                _ => {},
            },
            Err(_) => {},
        },
        _ => {},
    }
}

// ---------------------------------------------------------------------------
// When /NeedAppearances is reported
// ---------------------------------------------------------------------------

/// Whether resetting the field puts text back into a text or choice field
/// whose value changes.
pub open spec fn redraws(refs: RefsView, mode: ResetMode) -> bool {
    &&& is_text_like(refs.kind)
    &&& restores_text(reset_target(refs, mode))
    &&& !same_value(refs.current_value, reset_target(refs, mode))
}

proof fn lemma_plans_redraw_concat(a: Seq<EditView>, b: Seq<EditView>)
    ensures
        plans_redraw(a + b) <==> plans_redraw(a) || plans_redraw(b),
{
    let c = a + b;
    if plans_redraw(c) {
        let k = choose|k: int| 0 <= k < c.len() && asks_for_redraw(#[trigger] c[k]);
        if k < a.len() {
            assert(c[k] == a[k]);
        } else {
            assert(c[k] == b[k - a.len()]);
        }
    }
    if plans_redraw(a) {
        let k = choose|k: int| 0 <= k < a.len() && asks_for_redraw(#[trigger] a[k]);
        assert(c[k] == a[k]);
    }
    if plans_redraw(b) {
        let k = choose|k: int| 0 <= k < b.len() && asks_for_redraw(#[trigger] b[k]);
        assert(c[a.len() + k] == b[k]);
    }
}

proof fn lemma_plan_redraw(form: FormView, ids: Seq<ObjectId>, mode: ResetMode, n: int)
    requires
        0 <= n <= ids.len(),
    ensures
        spec_plan(form, ids, mode, n) matches Ok(p) ==> (plans_redraw(p.0) <==> exists|j: int|
            0 <= j < n && redraws(field_refs(form, #[trigger] ids[j]), mode)),
    decreases n,
{
    if n > 0 {
        lemma_plan_redraw(form, ids, mode, n - 1);
        if let Ok(p) = spec_plan(form, ids, mode, n) {
            let done = spec_plan(form, ids, mode, n - 1)->Ok_0;
            let step = spec_plan_one(form, ids[n - 1], mode)->Ok_0;
            let refs = field_refs(form, ids[n - 1]);
            law_redraw_only_when_text_comes_back(refs, form.location, mode);
            assert(p.0 == done.0 + step.0);
            lemma_plans_redraw_concat(done.0, step.0);
            if exists|j: int| 0 <= j < n && redraws(field_refs(form, #[trigger] ids[j]), mode) {
                let j = choose|j: int| 0 <= j < n && redraws(field_refs(form, #[trigger] ids[j]), mode);
                if j < n - 1 {
                    assert(exists|i: int| 0 <= i < n - 1 && redraws(field_refs(form, #[trigger] ids[i]), mode));
                }
            }
            if plans_redraw(step.0) {
                assert(redraws(field_refs(form, ids[n - 1]), mode));
            }
        }
    }
}

/// A reset reports that /NeedAppearances had to be turned on exactly when it
/// puts text back into a requested text or choice field whose value
/// changes, and the form did not have it on already.
pub proof fn law_the_redraw_flag_is_reported_exactly(d: DocView, ids: Seq<ObjectId>, mode: ResetMode)
    ensures
        spec_update(d, ids, mode) matches Ok(u) ==> spec_read_form(d) matches Ok(form) && (
        u.need_appearances_set <==> (!form.need_appearances && exists|j: int|
            0 <= j < ids.len() && redraws(field_refs(form, #[trigger] ids[j]), mode))),
{
    if let Ok(u) = spec_update(d, ids, mode) {
        let form = spec_read_form(d)->Ok_0;
        lemma_plan_redraw(form, ids, mode, ids.len() as int);
    }
}

// ---------------------------------------------------------------------------
// Applying edits in parts, and the two modes on one field
// ---------------------------------------------------------------------------

/// The revision `start` after the first `n` of `edits`, applied in order; the
/// first failure stops it.
pub open spec fn apply_from(
    prev: Seq<(ObjectId, Obj)>,
    start: Seq<(ObjectId, Obj)>,
    edits: Seq<EditView>,
    n: int,
) -> Result<Seq<(ObjectId, Obj)>, Fault>
    decreases n,
{
    if n <= 0 || n > edits.len() {
        Ok(start)
    } else {
        match apply_from(prev, start, edits, n - 1) {
            Err(e) => Err(e),
            Ok(new) => spec_apply_edit(prev, new, edits[n - 1]),
        }
    }
}

proof fn lemma_apply_from_empty(prev: Seq<(ObjectId, Obj)>, edits: Seq<EditView>, n: int)
    requires
        0 <= n <= edits.len(),
    ensures
        spec_apply(prev, edits, n) == apply_from(prev, Seq::empty(), edits, n),
    decreases n,
{
    if n > 0 {
        lemma_apply_from_empty(prev, edits, n - 1);
    }
}

proof fn lemma_apply_from_prefix(
    prev: Seq<(ObjectId, Obj)>,
    start: Seq<(ObjectId, Obj)>,
    a: Seq<EditView>,
    b: Seq<EditView>,
    k: int,
)
    requires
        0 <= k <= a.len(),
    ensures
        apply_from(prev, start, a + b, k) == apply_from(prev, start, a, k),
    decreases k,
{
    if k > 0 {
        lemma_apply_from_prefix(prev, start, a, b, k - 1);
        assert((a + b)[k - 1] == a[k - 1]);
    }
}

proof fn lemma_apply_from_concat(
    prev: Seq<(ObjectId, Obj)>,
    start: Seq<(ObjectId, Obj)>,
    a: Seq<EditView>,
    b: Seq<EditView>,
    m: int,
)
    requires
        0 <= m <= b.len(),
    ensures
        apply_from(prev, start, a + b, a.len() + m) == match apply_from(
            prev,
            start,
            a,
            a.len() as int,
        ) {
            Ok(mid) => apply_from(prev, mid, b, m),
            Err(e) => Err(e),
        },
    decreases m,
{
    if m == 0 {
        lemma_apply_from_prefix(prev, start, a, b, a.len() as int);
    } else {
        lemma_apply_from_concat(prev, start, a, b, m - 1);
        assert((a + b)[a.len() + m - 1] == b[m - 1]);
    }
}

/// Applying two lists of edits one after the other is applying them as one
/// list: the second starts from the revision the first leaves, so edits to
/// one object accumulate on its copy, and a failure in the first stops both.
pub proof fn law_applying_in_parts(prev: Seq<(ObjectId, Obj)>, a: Seq<EditView>, b: Seq<EditView>)
    ensures
        spec_apply(prev, a + b, (a.len() + b.len()) as int) == match spec_apply(prev, a, a.len() as int) {
            Ok(mid) => apply_from(prev, mid, b, b.len() as int),
            Err(e) => Err(e),
        },
{
    lemma_apply_from_empty(prev, a + b, (a.len() + b.len()) as int);
    lemma_apply_from_empty(prev, a, a.len() as int);
    lemma_apply_from_concat(prev, Seq::empty(), a, b, b.len() as int);
}

/// Without a default value, resetting a field and clearing it plan the same
/// edits.
pub proof fn law_without_a_default_the_plans_agree(
    refs: RefsView,
    location: Option<AcroFormLocation>,
)
    requires
        refs.default_value is None,
    ensures
        spec_plan_field(refs, location, ResetMode::Default) == spec_plan_field(
            refs,
            location,
            ResetMode::Clear,
        ),
{
}

} // verus!
