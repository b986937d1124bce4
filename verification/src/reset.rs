//! Resetting fields, and only fields.
//!
//! Two rules shape everything here:
//!
//! 1. A reset means what PDF 32000-1 12.7.5.3 (ResetForm) says it means: the
//!    field takes its default value /DV, or has no value if it has none.
//!    [`ResetMode::Clear`] is there for when the field should be empty
//!    whatever the document calls its default; a field that has a /DV is
//!    given an explicit empty value, since a reader fills a missing /V in
//!    from the default.
//! 2. The write is an *incremental update* (7.5.6): the original bytes are
//!    copied through untouched and the changed objects are appended with a
//!    new cross-reference section.

use vstd::prelude::*;
use crate::bridge::{load_document, parsed_document, save_update, saved_update};
use crate::document::{
    get_object, id_pos, is_first_id, lemma_id_pos_absent, lemma_id_pos_found, lemma_objects_view, lookup, objects_view,
    spec_is_encrypted, DocView, Fault, PdfDocument, PdfError,
};
use crate::form::{
    read_form, spec_read_form, AcroFormLocation, AppearanceRef, FieldKind, Form, FormView,
    RefsView, WidgetRefsView,
};
use crate::ids::{encode_id, id_text};
use crate::names::{
    acro_form_name, ap_name, as_name, decode_parms_name, filter_name, i_name, length_name,
    n_name, need_appearances_name, off_name, rv_name, spec_acro_form_name, spec_ap_name,
    spec_as_name, spec_decode_parms_name, spec_filter_name, spec_i_name, spec_length_name,
    spec_n_name, spec_need_appearances_name, spec_off_name, spec_rv_name, spec_v_name, v_name,
};
use crate::object::{
    bytes_equal, copy_bytes, dict_get, dict_has, dict_remove, dict_set, obj_eq, objects_equal,
    kind_name, type_of,
    DictView, Obj, ObjectId, PdfDict, PdfObject, PdfStream, StreamView,
};
use crate::text::{display, display_opt, display_value, same_text};
use crate::{Error, Failure};

verus! {

/// What "reset" should mean for an action.
#[derive(Clone, Copy, Debug, PartialEq, Eq, Structural)]
pub enum ResetMode {
    /// Restore the field's /DV, or clear it when it has none. This is what a
    /// form's own reset button does.
    Default,
    /// Leave the field with no value at all, even if it has a /DV.
    Clear,
}

impl Default for ResetMode {
    fn default() -> (r: ResetMode)
        ensures
            r == ResetMode::Default,
    {
        ResetMode::Default
    }
}

/// What a reset did.
#[derive(Debug)]
pub struct ResetReport {
    /// Names of the fields that were reset, in the order requested.
    pub fields: Vec<String>,
    pub mode: ResetMode,
    /// Indirect objects rewritten in the appended revision.
    pub objects_changed: usize,
    /// Whether /NeedAppearances had to be turned on.
    pub need_appearances_set: bool,
    /// Size of the appended revision.
    pub bytes_appended: usize,
}

/// The new file, and what the reset did.
#[derive(Debug)]
pub struct ResetOutput {
    pub bytes: Vec<u8>,
    pub report: ResetReport,
}

/// A single object-level change. Collected first, applied second.
#[derive(Debug)]
pub enum Edit {
    /// Set /V to the field's default, or remove it. Also drops /I and /RV,
    /// which cache the same value.
    Value { object: ObjectId, to: Option<PdfObject> },
    /// Point a button widget at the appearance state matching the new value.
    AppearanceState { object: ObjectId, state: Vec<u8> },
    /// Empty a text or choice widget's appearance stream so the old text
    /// stops being drawn. The stream object and its dictionary survive; only
    /// its content becomes empty.
    BlankAppearance(AppearanceRef),
    /// Ask the viewer to regenerate appearances, needed only when a reset
    /// puts a non-empty default value back into a text or choice field.
    NeedAppearances(AcroFormLocation),
}

/// The mathematical value of an [`Edit`].
pub enum EditView {
    Value(ObjectId, Option<Obj>),
    AppearanceState(ObjectId, Seq<u8>),
    BlankAppearance(AppearanceRef),
    NeedAppearances(AcroFormLocation),
}

impl View for Edit {
    type V = EditView;

    open spec fn view(&self) -> EditView {
        match self {
            Edit::Value { object, to } => EditView::Value(
                *object,
                match to {
                    Some(v) => Some(v@),
                    None => None,
                },
            ),
            Edit::AppearanceState { object, state } => EditView::AppearanceState(*object, state@),
            Edit::BlankAppearance(a) => EditView::BlankAppearance(*a),
            Edit::NeedAppearances(l) => EditView::NeedAppearances(*l),
        }
    }
}

pub open spec fn opt_view(o: Option<PdfObject>) -> Option<Obj> {
    match o {
        Some(t) => Some(t@),
        None => None,
    }
}

pub open spec fn edits_view(s: Seq<Edit>) -> Seq<EditView> {
    s.map_values(|e: Edit| e@)
}

// ---------------------------------------------------------------------------
// Planning
// ---------------------------------------------------------------------------

/// The explicit empty value a clear writes into a field that has a default,
/// so that a reader does not fall back to the default: /Off for a button,
/// an empty string for a text or choice field, null for any other.
pub open spec fn empty_value(kind: FieldKind) -> Obj {
    match kind {
        FieldKind::Radio | FieldKind::Checkbox | FieldKind::PushButton => Obj::Name(spec_off_name()),
        FieldKind::Text | FieldKind::Combo | FieldKind::List => Obj::Str(Seq::empty(), false),
        _ => Obj::Null,
    }
}

/// The value a reset gives a field: its default when resetting to it (none
/// when it has none); when clearing, no value, or an explicit empty value
/// where a missing one would let a reader fall back to the default.
pub open spec fn reset_target(refs: RefsView, mode: ResetMode) -> Option<Obj> {
    match mode {
        ResetMode::Default => refs.default_value,
        ResetMode::Clear => match refs.default_value {
            Some(_) => Some(empty_value(refs.kind)),
            None => None,
        },
    }
}

/// Values are compared as they display, so that a missing value and an
/// empty one count as the same thing.
pub open spec fn same_value(current: Option<Obj>, target: Option<Obj>) -> bool {
    display_opt(current) == display_opt(target)
}

/// The state a button widget is drawn in once its field holds `target`: its
/// own on-state when the value names it, /Off otherwise.
pub open spec fn button_state(target: Option<Obj>, on_state: Option<Seq<u8>>) -> Seq<u8> {
    match (target, on_state) {
        (Some(Obj::Name(v)), Some(on)) => if v == on {
            on
        } else {
            spec_off_name()
        },
        _ => spec_off_name(),
    }
}

/// An edit for each button widget, pointing it at its new state.
pub open spec fn button_edits(widgets: Seq<WidgetRefsView>, target: Option<Obj>) -> Seq<EditView> {
    widgets.map_values(
        |w: WidgetRefsView| EditView::AppearanceState(w.id, button_state(target, w.on_state)),
    )
}

/// An edit for each widget that has a normal appearance stream, emptying it.
pub open spec fn blank_edits(widgets: Seq<WidgetRefsView>) -> Seq<EditView>
    decreases widgets.len(),
{
    if widgets.len() == 0 {
        Seq::empty()
    } else {
        let rest = blank_edits(widgets.drop_last());
        match widgets.last().normal_appearance {
            Some(a) => rest.push(EditView::BlankAppearance(a)),
            None => rest,
        }
    }
}

/// Whether a reset to `target` puts text back into the field.
pub open spec fn restores_text(target: Option<Obj>) -> bool {
    match target {
        Some(v) => display(v).len() > 0,
        None => false,
    }
}

/// The edits that reset one field.
pub open spec fn spec_plan_field(
    refs: RefsView,
    location: Option<AcroFormLocation>,
    mode: ResetMode,
) -> Result<Seq<EditView>, Failure> {
    let target = reset_target(refs, mode);
    let value_edit = seq![EditView::Value(refs.value_owner, target)];
    match refs.kind {
        FieldKind::Radio | FieldKind::Checkbox => Ok(
            value_edit + button_edits(refs.widgets, target),
        ),
        FieldKind::Text | FieldKind::Combo | FieldKind::List => if restores_text(target) {
            if !same_value(refs.current_value, target) {
                match location {
                    Some(l) => Ok(value_edit.push(EditView::NeedAppearances(l))),
                    None => Err(Failure::NoForm),
                }
            } else {
                Ok(value_edit)
            }
        } else {
            Ok(value_edit + blank_edits(refs.widgets))
        },
        _ => Ok(value_edit),
    }
}

/// Whether `i` is the position of the first field numbered `id`.
pub open spec fn is_first_field(form: FormView, id: ObjectId, i: int) -> bool {
    &&& 0 <= i < form.records.len()
    &&& form.records[i].1.field == id
    &&& forall|j: int| 0 <= j < i ==> form.records[j].1.field != id
}

/// The position of the first field numbered `id`, or -1.
pub open spec fn field_pos(form: FormView, id: ObjectId) -> int {
    if exists|i: int| is_first_field(form, id, i) {
        choose|i: int| is_first_field(form, id, i)
    } else {
        -1
    }
}

/// The edits that reset the field numbered `id`, and its name.
pub open spec fn spec_plan_one(form: FormView, id: ObjectId, mode: ResetMode) -> Result<
    (Seq<EditView>, Seq<char>),
    Failure,
> {
    let i = field_pos(form, id);
    if i < 0 {
        Err(Failure::UnknownField(id_text(id)))
    } else {
        let field = form.records[i].0;
        if !field.resettable {
            Err(
                Failure::NotResettable(
                    field.name,
                    match field.note {
                        Some(n) => n,
                        None => Seq::empty(),
                    },
                ),
            )
        } else {
            match spec_plan_field(form.records[i].1, form.location, mode) {
                Ok(edits) => Ok((edits, field.name)),
                Err(f) => Err(f),
            }
        }
    }
}

/// The edits that reset the first `n` of the fields `ids`, in order, and
/// their names; the first refusal stops the plan.
pub open spec fn spec_plan(form: FormView, ids: Seq<ObjectId>, mode: ResetMode, n: int) -> Result<
    (Seq<EditView>, Seq<Seq<char>>),
    Failure,
>
    decreases n,
{
    if n <= 0 || n > ids.len() {
        Ok((Seq::empty(), Seq::empty()))
    } else {
        match spec_plan(form, ids, mode, n - 1) {
            Err(f) => Err(f),
            Ok(done) => match spec_plan_one(form, ids[n - 1], mode) {
                Err(f) => Err(f),
                Ok(step) => Ok((done.0 + step.0, done.1.push(step.1))),
            },
        }
    }
}

// ---------------------------------------------------------------------------
// Applying edits to the appended revision
// ---------------------------------------------------------------------------

/// The new revision once the object numbered `id` has been copied into it
/// from the previous one (references followed), unless it is already there.
pub open spec fn clone_to_new(
    prev: Seq<(ObjectId, Obj)>,
    new: Seq<(ObjectId, Obj)>,
    id: ObjectId,
) -> Result<Seq<(ObjectId, Obj)>, Fault> {
    if lookup(new, id) is Some {
        Ok(new)
    } else {
        match get_object(prev, id) {
            Ok(o) => Ok(new.push((id, o))),
            Err(e) => Err(e),
        }
    }
}

/// The new revision with the object numbered `id` replaced by `o`.
pub open spec fn with_object(new: Seq<(ObjectId, Obj)>, id: ObjectId, o: Obj) -> Seq<(ObjectId, Obj)> {
    new.update(id_pos(new, id), (id, o))
}

/// A stream whose content is emptied (`Stream::set_plain_content` with no
/// bytes): its filters go, and its /Length becomes 0.
pub open spec fn blank_stream(s: StreamView) -> StreamView {
    StreamView {
        dict: dict_set(
            dict_remove(dict_remove(s.dict, spec_decode_parms_name()), spec_filter_name()),
            spec_length_name(),
            Obj::Integer(0),
        ),
        content: Seq::empty(),
        allows_compression: s.allows_compression,
        start_position: s.start_position,
    }
}

/// A dictionary's value set, or removed, and the caches of it dropped.
pub open spec fn value_set(d: DictView, to: Option<Obj>) -> DictView {
    let d1 = match to {
        Some(v) => dict_set(d, spec_v_name(), v),
        None => dict_remove(d, spec_v_name()),
    };
    dict_remove(dict_remove(d1, spec_i_name()), spec_rv_name())
}

/// The fault of finding `found` where a `expected` is needed; nothing found
/// counts as null.
pub open spec fn wrong_type(expected: Seq<char>, found: Option<Obj>) -> Fault {
    Fault::WrongType(
        expected,
        match found {
            Some(o) => type_of(o),
            None => "Null"@,
        },
    )
}

/// Change the dictionary numbered `id` in the new revision by `f`.
pub open spec fn edit_dict(
    prev: Seq<(ObjectId, Obj)>,
    new: Seq<(ObjectId, Obj)>,
    id: ObjectId,
    f: spec_fn(DictView) -> Result<DictView, Fault>,
) -> Result<Seq<(ObjectId, Obj)>, Fault> {
    match clone_to_new(prev, new, id) {
        Err(e) => Err(e),
        Ok(n) => match lookup(n, id) {
            Some(Obj::Dict(d)) => match f(d) {
                Ok(d2) => Ok(with_object(n, id, Obj::Dict(d2))),
                Err(e) => Err(e),
            },
            other => Err(wrong_type("Dictionary"@, other)),
        },
    }
}

/// The stream under key `key` of a dictionary, emptied.
pub open spec fn blank_in(d: DictView, key: Seq<u8>) -> Result<DictView, Fault> {
    match dict_get(d, key) {
        Some(Obj::Stream(s)) => Ok(dict_set(d, key, Obj::Stream(blank_stream(s)))),
        Some(o) => Err(Fault::WrongType("Stream"@, type_of(o))),
        None => Err(Fault::MissingKey(key)),
    }
}

/// The dictionary under key `key` of a dictionary, changed by `f`.
pub open spec fn edit_in(d: DictView, key: Seq<u8>, f: spec_fn(DictView) -> Result<DictView, Fault>) -> Result<
    DictView,
    Fault,
> {
    match dict_get(d, key) {
        Some(Obj::Dict(inner)) => match f(inner) {
            Ok(inner2) => Ok(dict_set(d, key, Obj::Dict(inner2))),
            Err(e) => Err(e),
        },
        Some(o) => Err(Fault::WrongType("Dictionary"@, type_of(o))),
        None => Err(Fault::MissingKey(key)),
    }
}

/// The new revision after one edit.
pub open spec fn spec_apply_edit(
    prev: Seq<(ObjectId, Obj)>,
    new: Seq<(ObjectId, Obj)>,
    e: EditView,
) -> Result<Seq<(ObjectId, Obj)>, Fault> {
    match e {
        EditView::Value(object, to) => edit_dict(
            prev,
            new,
            object,
            |d: DictView| Ok(value_set(d, to)),
        ),
        EditView::AppearanceState(object, state) => edit_dict(
            prev,
            new,
            object,
            |d: DictView| Ok(dict_set(d, spec_as_name(), Obj::Name(state))),
        ),
        EditView::BlankAppearance(AppearanceRef::Stream(id)) => match clone_to_new(prev, new, id) {
            Err(e) => Err(e),
            Ok(n) => match lookup(n, id) {
                Some(Obj::Stream(s)) => Ok(with_object(n, id, Obj::Stream(blank_stream(s)))),
                other => Err(wrong_type("Stream"@, other)),
            },
        },
        EditView::BlankAppearance(AppearanceRef::InlineInWidget(id)) => edit_dict(
            prev,
            new,
            id,
            |d: DictView| edit_in(d, spec_ap_name(), |ap: DictView| blank_in(ap, spec_n_name())),
        ),
        EditView::BlankAppearance(AppearanceRef::InlineInApDict(id)) => edit_dict(
            prev,
            new,
            id,
            |d: DictView| blank_in(d, spec_n_name()),
        ),
        EditView::NeedAppearances(AcroFormLocation::Indirect(id)) => edit_dict(
            prev,
            new,
            id,
            |d: DictView| Ok(dict_set(d, spec_need_appearances_name(), Obj::Boolean(true))),
        ),
        EditView::NeedAppearances(AcroFormLocation::InCatalog(id)) => edit_dict(
            prev,
            new,
            id,
            |d: DictView|
                edit_in(
                    d,
                    spec_acro_form_name(),
                    |a: DictView| Ok(dict_set(a, spec_need_appearances_name(), Obj::Boolean(true))),
                ),
        ),
    }
}

/// The new revision after the first `n` edits, applied in order; the first
/// failure stops it.
pub open spec fn spec_apply(prev: Seq<(ObjectId, Obj)>, edits: Seq<EditView>, n: int) -> Result<
    Seq<(ObjectId, Obj)>,
    Fault,
>
    decreases n,
{
    if n <= 0 || n > edits.len() {
        Ok(Seq::empty())
    } else {
        match spec_apply(prev, edits, n - 1) {
            Err(e) => Err(e),
            Ok(new) => spec_apply_edit(prev, new, edits[n - 1]),
        }
    }
}

/// Whether an edited object is identical to the one already in the file.
pub open spec fn unchanged(prev: Seq<(ObjectId, Obj)>, entry: (ObjectId, Obj)) -> bool {
    match lookup(prev, entry.0) {
        Some(p) => obj_eq(p, entry.1),
        None => false,
    }
}

/// The edited objects that genuinely differ from the file's, in order.
pub open spec fn changed_objects(prev: Seq<(ObjectId, Obj)>, new: Seq<(ObjectId, Obj)>) -> Seq<
    (ObjectId, Obj),
>
    decreases new.len(),
{
    if new.len() == 0 {
        Seq::empty()
    } else {
        let rest = changed_objects(prev, new.drop_last());
        if unchanged(prev, new.last()) {
            rest
        } else {
            rest.push(new.last())
        }
    }
}

/// Whether an edit asks the viewer to redraw the form's appearances.
pub open spec fn asks_for_redraw(e: EditView) -> bool {
    e is NeedAppearances
}

/// Whether some of the edits asks the viewer to redraw the form.
pub open spec fn plans_redraw(edits: Seq<EditView>) -> bool {
    exists|k: int| 0 <= k < edits.len() && asks_for_redraw(#[trigger] edits[k])
}

/// What a reset amounts to before it is written: the names of the fields
/// reset, the objects of the appended revision, and whether /NeedAppearances
/// had to be turned on.
pub struct UpdateView {
    pub names: Seq<Seq<char>>,
    pub changed: Seq<(ObjectId, Obj)>,
    pub need_appearances_set: bool,
}

/// The revision a reset of the fields `ids` of a document appends, before
/// the objects identical to the file's are dropped, with the names of the
/// fields reset and whether /NeedAppearances had to be turned on (a redraw
/// is asked for and the form did not have it on already): refused for an
/// encrypted document, for a field the form does not have and for one that
/// cannot be reset; otherwise the edits of every field, applied in order.
pub open spec fn spec_revision(d: DocView, ids: Seq<ObjectId>, mode: ResetMode) -> Result<
    (Seq<Seq<char>>, Seq<(ObjectId, Obj)>, bool),
    Failure,
> {
    if spec_is_encrypted(d) {
        Err(Failure::Encrypted)
    } else {
        match spec_read_form(d) {
            Err(f) => Err(f),
            Ok(form) => match spec_plan(form, ids, mode, ids.len() as int) {
                Err(f) => Err(f),
                Ok(plan) => match spec_apply(d.objects, plan.0, plan.0.len() as int) {
                    Err(x) => Err(Failure::Pdf(x)),
                    Ok(new) => Ok((plan.1, new, plans_redraw(plan.0) && !form.need_appearances)),
                },
            },
        }
    }
}

/// The reset of the fields `ids` of a document: its revision, keeping only
/// the objects that differ from the file's.
pub open spec fn spec_update(d: DocView, ids: Seq<ObjectId>, mode: ResetMode) -> Result<
    UpdateView,
    Failure,
> {
    match spec_revision(d, ids, mode) {
        Err(f) => Err(f),
        Ok(r) => Ok(
            UpdateView {
                names: r.0,
                changed: changed_objects(d.objects, r.1),
                need_appearances_set: r.2,
            },
        ),
    }
}

// ---------------------------------------------------------------------------
// The appended revision, computed
// ---------------------------------------------------------------------------

/// The position of the first object numbered `id` among `objects`.
fn find_object(objects: &Vec<(ObjectId, PdfObject)>, id: ObjectId) -> (r: Option<usize>)
    ensures
        match r {
            Some(i) => i < objects@.len() && id_pos(objects_view(objects@), id) == i,
            None => id_pos(objects_view(objects@), id) == -1,
        },
{
    proof {
        lemma_objects_view(objects@);
    }
    let ghost view = objects_view(objects@);
    let mut i: usize = 0;
    while i < objects.len()
        invariant
            i <= objects@.len(),
            view == objects_view(objects@),
            view.len() == objects@.len(),
            forall|j: int| 0 <= j < objects@.len() ==> #[trigger] view[j] == (objects@[j].0, objects@[j].1@),
            forall|j: int| 0 <= j < i ==> view[j].0 != id,
        decreases objects@.len() - i,
    {
        if objects[i].0.0 == id.0 && objects[i].0.1 == id.1 {
            proof {
                lemma_id_pos_found(view, id, i as int);
            }
            return Some(i);
        }
        i += 1;
    }
    assert(!exists|k: int| is_first_id(view, id, k));
    None
}

/// Replace the object at position `i`.
fn replace_object(objects: &mut Vec<(ObjectId, PdfObject)>, i: usize, id: ObjectId, o: PdfObject)
    requires
        i < old(objects)@.len(),
    ensures
        objects_view(final(objects)@) == objects_view(old(objects)@).update(i as int, (id, o@)),
{
    let ghost o_view = o@;
    proof {
        lemma_objects_view(objects@);
    }
    let ghost before = objects_view(objects@);
    objects.set(i, (id, o));
    proof {
        lemma_objects_view(objects@);
    }
    assert(objects_view(objects@) =~= before.update(i as int, (id, o_view)));
}

/// Copy the object numbered `id` into the new revision, unless it is there
/// already; its position there.
fn clone_into(prev: &PdfDocument, new: &mut Vec<(ObjectId, PdfObject)>, id: ObjectId) -> (r: Result<
    usize,
    PdfError,
>)
    ensures
        match clone_to_new(prev@.objects, objects_view(old(new)@), id) {
            Ok(n) => match r {
                Ok(i) => objects_view(final(new)@) == n && i == id_pos(n, id) && i < final(new)@.len(),
                Err(_) => false,
            },
            Err(e) => match r {
                Ok(_) => false,
                Err(x) => x@ == e,
            },
        },
{
    proof {
        lemma_objects_view(new@);
    }
    match find_object(new, id) {
        Some(i) => Ok(i),
        None => {
            let o = match prev.get_object(id) {
                Ok(o) => o.duplicate(),
                Err(e) => return Err(e),
            };
            let ghost before = objects_view(new@);
            let ghost o_view = o@;
            new.push((id, o));
            proof {
                lemma_objects_view(new@);
                assert(objects_view(new@) =~= before.push((id, o_view)));
                lemma_id_pos_absent(before, id);
                lemma_id_pos_found(objects_view(new@), id, before.len() as int);
            }
            Ok(new.len() - 1)
        },
    }
}

/// A stream with its content emptied.
fn blank(s: PdfStream) -> (r: PdfStream)
    ensures
        r@ == blank_stream(s@),
{
    let mut dict = s.dict;
    dict.remove(decode_parms_name().as_slice());
    dict.remove(filter_name().as_slice());
    dict.set(length_name(), PdfObject::Integer(0));
    let content: Vec<u8> = Vec::new();
    PdfStream {
        dict,
        content,
        allows_compression: s.allows_compression,
        start_position: s.start_position,
    }
}

/// The stream under `key` of a dictionary, emptied.
fn blank_under(d: &PdfDict, key: Vec<u8>) -> (r: Result<PdfDict, PdfError>)
    ensures
        match blank_in(d@, key@) {
            Ok(d2) => r matches Ok(x) && x@ == d2,
            Err(e) => r matches Err(x) && x@ == e,
        },
{
    let inner = match d.get(key.as_slice()) {
        Some(o) => o.duplicate(),
        None => return Err(PdfError::MissingKey(key)),
    };
    match inner {
        PdfObject::Stream(s) => {
            let mut d2 = d.duplicate();
            d2.set(key, PdfObject::Stream(blank(s)));
            Ok(d2)
        },
        other => Err(PdfError::WrongType { expected: "Stream", found: kind_name(&other) }),
    }
}

/// The dictionary under `key` of a dictionary, with /NeedAppearances true.
fn need_appearances_under(d: &PdfDict, key: Vec<u8>) -> (r: Result<PdfDict, PdfError>)
    ensures
        match edit_in(
            d@,
            key@,
            |a: DictView| Ok(dict_set(a, spec_need_appearances_name(), Obj::Boolean(true))),
        ) {
            Ok(d2) => r matches Ok(x) && x@ == d2,
            Err(e) => r matches Err(x) && x@ == e,
        },
{
    let inner = match d.get(key.as_slice()) {
        Some(o) => o.duplicate(),
        None => return Err(PdfError::MissingKey(key)),
    };
    match inner {
        PdfObject::Dictionary(mut a) => {
            a.set(need_appearances_name(), PdfObject::Boolean(true));
            let mut d2 = d.duplicate();
            d2.set(key, PdfObject::Dictionary(a));
            Ok(d2)
        },
        other => Err(PdfError::WrongType { expected: "Dictionary", found: kind_name(&other) }),
    }
}

/// The /AP dictionary of a widget with its /N stream emptied.
fn blank_inline_ap(d: &PdfDict) -> (r: Result<PdfDict, PdfError>)
    ensures
        match edit_in(d@, spec_ap_name(), |ap: DictView| blank_in(ap, spec_n_name())) {
            Ok(d2) => r matches Ok(x) && x@ == d2,
            Err(e) => r matches Err(x) && x@ == e,
        },
{
    let inner = match d.get(ap_name().as_slice()) {
        Some(o) => o.duplicate(),
        None => return Err(PdfError::MissingKey(ap_name())),
    };
    match inner {
        PdfObject::Dictionary(a) => {
            let a2 = blank_under(&a, n_name())?;
            let mut d2 = d.duplicate();
            d2.set(ap_name(), PdfObject::Dictionary(a2));
            Ok(d2)
        },
        other => Err(PdfError::WrongType { expected: "Dictionary", found: kind_name(&other) }),
    }
}

/// The dictionary at position `i` of the new revision, copied out.
fn dict_at(new: &Vec<(ObjectId, PdfObject)>, i: usize) -> (r: Result<PdfDict, PdfError>)
    requires
        i < new@.len(),
    ensures
        match objects_view(new@)[i as int].1 {
            Obj::Dict(d) => r matches Ok(x) && x@ == d,
            o => r matches Err(e) && e@ == Fault::WrongType("Dictionary"@, type_of(o)),
        },
{
    proof {
        lemma_objects_view(new@);
    }
    match &new[i].1 {
        PdfObject::Dictionary(d) => Ok(d.duplicate()),
        other => Err(PdfError::WrongType { expected: "Dictionary", found: kind_name(other) }),
    }
}

/// Apply one edit to the new revision.
fn apply_edit(prev: &PdfDocument, new: &mut Vec<(ObjectId, PdfObject)>, edit: &Edit) -> (r: Result<
    (),
    PdfError,
>)
    ensures
        match spec_apply_edit(prev@.objects, objects_view(old(new)@), edit@) {
            Ok(n) => r is Ok && objects_view(final(new)@) == n,
            Err(e) => r matches Err(x) && x@ == e,
        },
{
    let ghost objs = prev@.objects;
    match edit {
        Edit::Value { object, to } => {
            let i = clone_into(prev, new, *object)?;
            let mut d = dict_at(new, i)?;
            match to {
                Some(v) => d.set(v_name(), v.duplicate()),
                None => d.remove(v_name().as_slice()),
            }
            d.remove(i_name().as_slice());
            d.remove(rv_name().as_slice());
            replace_object(new, i, *object, PdfObject::Dictionary(d));
            Ok(())
        },
        Edit::AppearanceState { object, state } => {
            let i = clone_into(prev, new, *object)?;
            let mut d = dict_at(new, i)?;
            d.set(as_name(), PdfObject::Name(copy_bytes(state.as_slice())));
            replace_object(new, i, *object, PdfObject::Dictionary(d));
            Ok(())
        },
        Edit::BlankAppearance(AppearanceRef::Stream(id)) => {
            let i = clone_into(prev, new, *id)?;
            proof {
                lemma_objects_view(new@);
            }
            let current = new[i].1.duplicate();
            match current {
                PdfObject::Stream(s) => {
                    replace_object(new, i, *id, PdfObject::Stream(blank(s)));
                    Ok(())
                },
                other => Err(PdfError::WrongType { expected: "Stream", found: kind_name(&other) }),
            }
        },
        Edit::BlankAppearance(AppearanceRef::InlineInWidget(id)) => {
            let i = clone_into(prev, new, *id)?;
            let d = dict_at(new, i)?;
            let d2 = blank_inline_ap(&d)?;
            replace_object(new, i, *id, PdfObject::Dictionary(d2));
            Ok(())
        },
        Edit::BlankAppearance(AppearanceRef::InlineInApDict(id)) => {
            let i = clone_into(prev, new, *id)?;
            let d = dict_at(new, i)?;
            let d2 = blank_under(&d, n_name())?;
            replace_object(new, i, *id, PdfObject::Dictionary(d2));
            Ok(())
        },
        Edit::NeedAppearances(AcroFormLocation::Indirect(id)) => {
            let i = clone_into(prev, new, *id)?;
            let mut d = dict_at(new, i)?;
            d.set(need_appearances_name(), PdfObject::Boolean(true));
            replace_object(new, i, *id, PdfObject::Dictionary(d));
            Ok(())
        },
        Edit::NeedAppearances(AcroFormLocation::InCatalog(id)) => {
            let i = clone_into(prev, new, *id)?;
            let d = dict_at(new, i)?;
            let d2 = need_appearances_under(&d, acro_form_name())?;
            replace_object(new, i, *id, PdfObject::Dictionary(d2));
            Ok(())
        },
    }
}

/// Apply the edits in order, into a new revision that starts empty.
fn apply(prev: &PdfDocument, edits: &Vec<Edit>) -> (r: Result<Vec<(ObjectId, PdfObject)>, PdfError>)
    ensures
        match spec_apply(prev@.objects, edits_view(edits@), edits@.len() as int) {
            Ok(n) => r matches Ok(x) && objects_view(x@) == n,
            Err(e) => r matches Err(x) && x@ == e,
        },
{
    let mut new: Vec<(ObjectId, PdfObject)> = Vec::new();
    assert(objects_view(new@) =~= Seq::<(ObjectId, Obj)>::empty());
    let mut i: usize = 0;
    while i < edits.len()
        invariant
            i <= edits@.len(),
            spec_apply(prev@.objects, edits_view(edits@), i as int) == Ok::<
                Seq<(ObjectId, Obj)>,
                Fault,
            >(objects_view(new@)),
        decreases edits@.len() - i,
    {
        assert(edits_view(edits@)[i as int] == edits@[i as int]@);
        match apply_edit(prev, &mut new, &edits[i]) {
            Ok(()) => {},
            Err(e) => {
                proof {
                    lemma_apply_stops(prev@.objects, edits_view(edits@), i as int + 1, edits@.len() as int);
                }
                return Err(e);
            },
        }
        i += 1;
    }
    Ok(new)
}

/// Once an edit fails, the whole application fails with its error.
proof fn lemma_apply_stops(prev: Seq<(ObjectId, Obj)>, edits: Seq<EditView>, m: int, n: int)
    requires
        1 <= m <= n <= edits.len(),
        spec_apply(prev, edits, m) is Err,
    ensures
        spec_apply(prev, edits, n) == spec_apply(prev, edits, m),
    decreases n - m,
{
    if m < n {
        lemma_apply_stops(prev, edits, m, n - 1);
    }
}

/// The edited objects that genuinely differ from the file's.
#[verifier::loop_isolation(false)]
fn drop_unchanged_objects(prev: &PdfDocument, new: Vec<(ObjectId, PdfObject)>) -> (r: Vec<
    (ObjectId, PdfObject),
>)
    ensures
        objects_view(r@) == changed_objects(prev@.objects, objects_view(new@)),
{
    proof {
        lemma_objects_view(new@);
    }
    let ghost view = objects_view(new@);
    let mut kept: Vec<(ObjectId, PdfObject)> = Vec::new();
    let mut i: usize = 0;
    while i < new.len()
        invariant
            i <= new@.len(),
            view == objects_view(new@),
            view.len() == new@.len(),
            forall|j: int| 0 <= j < new@.len() ==> #[trigger] view[j] == (new@[j].0, new@[j].1@),
            objects_view(kept@) == changed_objects(prev@.objects, view.take(i as int)),
        decreases new@.len() - i,
    {
        assert(view.take(i + 1).drop_last() =~= view.take(i as int));
        assert(view.take(i + 1).last() == view[i as int]);
        let same = match prev.lookup(new[i].0) {
            Some(p) => objects_equal(p, &new[i].1),
            None => false,
        };
        if !same {
            let ghost old_kept = kept@;
            let entry = (new[i].0, new[i].1.duplicate());
            let ghost entry_view = (entry.0, entry.1@);
            kept.push(entry);
            proof {
                lemma_objects_view(old_kept);
                lemma_objects_view(kept@);
                assert(objects_view(kept@) =~= objects_view(old_kept).push(entry_view));
            }
        }
        i += 1;
    }
    assert(view.take(new@.len() as int) =~= view);
    kept
}

// ---------------------------------------------------------------------------
// Planning, computed
// ---------------------------------------------------------------------------

/// The position of the first field numbered `id`.
fn find_field(form: &Form, id: ObjectId) -> (r: Option<usize>)
    requires
        form.well_formed(),
    ensures
        match r {
            Some(i) => i < form.fields@.len() && field_pos(form@, id) == i,
            None => field_pos(form@, id) == -1,
        },
{
    let mut i: usize = 0;
    while i < form.field_ids.len()
        invariant
            i <= form.field_ids@.len(),
            form.well_formed(),
            forall|j: int| 0 <= j < i ==> form@.records[j].1.field != id,
        decreases form.field_ids@.len() - i,
    {
        if form.field_ids[i].field.0 == id.0 && form.field_ids[i].field.1 == id.1 {
            proof {
                assert(is_first_field(form@, id, i as int));
                let c = choose|k: int| is_first_field(form@, id, k);
                assert(is_first_field(form@, id, c));
                if c < i {
                    assert(form@.records[c].1.field != id);
                }
                if i < c {
                    assert(form@.records[i as int].1.field != id);
                }
            }
            return Some(i);
        }
        i += 1;
    }
    assert(!exists|k: int| is_first_field(form@, id, k));
    None
}

/// The state a button widget is drawn in once reset.
fn state_for(target: &Option<PdfObject>, on_state: &Option<Vec<u8>>) -> (r: Vec<u8>)
    ensures
        r@ == button_state(
            match target {
                Some(t) => Some(t@),
                None => None,
            },
            match on_state {
                Some(o) => Some(o@),
                None => None,
            },
        ),
{
    match (target, on_state) {
        (Some(PdfObject::Name(v)), Some(on)) => {
            if bytes_equal(v.as_slice(), on.as_slice()) {
                copy_bytes(on.as_slice())
            } else {
                off_name()
            }
        },
        _ => off_name(),
    }
}

/// The explicit empty value a clear writes into a field of this kind.
fn empty_of(kind: FieldKind) -> (r: PdfObject)
    ensures
        r@ == empty_value(kind),
{
    match kind {
        FieldKind::Radio | FieldKind::Checkbox | FieldKind::PushButton => PdfObject::Name(off_name()),
        FieldKind::Text | FieldKind::Combo | FieldKind::List => PdfObject::Str(Vec::new(), false),
        _ => PdfObject::Null,
    }
}

/// Add the edits that reset the field at `index`.
#[verifier::loop_isolation(false)]
fn plan_field(form: &Form, index: usize, mode: ResetMode, edits: &mut Vec<Edit>) -> (r: Result<
    (),
    Error,
>)
    requires
        form.well_formed(),
        index < form.fields@.len(),
    ensures
        match spec_plan_field(form@.records[index as int].1, form@.location, mode) {
            Ok(es) => r is Ok && edits_view(final(edits)@) == edits_view(old(edits)@) + es,
            Err(f) => r matches Err(e) && e@ == f && edits_view(final(edits)@) == edits_view(
                old(edits)@,
            ) + seq![
                EditView::Value(
                    form@.records[index as int].1.value_owner,
                    reset_target(form@.records[index as int].1, mode),
                ),
            ],
        },
{
    let refs = &form.field_ids[index];
    let ghost rv = form@.records[index as int].1;
    assert(rv == refs@);
    let target: Option<PdfObject> = match mode {
        ResetMode::Default => match &refs.default_value {
            Some(v) => Some(v.duplicate()),
            None => None,
        },
        ResetMode::Clear => match &refs.default_value {
            Some(_) => Some(empty_of(refs.kind)),
            None => None,
        },
    };
    let ghost target_view = opt_view(target);
    assert(target_view == reset_target(rv, mode));
    let current_text = match &refs.current_value {
        Some(v) => display_value(v),
        None => String::new(),
    };
    let target_text = match &target {
        Some(v) => display_value(v),
        None => String::new(),
    };
    let value_changes = !same_text(&current_text, &target_text);
    let ghost start = edits_view(edits@);
    let value_target = match &target {
        Some(v) => Some(v.duplicate()),
        None => None,
    };
    edits.push(Edit::Value { object: refs.value_owner, to: value_target });
    assert(edits_view(edits@) =~= start + seq![EditView::Value(rv.value_owner, target_view)]);
    let ghost after_value = edits_view(edits@);
    match refs.kind {
        FieldKind::Radio | FieldKind::Checkbox => {
            let mut i: usize = 0;
            while i < refs.widgets.len()
                invariant
                    i <= refs.widgets@.len(),
                    edits_view(edits@) == after_value + button_edits(rv.widgets, target_view).take(
                        i as int,
                    ),
                decreases refs.widgets@.len() - i,
            {
                let w = &refs.widgets[i];
                let state = state_for(&target, &w.on_state);
                let ghost old_edits = edits@;
                let edit = Edit::AppearanceState { object: w.id, state };
                let ghost edit_view = edit@;
                edits.push(edit);
                assert(rv.widgets[i as int] == w@);
                let ghost all = button_edits(rv.widgets, target_view);
                assert(edit_view == all[i as int]);
                assert(edits_view(edits@) =~= edits_view(old_edits).push(edit_view));
                assert(all.take(i + 1) =~= all.take(i as int).push(all[i as int]));
                assert(edits_view(edits@) =~= after_value + all.take(i + 1));
                i += 1;
            }
            assert(button_edits(rv.widgets, target_view).take(refs.widgets@.len() as int)
                =~= button_edits(rv.widgets, target_view));
            Ok(())
        },
        FieldKind::Text | FieldKind::Combo | FieldKind::List => {
            let restores = match &target {
                Some(v) => target_text.as_str().unicode_len() > 0,
                None => false,
            };
            if restores {
                if value_changes {
                    match &form.location {
                        Some(l) => {
                            edits.push(Edit::NeedAppearances(l.copy()));
                            assert(edits_view(edits@) =~= after_value.push(
                                EditView::NeedAppearances(form@.location.unwrap()),
                            ));
                            Ok(())
                        },
                        None => Err(Error::NoForm),
                    }
                } else {
                    assert(after_value =~= start + seq![EditView::Value(rv.value_owner, target_view)]);
                    Ok(())
                }
            } else {
                let mut i: usize = 0;
                while i < refs.widgets.len()
                    invariant
                        i <= refs.widgets@.len(),
                        edits_view(edits@) == after_value + blank_edits(
                            rv.widgets.take(i as int),
                        ),
                    decreases refs.widgets@.len() - i,
                {
                    assert(rv.widgets.take(i + 1).drop_last() =~= rv.widgets.take(i as int));
                    assert(rv.widgets.take(i + 1).last() == refs.widgets@[i as int]@);
                    match &refs.widgets[i].normal_appearance {
                        Some(a) => {
                            let ghost old_edits = edits@;
                            let edit = Edit::BlankAppearance(a.copy());
                            let ghost edit_view = edit@;
                            edits.push(edit);
                            assert(edits_view(edits@) =~= edits_view(old_edits).push(edit_view));
                            assert(edits_view(edits@) =~= after_value + blank_edits(
                                rv.widgets.take(i + 1),
                            ));
                        },
                        None => {},
                    }
                    i += 1;
                }
                assert(rv.widgets.take(refs.widgets@.len() as int) =~= rv.widgets);
                Ok(())
            }
        },
        _ => Ok(()),
    }
}

pub open spec fn strings_view(s: Seq<String>) -> Seq<Seq<char>> {
    s.map_values(|t: String| t@)
}

/// The edits that reset the fields `ids`, in order, and their names.
#[verifier::loop_isolation(false)]
fn plan(form: &Form, ids: &[ObjectId], mode: ResetMode) -> (r: Result<(Vec<Edit>, Vec<String>), Error>)
    requires
        form.well_formed(),
    ensures
        match spec_plan(form@, ids@, mode, ids@.len() as int) {
            Ok(p) => r matches Ok(x) && edits_view(x.0@) == p.0 && strings_view(x.1@) == p.1,
            Err(f) => r matches Err(e) && e@ == f,
        },
{
    let mut edits: Vec<Edit> = Vec::new();
    let mut names: Vec<String> = Vec::new();
    assert(edits_view(edits@) =~= Seq::<EditView>::empty());
    assert(strings_view(names@) =~= Seq::<Seq<char>>::empty());
    let mut k: usize = 0;
    while k < ids.len()
        invariant
            k <= ids@.len(),
            form.well_formed(),
            spec_plan(form@, ids@, mode, k as int) matches Ok(p) && edits_view(edits@) == p.0
                && strings_view(names@) == p.1,
        decreases ids@.len() - k,
    {
        let id = ids[k];
        let index = match find_field(form, id) {
            Some(i) => i,
            None => {
                proof {
                    lemma_plan_stops(form@, ids@, mode, k as int + 1, ids@.len() as int);
                }
                return Err(Error::UnknownField(encode_id(id)));
            },
        };
        let field = &form.fields[index];
        assert(form@.records[index as int].0 == field@);
        if !field.resettable {
            let reason = match &field.note {
                Some(n) => n.clone(),
                None => String::new(),
            };
            proof {
                lemma_plan_stops(form@, ids@, mode, k as int + 1, ids@.len() as int);
            }
            return Err(Error::NotResettable { name: field.name.clone(), reason });
        }
        match plan_field(form, index, mode, &mut edits) {
            Ok(()) => {},
            Err(e) => {
                proof {
                    lemma_plan_stops(form@, ids@, mode, k as int + 1, ids@.len() as int);
                }
                return Err(e);
            },
        }
        let ghost before_names = strings_view(names@);
        names.push(field.name.clone());
        assert(strings_view(names@) =~= before_names.push(field@.name));
        k += 1;
    }
    Ok((edits, names))
}

/// Once a field is refused, the whole plan is refused with its error.
proof fn lemma_plan_stops(form: FormView, ids: Seq<ObjectId>, mode: ResetMode, m: int, n: int)
    requires
        1 <= m <= n <= ids.len(),
        spec_plan(form, ids, mode, m) is Err,
    ensures
        spec_plan(form, ids, mode, n) == spec_plan(form, ids, mode, m),
    decreases n - m,
{
    if m < n {
        lemma_plan_stops(form, ids, mode, m, n - 1);
    }
}

// ---------------------------------------------------------------------------
// The reset
// ---------------------------------------------------------------------------

/// A reset before it is written.
#[derive(Debug)]
pub struct Update {
    /// Names of the fields reset, in the order requested.
    pub fields: Vec<String>,
    /// The objects of the appended revision: only those that differ from
    /// the file's.
    pub changed: Vec<(ObjectId, PdfObject)>,
    /// Whether /NeedAppearances had to be turned on.
    pub need_appearances_set: bool,
}

impl View for Update {
    type V = UpdateView;

    open spec fn view(&self) -> UpdateView {
        UpdateView {
            names: strings_view(self.fields@),
            changed: objects_view(self.changed@),
            need_appearances_set: self.need_appearances_set,
        }
    }
}

/// Whether some of the edits asks the viewer to redraw the form.
fn asks_for_any_redraw(edits: &Vec<Edit>) -> (r: bool)
    ensures
        r == plans_redraw(edits_view(edits@)),
{
    let ghost view = edits_view(edits@);
    let mut i: usize = 0;
    while i < edits.len()
        invariant
            i <= edits@.len(),
            view == edits_view(edits@),
            view.len() == edits@.len(),
            forall|j: int| 0 <= j < i ==> !asks_for_redraw(#[trigger] view[j]),
        decreases edits@.len() - i,
    {
        assert(view[i as int] == edits@[i as int]@);
        match &edits[i] {
            Edit::NeedAppearances(_) => {
                assert(asks_for_redraw(view[i as int]));
                return true;
            },
            _ => {},
        }
        i += 1;
    }
    false
}

/// Plan and apply the reset of the fields `field_ids` of a document, keeping
/// only the objects that genuinely change.
pub fn plan_update(doc: &PdfDocument, field_ids: &[ObjectId], mode: ResetMode) -> (r: Result<
    Update,
    Error,
>)
    ensures
        match (r, spec_update(doc@, field_ids@, mode)) {
            (Ok(u), Ok(v)) => u@ == v,
            (Err(e), Err(f)) => e@ == f,
            _ => false,
        },
{
    if doc.is_encrypted() {
        return Err(Error::Encrypted);
    }
    let form = read_form(doc)?;
    let (edits, names) = plan(&form, field_ids, mode)?;
    let need_appearances_set = asks_for_any_redraw(&edits) && !form.need_appearances;
    let new = match apply(doc, &edits) {
        Ok(n) => n,
        Err(e) => return Err(Error::Pdf(e)),
    };
    let changed = drop_unchanged_objects(doc, new);
    proof {
        lemma_objects_view(changed@);
    }
    Ok(Update { fields: names, changed, need_appearances_set })
}

/// Whether `prefix` is where `bytes` starts.
fn starts_with(bytes: &Vec<u8>, prefix: &Vec<u8>) -> (r: bool)
    ensures
        r == (prefix@.len() <= bytes@.len() && bytes@.subrange(0, prefix@.len() as int) == prefix@),
{
    if bytes.len() < prefix.len() {
        return false;
    }
    let mut i: usize = 0;
    while i < prefix.len()
        invariant
            i <= prefix@.len() <= bytes@.len(),
            forall|j: int| 0 <= j < i ==> bytes@[j] == prefix@[j],
        decreases prefix@.len() - i,
    {
        if bytes[i] != prefix[i] {
            assert(bytes@.subrange(0, prefix@.len() as int)[i as int] != prefix@[i as int]);
            return false;
        }
        i += 1;
    }
    assert(bytes@.subrange(0, prefix@.len() as int) =~= prefix@);
    true
}

/// Reset the given fields in a file held in memory, returning the new file.
///
/// When the fields are already in the state asked for, the input is returned
/// unchanged rather than gaining an empty revision. Otherwise the new file is
/// the input followed by one appended revision holding exactly the objects
/// that change: for a file lopdf did not have to decrypt, it is what lopdf
/// writes for that update ([`saved_update`]), and the write fails only where
/// lopdf's does. A write that would not keep the input as it was is refused.
pub fn reset_bytes(bytes: Vec<u8>, field_ids: &[ObjectId], mode: ResetMode) -> (r: Result<
    ResetOutput,
    Error,
>)
    ensures
        match parsed_document(bytes@) {
            None => r matches Err(e) && e@ == Failure::Pdf(Fault::Load),
            Some(d) => match spec_update(d, field_ids@, mode) {
                Err(f) => r matches Err(e) && e@ == f,
                Ok(u) => (u.changed.len() > 0 && !d.was_encrypted ==> match saved_update(
                    bytes@,
                    u.changed,
                ) {
                    Some(written) => r matches Ok(out) && out.bytes@ == written,
                    None => r matches Err(e) && e@ == Failure::Pdf(Fault::Save),
                }) && match r {
                    Ok(out) => {
                        &&& strings_view(out.report.fields@) == u.names
                        &&& out.report.mode == mode
                        &&& out.report.objects_changed == u.changed.len()
                        &&& out.report.need_appearances_set == (u.changed.len() > 0
                            && u.need_appearances_set)
                        &&& u.changed.len() == 0 ==> out.bytes@ == bytes@
                            && out.report.bytes_appended == 0
                        &&& u.changed.len() > 0 ==> {
                            &&& bytes@.len() <= out.bytes@.len()
                            &&& out.bytes@.subrange(0, bytes@.len() as int) == bytes@
                            &&& out.report.bytes_appended == out.bytes@.len() - bytes@.len()
                        }
                    },
                    Err(e) => u.changed.len() > 0 && e@ == Failure::Pdf(Fault::Save),
                },
            },
        },
{
    let doc = match load_document(bytes.as_slice()) {
        Ok(d) => d,
        Err(e) => return Err(Error::Pdf(PdfError::Load(e))),
    };
    let update = plan_update(&doc, field_ids, mode)?;
    proof {
        lemma_objects_view(update.changed@);
    }
    if update.changed.len() == 0 {
        // Nothing to say: hand back the file exactly as it arrived rather
        // than appending a revision that changes nothing.
        return Ok(
            ResetOutput {
                bytes,
                report: ResetReport {
                    fields: update.fields,
                    mode,
                    objects_changed: 0,
                    need_appearances_set: false,
                    bytes_appended: 0,
                },
            },
        );
    }
    let out = match save_update(bytes.as_slice(), &update.changed) {
        Ok(out) => out,
        Err(e) => return Err(Error::Pdf(PdfError::Save(e))),
    };
    // The point of the incremental write is that the original file is still
    // there, byte for byte. Check it rather than trust it.
    if !starts_with(&out, &bytes) {
        return Err(Error::OriginalNotPreserved);
    }
    let appended = out.len() - bytes.len();
    Ok(
        ResetOutput {
            bytes: out,
            report: ResetReport {
                fields: update.fields,
                mode,
                objects_changed: update.changed.len(),
                need_appearances_set: update.need_appearances_set,
                bytes_appended: appended,
            },
        },
    )
}

/// Read the form out of a PDF held in memory.
pub fn read_form_bytes(bytes: &[u8]) -> (r: Result<Form, Error>)
    ensures
        match parsed_document(bytes@) {
            None => r matches Err(e) && e@ == Failure::Pdf(Fault::Load),
            Some(d) => match (r, spec_read_form(d)) {
                (Ok(form), Ok(view)) => form@ == view && form.well_formed(),
                (Err(e), Err(failure)) => e@ == failure,
                _ => false,
            },
        },
{
    match load_document(bytes) {
        Ok(doc) => read_form(&doc),
        Err(e) => Err(Error::Pdf(PdfError::Load(e))),
    }
}

/// The name of the temporary file a new revision of the file `file_name` is
/// written to before it replaces the original, in the same directory:
/// `.{file_name}.reset-tmp`, with `document.pdf` standing in for a path that
/// names no file.
pub fn temp_file_name(file_name: Option<&str>) -> (r: String)
    ensures
        r@ == "."@ + match file_name {
            Some(name) => name@,
            None => "document.pdf"@,
        } + ".reset-tmp"@,
{
    let mut s = String::from_str(".");
    match file_name {
        Some(name) => s.append(name),
        None => s.append("document.pdf"),
    }
    s.append(".reset-tmp");
    s
}

} // verus!
