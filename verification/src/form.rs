//! Reading the AcroForm field tree.
//!
//! The unit this library works in is the *terminal field*: the node in the
//! AcroForm tree that actually carries a value. For a radio button group that
//! is the single field the individual buttons hang off, which is why selecting
//! one and resetting it clears the whole group.

use vstd::prelude::*;
use crate::bridge::{decode_text, lossy_text, text_string, utf8_lossy};
use crate::document::{
    deref, deref_or_null, get_dictionary, get_object, DocView, Fault, PdfDocument, PdfError,
};
use crate::ids::{decode_id, encode_id, id_text, spec_decode_id};
use crate::names::{
    acro_form_name, annots_name, ap_name, as_name, btn_name, ch_name, dv_name, ff_name,
    fields_name, ft_name, kids_name, n_name, need_appearances_name, rect_name, root_name,
    sig_name, spec_acro_form_name, spec_annots_name, spec_ap_name, spec_as_name, spec_btn_name,
    spec_ch_name, spec_dv_name, spec_ff_name, spec_fields_name, spec_ft_name, spec_kids_name,
    spec_n_name, spec_need_appearances_name, spec_off_name, spec_rect_name, spec_root_name,
    spec_sig_name, spec_t_name, spec_tx_name, spec_v_name, t_name, tx_name, v_name,
};
use crate::object::{
    bytes_equal, copy_bytes, dict_get, dict_has, lemma_entries_view, lemma_items_view, DictView,
    Obj, ObjectId, PdfDict, PdfObject,
};
use crate::text::{display, display_value, is_empty_value, same_text, value_is_empty};
use crate::{Error, Failure};

verus! {

/// Field flag bit 1, ReadOnly (PDF 32000-1, table 221).
pub const FF_READ_ONLY: i64 = 1;

/// Button field flag bit 16, Radio (table 226).
pub const FF_RADIO: i64 = 32768;

/// Button field flag bit 17, Pushbutton (table 226).
pub const FF_PUSHBUTTON: i64 = 65536;

/// Choice field flag bit 18, Combo (table 230).
pub const FF_COMBO: i64 = 131072;

/// How deep the field tree is followed: a guard against a /Kids cycle in a
/// malformed file.
pub const MAX_DEPTH: usize = 64;

/// What kind of field a terminal field is.
#[derive(Clone, Copy, Debug, PartialEq, Eq, Structural)]
pub enum FieldKind {
    Radio,
    Checkbox,
    PushButton,
    Text,
    Combo,
    List,
    Signature,
    Unknown,
}

pub open spec fn spec_is_button(kind: FieldKind) -> bool {
    kind is Radio || kind is Checkbox || kind is PushButton
}

impl FieldKind {
    /// The name a user knows the kind by.
    pub fn label(self) -> (r: &'static str)
        ensures
            self is Radio ==> r@ == "radio group"@,
            self is Checkbox ==> r@ == "checkbox"@,
            self is PushButton ==> r@ == "push button"@,
            self is Text ==> r@ == "text field"@,
            self is Combo ==> r@ == "dropdown"@,
            self is List ==> r@ == "list box"@,
            self is Signature ==> r@ == "signature"@,
            self is Unknown ==> r@ == "field"@,
    {
        match self {
            FieldKind::Radio => "radio group",
            FieldKind::Checkbox => "checkbox",
            FieldKind::PushButton => "push button",
            FieldKind::Text => "text field",
            FieldKind::Combo => "dropdown",
            FieldKind::List => "list box",
            FieldKind::Signature => "signature",
            FieldKind::Unknown => "field",
        }
    }

    /// Radio groups, checkboxes and push buttons.
    pub fn is_button(self) -> (r: bool)
        ensures
            r == spec_is_button(self),
    {
        match self {
            FieldKind::Radio | FieldKind::Checkbox | FieldKind::PushButton => true,
            _ => false,
        }
    }
}

/// The kind a field type (/FT) and field flags (/Ff) make.
pub open spec fn spec_classify(field_type: Option<Seq<u8>>, flags: i64) -> FieldKind {
    match field_type {
        Some(t) => if t == spec_btn_name() {
            if flags & FF_PUSHBUTTON != 0 {
                FieldKind::PushButton
            } else if flags & FF_RADIO != 0 {
                FieldKind::Radio
            } else {
                FieldKind::Checkbox
            }
        } else if t == spec_tx_name() {
            FieldKind::Text
        } else if t == spec_ch_name() {
            if flags & FF_COMBO != 0 {
                FieldKind::Combo
            } else {
                FieldKind::List
            }
        } else if t == spec_sig_name() {
            FieldKind::Signature
        } else {
            FieldKind::Unknown
        },
        None => FieldKind::Unknown,
    }
}

/// The kind of field a field type (/FT) and field flags (/Ff) make.
pub fn classify(field_type: Option<&[u8]>, flags: i64) -> (r: FieldKind)
    ensures
        r == spec_classify(
            match field_type {
                Some(t) => Some(t@),
                None => None,
            },
            flags,
        ),
{
    match field_type {
        Some(t) => {
            if bytes_equal(t, btn_name().as_slice()) {
                if flags & FF_PUSHBUTTON != 0 {
                    FieldKind::PushButton
                } else if flags & FF_RADIO != 0 {
                    FieldKind::Radio
                } else {
                    FieldKind::Checkbox
                }
            } else if bytes_equal(t, tx_name().as_slice()) {
                FieldKind::Text
            } else if bytes_equal(t, ch_name().as_slice()) {
                if flags & FF_COMBO != 0 {
                    FieldKind::Combo
                } else {
                    FieldKind::List
                }
            } else if bytes_equal(t, sig_name().as_slice()) {
                FieldKind::Signature
            } else {
                FieldKind::Unknown
            }
        },
        None => FieldKind::Unknown,
    }
}

/// A number as a widget rectangle holds it.
#[derive(Debug)]
pub enum Coordinate {
    Integer(i64),
    /// The text of a real number, as [`PdfObject::Real`] holds it.
    Real(String),
}

impl View for Coordinate {
    type V = Obj;

    open spec fn view(&self) -> Obj {
        match self {
            Coordinate::Integer(n) => Obj::Integer(*n),
            Coordinate::Real(t) => Obj::Real(t@),
        }
    }
}

/// One on-page rectangle belonging to a field. A radio group has one per
/// button; most other fields have exactly one.
#[derive(Debug)]
pub struct Widget {
    /// Object id, as `"num gen"`.
    pub id: String,
    /// 0-based page index, or `None` when the widget is not on any page's
    /// /Annots array (a damaged file; it is then not clickable).
    pub page_index: Option<usize>,
    /// The four numbers of the widget's /Rect, `[x0, y0, x1, y1]` in PDF user
    /// space, as the file writes them.
    pub rect: Option<Vec<Coordinate>>,
    /// For a button widget, the /AP /N state that means "on" (the export
    /// value of this particular radio button or checkbox).
    pub on_state: Option<String>,
    /// The widget's current /AS appearance state.
    pub appearance_state: Option<String>,
}

/// A terminal field, as a user sees it.
#[derive(Debug)]
pub struct Field {
    /// Object id of the field dictionary, as `"num gen"`: the handle a reset
    /// is asked for by, unambiguous where two fields share a name.
    pub id: String,
    /// Fully qualified field name (`parent.child`), `""` when unnamed.
    pub name: String,
    pub kind: FieldKind,
    /// Current value, rendered for display.
    pub value: Option<String>,
    /// Value a reset restores (the field's /DV), when it has one.
    pub default_value: Option<String>,
    /// True when the field currently holds a value.
    pub has_value: bool,
    /// True when a reset to the default would change something.
    pub is_set: bool,
    /// False for fields this library refuses to touch (push buttons hold no
    /// value; signatures carry bytes a reset cannot honestly rewrite).
    pub resettable: bool,
    /// Why not, when `resettable` is false.
    pub note: Option<String>,
    pub read_only: bool,
    /// True when /V lives on an ancestor shared with sibling fields, so a
    /// reset necessarily clears those siblings too.
    pub shared_value: bool,
    pub widgets: Vec<Widget>,
}

/// Where the AcroForm dictionary lives, so /NeedAppearances can be set on it.
#[derive(Debug)]
pub enum AcroFormLocation {
    /// The usual case: /AcroForm is an indirect reference.
    Indirect(ObjectId),
    /// The dictionary is inline in the catalog, so the catalog is the object
    /// that has to be rewritten.
    InCatalog(ObjectId),
}

impl AcroFormLocation {
    pub fn copy(&self) -> (r: AcroFormLocation)
        ensures
            r == *self,
    {
        match self {
            AcroFormLocation::Indirect(id) => AcroFormLocation::Indirect(*id),
            AcroFormLocation::InCatalog(id) => AcroFormLocation::InCatalog(*id),
        }
    }
}

/// Where a widget's normal appearance stream lives.
#[derive(Debug)]
pub enum AppearanceRef {
    /// /AP /N is an indirect reference to a stream.
    Stream(ObjectId),
    /// /AP is a dictionary inline in the widget, holding /N as a stream.
    InlineInWidget(ObjectId),
    /// /AP is an indirect dictionary holding /N as a stream.
    InlineInApDict(ObjectId),
}

impl AppearanceRef {
    pub fn copy(&self) -> (r: AppearanceRef)
        ensures
            r == *self,
    {
        match self {
            AppearanceRef::Stream(id) => AppearanceRef::Stream(*id),
            AppearanceRef::InlineInWidget(id) => AppearanceRef::InlineInWidget(*id),
            AppearanceRef::InlineInApDict(id) => AppearanceRef::InlineInApDict(*id),
        }
    }
}

/// The object ids and values a reset needs, resolved while walking the tree.
#[derive(Debug)]
pub struct FieldRefs {
    pub field: ObjectId,
    /// Object that actually carries /V (the field, or an ancestor).
    pub value_owner: ObjectId,
    pub kind: FieldKind,
    pub current_value: Option<PdfObject>,
    pub default_value: Option<PdfObject>,
    pub widgets: Vec<WidgetRefs>,
}

#[derive(Debug)]
pub struct WidgetRefs {
    pub id: ObjectId,
    pub on_state: Option<Vec<u8>>,
    /// Where this widget's normal appearance stream lives, if any.
    pub normal_appearance: Option<AppearanceRef>,
}

/// The form of a document: its terminal fields in tree order, and what a
/// reset needs to know of each, in parallel.
#[derive(Debug)]
pub struct Form {
    pub fields: Vec<Field>,
    pub page_count: usize,
    pub need_appearances: bool,
    pub location: Option<AcroFormLocation>,
    /// Parallel to `fields`.
    pub field_ids: Vec<FieldRefs>,
}

// ---------------------------------------------------------------------------
// Views
// ---------------------------------------------------------------------------

pub open spec fn opt_text(o: Option<String>) -> Option<Seq<char>> {
    match o {
        Some(s) => Some(s@),
        None => None,
    }
}

pub open spec fn opt_bytes(o: Option<Vec<u8>>) -> Option<Seq<u8>> {
    match o {
        Some(s) => Some(s@),
        None => None,
    }
}

pub open spec fn opt_obj(o: Option<PdfObject>) -> Option<Obj> {
    match o {
        Some(s) => Some(s@),
        None => None,
    }
}

pub struct WidgetView {
    pub id: Seq<char>,
    pub page_index: Option<usize>,
    pub rect: Option<Seq<Obj>>,
    pub on_state: Option<Seq<char>>,
    pub appearance_state: Option<Seq<char>>,
}

impl View for Widget {
    type V = WidgetView;

    open spec fn view(&self) -> WidgetView {
        WidgetView {
            id: self.id@,
            page_index: self.page_index,
            rect: match self.rect {
                Some(r) => Some(coords_view(r@)),
                None => None,
            },
            on_state: opt_text(self.on_state),
            appearance_state: opt_text(self.appearance_state),
        }
    }
}

pub open spec fn widget_views(ws: Seq<Widget>) -> Seq<WidgetView> {
    ws.map_values(|w: Widget| w@)
}

pub open spec fn widget_refs_views(ws: Seq<WidgetRefs>) -> Seq<WidgetRefsView> {
    ws.map_values(|w: WidgetRefs| w@)
}

pub open spec fn coords_view(cs: Seq<Coordinate>) -> Seq<Obj> {
    cs.map_values(|c: Coordinate| c@)
}

pub struct FieldView {
    pub id: Seq<char>,
    pub name: Seq<char>,
    pub kind: FieldKind,
    pub value: Option<Seq<char>>,
    pub default_value: Option<Seq<char>>,
    pub has_value: bool,
    pub is_set: bool,
    pub resettable: bool,
    pub note: Option<Seq<char>>,
    pub read_only: bool,
    pub shared_value: bool,
    pub widgets: Seq<WidgetView>,
}

impl View for Field {
    type V = FieldView;

    open spec fn view(&self) -> FieldView {
        FieldView {
            id: self.id@,
            name: self.name@,
            kind: self.kind,
            value: opt_text(self.value),
            default_value: opt_text(self.default_value),
            has_value: self.has_value,
            is_set: self.is_set,
            resettable: self.resettable,
            note: opt_text(self.note),
            read_only: self.read_only,
            shared_value: self.shared_value,
            widgets: widget_views(self.widgets@),
        }
    }
}

pub struct WidgetRefsView {
    pub id: ObjectId,
    pub on_state: Option<Seq<u8>>,
    pub normal_appearance: Option<AppearanceRef>,
}

impl View for WidgetRefs {
    type V = WidgetRefsView;

    open spec fn view(&self) -> WidgetRefsView {
        WidgetRefsView {
            id: self.id,
            on_state: opt_bytes(self.on_state),
            normal_appearance: self.normal_appearance,
        }
    }
}

pub struct RefsView {
    pub field: ObjectId,
    pub value_owner: ObjectId,
    pub kind: FieldKind,
    pub current_value: Option<Obj>,
    pub default_value: Option<Obj>,
    pub widgets: Seq<WidgetRefsView>,
}

impl View for FieldRefs {
    type V = RefsView;

    open spec fn view(&self) -> RefsView {
        RefsView {
            field: self.field,
            value_owner: self.value_owner,
            kind: self.kind,
            current_value: opt_obj(self.current_value),
            default_value: opt_obj(self.default_value),
            widgets: widget_refs_views(self.widgets@),
        }
    }
}

/// A field and what a reset needs of it.
pub type Record = (FieldView, RefsView);

pub struct FormView {
    pub records: Seq<Record>,
    pub page_count: nat,
    pub need_appearances: bool,
    pub location: Option<AcroFormLocation>,
}

pub open spec fn records_of(fields: Seq<Field>, refs: Seq<FieldRefs>) -> Seq<Record> {
    Seq::new(fields.len(), |i: int| (fields[i]@, refs[i]@))
}

impl View for Form {
    type V = FormView;

    open spec fn view(&self) -> FormView {
        FormView {
            records: records_of(self.fields@, self.field_ids@),
            page_count: self.page_count as nat,
            need_appearances: self.need_appearances,
            location: self.location,
        }
    }
}

impl Form {
    /// The fields and their references run in parallel.
    pub open spec fn well_formed(&self) -> bool {
        self.fields@.len() == self.field_ids@.len()
    }

    /// The object id of the first field called `name`, or whose id is
    /// written `name`.
    pub fn find_field(&self, name: &str) -> (r: Option<ObjectId>)
        ensures
            r == find_field(self@, name@),
    {
        let wanted = String::from_str(name);
        let mut i: usize = 0;
        while i < self.fields.len()
            invariant
                i <= self.fields@.len(),
                wanted@ == name@,
                forall|j: int| 0 <= j < i ==> !called(#[trigger] self@.records[j].0, name@),
            decreases self.fields@.len() - i,
        {
            let field = &self.fields[i];
            assert(self@.records[i as int].0 == field@);
            if same_text(&field.name, &wanted) || same_text(&field.id, &wanted) {
                proof {
                    assert(is_first_called(self@, name@, i as int));
                    lemma_first_called_unique(self@, name@, i as int);
                }
                return decode_id(field.id.as_str());
            }
            i += 1;
        }
        proof {
            assert forall|j: int| !is_first_called(self@, name@, j) by {
                if is_first_called(self@, name@, j) {
                    assert(called(self@.records[j].0, name@));
                }
            }
        }
        None
    }
}

/// Whether a field is called `name`, or has the id written `name`.
pub open spec fn called(f: FieldView, name: Seq<char>) -> bool {
    f.name == name || f.id == name
}

/// Whether `i` is the position of the first field called `name`.
pub open spec fn is_first_called(form: FormView, name: Seq<char>, i: int) -> bool {
    &&& 0 <= i < form.records.len()
    &&& called(form.records[i].0, name)
    &&& forall|j: int| 0 <= j < i ==> !called(#[trigger] form.records[j].0, name)
}

/// The object id of the first field called `name`, read from its id text.
pub open spec fn find_field(form: FormView, name: Seq<char>) -> Option<ObjectId> {
    if exists|i: int| is_first_called(form, name, i) {
        spec_decode_id(form.records[choose|i: int| is_first_called(form, name, i)].0.id)
    } else {
        None
    }
}

proof fn lemma_first_called_unique(form: FormView, name: Seq<char>, i: int)
    requires
        is_first_called(form, name, i),
    ensures
        (choose|j: int| is_first_called(form, name, j)) == i,
{
    let j = choose|j: int| is_first_called(form, name, j);
    assert(is_first_called(form, name, j));
    if j < i {
        assert(!called(form.records[j].0, name));
    }
    if i < j {
        assert(!called(form.records[i].0, name));
    }
}

// ---------------------------------------------------------------------------
// The field tree, as PDF 32000-1 12.7.3.1 lays it out
// ---------------------------------------------------------------------------

/// Entries a terminal field can inherit from its ancestors.
pub struct InheritedView {
    pub field_type: Option<Seq<u8>>,
    pub flags: i64,
    /// The value, and the object it was found on.
    pub value: Option<(ObjectId, Obj)>,
    pub default_value: Option<Obj>,
}

pub open spec fn no_inheritance() -> InheritedView {
    InheritedView { field_type: None, flags: 0, value: None, default_value: None }
}

/// What a field dictionary `dict`, numbered `id`, inherits from `parent` and
/// sets for itself.
pub open spec fn inherit(
    objs: Seq<(ObjectId, Obj)>,
    id: ObjectId,
    dict: DictView,
    parent: InheritedView,
) -> InheritedView {
    InheritedView {
        field_type: match dict_get(dict, spec_ft_name()) {
            Some(Obj::Name(n)) => Some(n),
            _ => parent.field_type,
        },
        flags: match dict_get(dict, spec_ff_name()) {
            Some(Obj::Integer(f)) => f,
            _ => parent.flags,
        },
        value: match dict_get(dict, spec_v_name()) {
            Some(v) => Some((id, deref_or_null(objs, v))),
            None => parent.value,
        },
        default_value: match dict_get(dict, spec_dv_name()) {
            Some(v) => Some(deref_or_null(objs, v)),
            None => parent.default_value,
        },
    }
}

/// A field's partial name (/T), decoded as a text string.
pub open spec fn title_of(dict: DictView) -> Option<Seq<char>> {
    match dict_get(dict, spec_t_name()) {
        Some(Obj::Str(bytes, _)) => text_string(bytes),
        _ => None,
    }
}

/// A field's fully qualified name: its parent's name, a dot and its own
/// partial name; or whichever of the two it has.
pub open spec fn field_name(dict: DictView, prefix: Option<Seq<char>>) -> Seq<char> {
    match title_of(dict) {
        Some(part) => match prefix {
            Some(p) => if p.len() > 0 {
                p + seq!['.'] + part
            } else {
                part
            },
            None => part,
        },
        None => match prefix {
            Some(p) => p,
            None => Seq::empty(),
        },
    }
}

/// The entries of a dictionary's /Kids array, references followed to the
/// array itself.
pub open spec fn kids_of(objs: Seq<(ObjectId, Obj)>, dict: DictView) -> Seq<Obj> {
    match dict_get(dict, spec_kids_name()) {
        Some(k) => match deref(objs, k) {
            Ok(Obj::Array(items)) => items,
            _ => Seq::empty(),
        },
        None => Seq::empty(),
    }
}

/// Whether a kid numbered `kid` is a field (it has /T or /Kids) rather than
/// a widget kept apart from its field. `None` when it is no dictionary.
pub open spec fn kid_is_field(objs: Seq<(ObjectId, Obj)>, kid: ObjectId) -> Option<bool> {
    match get_dictionary(objs, kid) {
        Ok(d) => Some(dict_has(d, spec_t_name()) || dict_has(d, spec_kids_name())),
        Err(_) => None,
    }
}

/// The kids that are fields (`fields` true) or widgets (`fields` false), in
/// order; kids that are not references to dictionaries are neither.
pub open spec fn split_kids(objs: Seq<(ObjectId, Obj)>, kids: Seq<Obj>, fields: bool) -> Seq<
    ObjectId,
>
    decreases kids.len(),
{
    if kids.len() == 0 {
        Seq::empty()
    } else {
        let rest = split_kids(objs, kids.drop_last(), fields);
        match kids.last() {
            Obj::Reference(kid) => match kid_is_field(objs, kid) {
                Some(is_field) => if is_field == fields {
                    rest.push(kid)
                } else {
                    rest
                },
                None => rest,
            },
            _ => rest,
        }
    }
}

/// A terminal field met on the walk: its number, its name, what it
/// inherits, and its widget annotations.
pub struct Emission {
    pub id: ObjectId,
    pub name: Seq<char>,
    pub state: InheritedView,
    pub widget_ids: Seq<ObjectId>,
}

/// The terminal fields under the node `id`, depth first, and the nodes seen
/// once it has been walked. A node already seen, or deeper than
/// [`MAX_DEPTH`], is not walked again.
pub open spec fn walk(
    objs: Seq<(ObjectId, Obj)>,
    id: ObjectId,
    parent: InheritedView,
    prefix: Option<Seq<char>>,
    depth: int,
    seen: Set<ObjectId>,
) -> (Seq<Emission>, Set<ObjectId>)
    decreases MAX_DEPTH + 2 - depth, 0int,
{
    if depth > MAX_DEPTH || depth < 0 || seen.contains(id) {
        (Seq::empty(), seen)
    } else {
        let seen1 = seen.insert(id);
        match get_dictionary(objs, id) {
            Err(_) => (Seq::empty(), seen1),
            Ok(dict) => {
                let state = inherit(objs, id, dict, parent);
                let name = field_name(dict, prefix);
                let kids = kids_of(objs, dict);
                let children = split_kids(objs, kids, true);
                let widgets = split_kids(objs, kids, false);
                let below = walk_list(
                    objs,
                    children,
                    state,
                    Some(name),
                    depth + 1,
                    seen1,
                    children.len() as int,
                );
                if state.field_type is None || children.len() > 0 {
                    below
                } else {
                    let widget_ids = if widgets.len() > 0 {
                        widgets
                    } else if dict_has(dict, spec_rect_name()) || dict_has(dict, spec_ap_name()) {
                        seq![id]
                    } else {
                        Seq::empty()
                    };
                    (
                        below.0.push(
                            Emission { id, name, state, widget_ids },
                        ),
                        below.1,
                    )
                }
            },
        }
    }
}

/// The terminal fields under the first `n` of `ids`, walked in order.
pub open spec fn walk_list(
    objs: Seq<(ObjectId, Obj)>,
    ids: Seq<ObjectId>,
    parent: InheritedView,
    prefix: Option<Seq<char>>,
    depth: int,
    seen: Set<ObjectId>,
    n: int,
) -> (Seq<Emission>, Set<ObjectId>)
    decreases MAX_DEPTH + 2 - depth, n + 1,
{
    if n <= 0 || n > ids.len() || depth > MAX_DEPTH + 1 {
        (Seq::empty(), seen)
    } else {
        let before = walk_list(objs, ids, parent, prefix, depth, seen, n - 1);
        let last = walk(objs, ids[n - 1], parent, prefix, depth, before.1);
        (before.0 + last.0, last.1)
    }
}


// ---------------------------------------------------------------------------
// One terminal field, as a user and a reset see it
// ---------------------------------------------------------------------------

/// The text `Off`.
pub open spec fn off_text() -> Seq<char> {
    seq!['O', 'f', 'f']
}

/// Whether `i` is the position of the first state that is not /Off.
pub open spec fn is_first_non_off(states: DictView, i: int) -> bool {
    &&& 0 <= i < states.len()
    &&& states[i].0 != spec_off_name()
    &&& forall|j: int| 0 <= j < i ==> states[j].0 == spec_off_name()
}

/// The first appearance state that is not /Off.
pub open spec fn first_non_off(states: DictView) -> Option<Seq<u8>> {
    if exists|i: int| is_first_non_off(states, i) {
        Some(states[choose|i: int| is_first_non_off(states, i)].0)
    } else {
        None
    }
}

/// The /AP /N key of a widget that is not /Off: the export value of a button.
pub open spec fn on_state_of(objs: Seq<(ObjectId, Obj)>, w: DictView) -> Option<Seq<u8>> {
    match dict_get(w, spec_ap_name()) {
        Some(ap) => match deref(objs, ap) {
            Ok(Obj::Dict(apd)) => match dict_get(apd, spec_n_name()) {
                Some(normal) => match deref(objs, normal) {
                    Ok(Obj::Dict(states)) => first_non_off(states),
                    _ => None,
                },
                None => None,
            },
            _ => None,
        },
        None => None,
    }
}

/// Where a widget's normal appearance stream lives. A button's /AP /N is a
/// dictionary of states rather than a stream, written inline or by
/// reference, so it has none.
pub open spec fn normal_appearance_of(
    objs: Seq<(ObjectId, Obj)>,
    wid: ObjectId,
    w: DictView,
) -> Option<AppearanceRef> {
    match dict_get(w, spec_ap_name()) {
        Some(ap_entry) => match deref(objs, ap_entry) {
            Ok(Obj::Dict(ap)) => match dict_get(ap, spec_n_name()) {
                Some(Obj::Reference(sid)) => match get_object(objs, sid) {
                    Ok(Obj::Stream(_)) => Some(AppearanceRef::Stream(sid)),
                    _ => None,
                },
                Some(Obj::Stream(_)) => Some(
                    match ap_entry {
                        Obj::Reference(ap_id) => AppearanceRef::InlineInApDict(ap_id),
                        _ => AppearanceRef::InlineInWidget(wid),
                    },
                ),
                _ => None,
            },
            _ => None,
        },
        None => None,
    }
}

/// A number, references followed: an integer or a real.
pub open spec fn number_of(objs: Seq<(ObjectId, Obj)>, v: Obj) -> Option<Obj> {
    match deref(objs, v) {
        Ok(Obj::Integer(n)) => Some(Obj::Integer(n)),
        Ok(Obj::Real(t)) => Some(Obj::Real(t)),
        _ => None,
    }
}

/// A widget's /Rect: an array of exactly four numbers.
pub open spec fn rect_of(objs: Seq<(ObjectId, Obj)>, w: DictView) -> Option<Seq<Obj>> {
    match dict_get(w, spec_rect_name()) {
        Some(r) => match deref(objs, r) {
            Ok(Obj::Array(vals)) => if vals.len() == 4 && (forall|i: int|
                0 <= i < 4 ==> #[trigger] number_of(objs, vals[i]) is Some) {
                Some(Seq::new(4, |i: int| number_of(objs, vals[i]).unwrap()))
            } else {
                None
            },
            _ => None,
        },
        None => None,
    }
}

/// Whether the page numbered `page` lists the widget in its /Annots.
pub open spec fn page_has_annot(objs: Seq<(ObjectId, Obj)>, page: ObjectId, wid: ObjectId) -> bool {
    match get_dictionary(objs, page) {
        Ok(pd) => match dict_get(pd, spec_annots_name()) {
            Some(a) => match deref(objs, a) {
                Ok(Obj::Array(items)) => items.contains(Obj::Reference(wid)),
                _ => false,
            },
            None => false,
        },
        Err(_) => false,
    }
}

pub open spec fn is_first_page(
    objs: Seq<(ObjectId, Obj)>,
    pages: Seq<ObjectId>,
    wid: ObjectId,
    i: int,
) -> bool {
    &&& 0 <= i < pages.len()
    &&& page_has_annot(objs, pages[i], wid)
    &&& forall|j: int| 0 <= j < i ==> !page_has_annot(objs, pages[j], wid)
}

/// The first page whose /Annots lists the widget.
pub open spec fn page_of(objs: Seq<(ObjectId, Obj)>, pages: Seq<ObjectId>, wid: ObjectId) -> Option<
    usize,
> {
    if exists|i: int| is_first_page(objs, pages, wid, i) {
        Some((choose|i: int| is_first_page(objs, pages, wid, i)) as usize)
    } else {
        None
    }
}

/// The widgets among `wids` that are dictionaries, with their dictionaries.
pub open spec fn widget_entries(objs: Seq<(ObjectId, Obj)>, wids: Seq<ObjectId>) -> Seq<
    (ObjectId, DictView),
>
    decreases wids.len(),
{
    if wids.len() == 0 {
        Seq::empty()
    } else {
        let rest = widget_entries(objs, wids.drop_last());
        match get_dictionary(objs, wids.last()) {
            Ok(d) => rest.push((wids.last(), d)),
            Err(_) => rest,
        }
    }
}

/// A widget's /AS, as text.
pub open spec fn appearance_state_of(w: DictView) -> Option<Seq<char>> {
    match dict_get(w, spec_as_name()) {
        Some(Obj::Name(n)) => Some(utf8_lossy(n)),
        _ => None,
    }
}

pub open spec fn lossy_opt(o: Option<Seq<u8>>) -> Option<Seq<char>> {
    match o {
        Some(b) => Some(utf8_lossy(b)),
        None => None,
    }
}

pub open spec fn button_on_state(objs: Seq<(ObjectId, Obj)>, kind: FieldKind, w: DictView) -> Option<
    Seq<u8>,
> {
    if spec_is_button(kind) {
        on_state_of(objs, w)
    } else {
        None
    }
}

pub open spec fn widget_view(
    objs: Seq<(ObjectId, Obj)>,
    pages: Seq<ObjectId>,
    kind: FieldKind,
    entry: (ObjectId, DictView),
) -> WidgetView {
    WidgetView {
        id: id_text(entry.0),
        page_index: page_of(objs, pages, entry.0),
        rect: rect_of(objs, entry.1),
        on_state: lossy_opt(button_on_state(objs, kind, entry.1)),
        appearance_state: appearance_state_of(entry.1),
    }
}

pub open spec fn widget_refs_view(
    objs: Seq<(ObjectId, Obj)>,
    kind: FieldKind,
    entry: (ObjectId, DictView),
) -> WidgetRefsView {
    WidgetRefsView {
        id: entry.0,
        on_state: button_on_state(objs, kind, entry.1),
        normal_appearance: normal_appearance_of(objs, entry.0, entry.1),
    }
}

pub open spec fn widget_views_of(
    objs: Seq<(ObjectId, Obj)>,
    pages: Seq<ObjectId>,
    kind: FieldKind,
    entries: Seq<(ObjectId, DictView)>,
) -> Seq<WidgetView> {
    entries.map_values(|x: (ObjectId, DictView)| widget_view(objs, pages, kind, x))
}

pub open spec fn widget_refs_views_of(
    objs: Seq<(ObjectId, Obj)>,
    kind: FieldKind,
    entries: Seq<(ObjectId, DictView)>,
) -> Seq<WidgetRefsView> {
    entries.map_values(|x: (ObjectId, DictView)| widget_refs_view(objs, kind, x))
}

/// A button widget is stale when it shows "on" but is not the chosen one.
pub open spec fn widget_stale(w: WidgetView, target: Seq<char>) -> bool {
    match (w.appearance_state, w.on_state) {
        (Some(state), Some(on)) => state == on && state != target,
        (Some(state), None) => state != off_text() && state != target,
        _ => false,
    }
}

/// The state a button is drawn in once reset: the default's text, else the
/// value's, else `Off`.
pub open spec fn button_target(value: Option<Obj>, default: Option<Obj>) -> Seq<char> {
    let t = match (value, default) {
        (_, Some(d)) => display(d),
        (Some(v), None) => display(v),
        (None, None) => off_text(),
    };
    if t.len() == 0 {
        off_text()
    } else {
        t
    }
}

/// Whether a reset would change anything. For buttons this also looks at
/// the widgets' /AS, because a stale appearance state is exactly the kind of
/// leftover a reset exists to clear.
pub open spec fn spec_differs(
    value: Option<Obj>,
    default: Option<Obj>,
    kind: FieldKind,
    widgets: Seq<WidgetView>,
) -> bool {
    let value_differs = match (value, default) {
        (None, None) => false,
        (Some(v), None) => !is_empty_value(v),
        (None, Some(d)) => !is_empty_value(d),
        (Some(v), Some(d)) => display(v) != display(d),
    };
    if value_differs {
        true
    } else if spec_is_button(kind) {
        exists|i: int|
            0 <= i < widgets.len() && widget_stale(
                #[trigger] widgets[i],
                button_target(value, default),
            )
    } else {
        false
    }
}

/// Whether the field holds a value: a non-empty /V, or a widget drawn in a
/// state other than `Off`.
pub open spec fn spec_has_value(value: Option<Obj>, widgets: Seq<WidgetView>) -> bool {
    ||| (value matches Some(v) && !is_empty_value(v))
    ||| exists|i: int| 0 <= i < widgets.len() && shows_on(#[trigger] widgets[i])
}

/// Whether a widget is drawn in a state other than `Off`.
pub open spec fn shows_on(w: WidgetView) -> bool {
    match w.appearance_state {
        Some(s) => s != off_text(),
        None => false,
    }
}

pub open spec fn spec_resettable(kind: FieldKind) -> bool {
    !(kind is PushButton || kind is Signature)
}

pub open spec fn field_note(kind: FieldKind) -> Option<Seq<char>> {
    if kind is PushButton {
        Some("A push button holds no value."@)
    } else if kind is Signature {
        Some("Clearing a signature field is outside what this tool does."@)
    } else {
        None
    }
}

/// What the value of an emission is, without the object it was found on.
pub open spec fn emitted_value(e: Emission) -> Option<Obj> {
    match e.state.value {
        Some(p) => Some(p.1),
        None => None,
    }
}

/// The object that carries the emission's /V: the field, or an ancestor.
pub open spec fn emitted_owner(e: Emission) -> ObjectId {
    match e.state.value {
        Some(p) => p.0,
        None => e.id,
    }
}

pub open spec fn display_of(o: Option<Obj>) -> Option<Seq<char>> {
    match o {
        Some(v) => Some(display(v)),
        None => None,
    }
}

/// The field, and what a reset needs of it, that a terminal field makes.
pub open spec fn emitted(objs: Seq<(ObjectId, Obj)>, pages: Seq<ObjectId>, e: Emission) -> Record {
    let kind = spec_classify(e.state.field_type, e.state.flags);
    let value = emitted_value(e);
    let entries = widget_entries(objs, e.widget_ids);
    let widgets = widget_views_of(objs, pages, kind, entries);
    let wrefs = widget_refs_views_of(objs, kind, entries);
    let resettable = spec_resettable(kind);
    (
        FieldView {
            id: id_text(e.id),
            name: e.name,
            kind,
            value: display_of(value),
            default_value: display_of(e.state.default_value),
            has_value: resettable && spec_has_value(value, widgets),
            is_set: resettable && spec_differs(value, e.state.default_value, kind, widgets),
            resettable,
            note: field_note(kind),
            read_only: e.state.flags & FF_READ_ONLY != 0,
            shared_value: emitted_owner(e) != e.id,
            widgets,
        },
        RefsView {
            field: e.id,
            value_owner: emitted_owner(e),
            kind,
            current_value: value,
            default_value: e.state.default_value,
            widgets: wrefs,
        },
    )
}

pub open spec fn emit_all(objs: Seq<(ObjectId, Obj)>, pages: Seq<ObjectId>, em: Seq<Emission>) -> Seq<
    Record,
> {
    em.map_values(|e: Emission| emitted(objs, pages, e))
}


// ---------------------------------------------------------------------------
// Reading one widget
// ---------------------------------------------------------------------------

/// The first appearance state that is not /Off.
#[verifier::loop_isolation(false)]
fn first_non_off_key(states: &PdfDict) -> (r: Option<Vec<u8>>)
    ensures
        opt_bytes(r) == first_non_off(states@),
{
    proof {
        lemma_entries_view(states.entries@);
    }
    let off = crate::names::off_name();
    let mut i: usize = 0;
    while i < states.entries.len()
        invariant
            i <= states.entries@.len(),
            off@ == spec_off_name(),
            states@.len() == states.entries@.len(),
            forall|j: int|
                0 <= j < states@.len() ==> #[trigger] states@[j].0 == states.entries@[j].0@,
            forall|j: int| 0 <= j < i ==> states@[j].0 == spec_off_name(),
        decreases states.entries@.len() - i,
    {
        if !bytes_equal(states.entries[i].0.as_slice(), off.as_slice()) {
            proof {
                assert(is_first_non_off(states@, i as int));
                let c = choose|k: int| is_first_non_off(states@, k);
                assert(is_first_non_off(states@, c));
                if c < i {
                    assert(states@[c].0 == spec_off_name());
                }
                if i < c {
                    assert(states@[i as int].0 == spec_off_name());
                }
            }
            return Some(copy_bytes(states.entries[i].0.as_slice()));
        }
        i += 1;
    }
    None
}

/// The /AP /N key of a widget that is not /Off: the export value of a button.
fn on_state(doc: &PdfDocument, widget: &PdfDict) -> (r: Option<Vec<u8>>)
    ensures
        opt_bytes(r) == on_state_of(doc@.objects, widget@),
{
    let ap = match widget.get(ap_name().as_slice()) {
        Some(o) => o,
        None => return None,
    };
    let ap = match doc.deref(ap) {
        Ok(PdfObject::Dictionary(d)) => d,
        _ => return None,
    };
    let normal = match ap.get(n_name().as_slice()) {
        Some(o) => o,
        None => return None,
    };
    match doc.deref(normal) {
        Ok(PdfObject::Dictionary(states)) => first_non_off_key(states),
        _ => None,
    }
}

/// Where a widget's normal appearance stream lives.
fn normal_appearance(doc: &PdfDocument, widget_id: ObjectId, widget: &PdfDict) -> (r: Option<
    AppearanceRef,
>)
    ensures
        r == normal_appearance_of(doc@.objects, widget_id, widget@),
{
    let ap_entry = match widget.get(ap_name().as_slice()) {
        Some(o) => o,
        None => return None,
    };
    let ap = match doc.deref(ap_entry) {
        Ok(PdfObject::Dictionary(d)) => d,
        _ => return None,
    };
    match ap.get(n_name().as_slice()) {
        Some(PdfObject::Reference(id)) => match doc.get_object(*id) {
            Ok(PdfObject::Stream(_)) => Some(AppearanceRef::Stream(*id)),
            _ => None,
        },
        Some(PdfObject::Stream(_)) => Some(
            match ap_entry {
                PdfObject::Reference(ap_id) => AppearanceRef::InlineInApDict(*ap_id),
                _ => AppearanceRef::InlineInWidget(widget_id),
            },
        ),
        _ => None,
    }
}

/// A number, references followed.
fn number(doc: &PdfDocument, v: &PdfObject) -> (r: Option<Coordinate>)
    ensures
        match r {
            Some(c) => number_of(doc@.objects, v@) == Some(c@),
            None => number_of(doc@.objects, v@) is None,
        },
{
    match doc.deref(v) {
        Ok(PdfObject::Integer(n)) => Some(Coordinate::Integer(*n)),
        Ok(PdfObject::Real(t)) => Some(Coordinate::Real(t.clone())),
        _ => None,
    }
}

/// A widget's /Rect: exactly four numbers.
#[verifier::loop_isolation(false)]
fn rect(doc: &PdfDocument, widget: &PdfDict) -> (r: Option<Vec<Coordinate>>)
    ensures
        match r {
            Some(v) => rect_of(doc@.objects, widget@) == Some(coords_view(v@)),
            None => rect_of(doc@.objects, widget@) is None,
        },
{
    let entry = match widget.get(rect_name().as_slice()) {
        Some(o) => o,
        None => return None,
    };
    let values = match doc.deref(entry) {
        Ok(PdfObject::Array(values)) => values,
        _ => return None,
    };
    let ghost vals = items_of(doc@.objects, entry@);
    proof {
        lemma_items_view(values@);
    }
    if values.len() != 4 {
        return None;
    }
    let mut out: Vec<Coordinate> = Vec::new();
    let mut i: usize = 0;
    while i < 4
        invariant
            i <= 4,
            values@.len() == 4,
            vals.len() == 4,
            forall|j: int| 0 <= j < 4 ==> #[trigger] vals[j] == values@[j]@,
            out@.len() == i,
            forall|j: int|
                0 <= j < i ==> number_of(doc@.objects, vals[j]) == Some(#[trigger] out@[j]@),
        decreases 4 - i,
    {
        match number(doc, &values[i]) {
            Some(c) => out.push(c),
            None => {
                assert(number_of(doc@.objects, vals[i as int]) is None);
                assert(rect_of(doc@.objects, widget@) is None);
                return None;
            },
        }
        i += 1;
    }
    assert forall|j: int| 0 <= j < 4 implies #[trigger] number_of(doc@.objects, vals[j]) is Some by {
        assert(number_of(doc@.objects, vals[j]) == Some(out@[j]@));
    }
    assert(coords_view(out@) =~= Seq::new(
        4,
        |j: int| number_of(doc@.objects, vals[j]).unwrap(),
    ));
    assert(deref(doc@.objects, entry@) == Ok::<Obj, Fault>(Obj::Array(vals)));
    Some(out)
}

/// The items an object's array holds, references followed; nothing when it
/// is no array.
pub open spec fn items_of(objs: Seq<(ObjectId, Obj)>, o: Obj) -> Seq<Obj> {
    match deref(objs, o) {
        Ok(Obj::Array(items)) => items,
        _ => Seq::empty(),
    }
}

/// Whether the page numbered `page` lists the widget in its /Annots.
#[verifier::loop_isolation(false)]
fn page_lists(doc: &PdfDocument, page: ObjectId, widget_id: ObjectId) -> (r: bool)
    ensures
        r == page_has_annot(doc@.objects, page, widget_id),
{
    let pd = match doc.get_dictionary(page) {
        Ok(d) => d,
        Err(_) => return false,
    };
    let annots = match pd.get(annots_name().as_slice()) {
        Some(o) => o,
        None => return false,
    };
    let items = match doc.deref(annots) {
        Ok(PdfObject::Array(items)) => items,
        _ => return false,
    };
    let ghost view = items_of(doc@.objects, annots@);
    proof {
        lemma_items_view(items@);
    }
    let mut i: usize = 0;
    while i < items.len()
        invariant
            i <= items@.len(),
            view.len() == items@.len(),
            forall|j: int| 0 <= j < items@.len() ==> #[trigger] view[j] == items@[j]@,
            forall|j: int| 0 <= j < i ==> view[j] != Obj::Reference(widget_id),
        decreases items@.len() - i,
    {
        match &items[i] {
            PdfObject::Reference(id) => {
                if id.0 == widget_id.0 && id.1 == widget_id.1 {
                    assert(view[i as int] == Obj::Reference(widget_id));
                    return true;
                }
            },
            _ => {},
        }
        i += 1;
    }
    false
}

/// The first page whose /Annots lists the widget. /Annots is the
/// authoritative link; a widget's own /P entry is optional and often absent.
#[verifier::loop_isolation(false)]
fn page_index_of(doc: &PdfDocument, widget_id: ObjectId) -> (r: Option<usize>)
    ensures
        r == page_of(doc@.objects, doc@.pages, widget_id),
{
    let mut i: usize = 0;
    while i < doc.pages.len()
        invariant
            i <= doc@.pages.len(),
            forall|j: int| 0 <= j < i ==> !page_has_annot(doc@.objects, doc@.pages[j], widget_id),
        decreases doc@.pages.len() - i,
    {
        if page_lists(doc, doc.pages[i], widget_id) {
            proof {
                assert(is_first_page(doc@.objects, doc@.pages, widget_id, i as int));
                let c = choose|k: int| is_first_page(doc@.objects, doc@.pages, widget_id, k);
                assert(is_first_page(doc@.objects, doc@.pages, widget_id, c));
                if c < i {
                    assert(!page_has_annot(doc@.objects, doc@.pages[c], widget_id));
                }
                if i < c {
                    assert(!page_has_annot(doc@.objects, doc@.pages[i as int], widget_id));
                }
            }
            return Some(i);
        }
        i += 1;
    }
    None
}

/// A widget's /AS, as text.
fn appearance_state(widget: &PdfDict) -> (r: Option<String>)
    ensures
        opt_text(r) == appearance_state_of(widget@),
{
    match widget.get(as_name().as_slice()) {
        Some(PdfObject::Name(n)) => Some(lossy_text(n.as_slice())),
        _ => None,
    }
}

fn lossy_option(o: &Option<Vec<u8>>) -> (r: Option<String>)
    ensures
        opt_text(r) == lossy_opt(opt_bytes(*o)),
{
    match o {
        Some(b) => Some(lossy_text(b.as_slice())),
        None => None,
    }
}

fn off_string() -> (r: String)
    ensures
        r@ == off_text(),
{
    let s = String::from_str("Off");
    proof {
        reveal_strlit("Off");
    }
    s
}

/// The state a button is drawn in once reset.
fn target_state(value: Option<&PdfObject>, default: Option<&PdfObject>) -> (r: String)
    ensures
        r@ == button_target(
            match value {
                Some(v) => Some(v@),
                None => None,
            },
            match default {
                Some(d) => Some(d@),
                None => None,
            },
        ),
{
    let t = match (value, default) {
        (_, Some(d)) => display_value(d),
        (Some(v), None) => display_value(v),
        (None, None) => off_string(),
    };
    if t.unicode_len() == 0 {
        off_string()
    } else {
        t
    }
}

/// Whether a reset would change anything.
#[verifier::loop_isolation(false)]
fn differs_from_reset(
    value: Option<&PdfObject>,
    default: Option<&PdfObject>,
    kind: FieldKind,
    widgets: &Vec<Widget>,
) -> (r: bool)
    ensures
        r == spec_differs(
            match value {
                Some(v) => Some(v@),
                None => None,
            },
            match default {
                Some(d) => Some(d@),
                None => None,
            },
            kind,
            widget_views(widgets@),
        ),
{
    let ghost views = widget_views(widgets@);
    let value_differs = match (value, default) {
        (None, None) => false,
        (Some(v), None) => !value_is_empty(v),
        (None, Some(d)) => !value_is_empty(d),
        (Some(v), Some(d)) => !same_text(&display_value(v), &display_value(d)),
    };
    if value_differs {
        return true;
    }
    if !kind.is_button() {
        return false;
    }
    let target = target_state(value, default);
    let off = off_string();
    let mut i: usize = 0;
    while i < widgets.len()
        invariant
            i <= widgets@.len(),
            views.len() == widgets@.len(),
            forall|j: int| 0 <= j < widgets@.len() ==> #[trigger] views[j] == widgets@[j]@,
            off@ == off_text(),
            forall|j: int| 0 <= j < i ==> !widget_stale(#[trigger] views[j], target@),
        decreases widgets@.len() - i,
    {
        let w = &widgets[i];
        let stale = match (&w.appearance_state, &w.on_state) {
            (Some(state), Some(on)) => same_text(state, on) && !same_text(state, &target),
            (Some(state), None) => !same_text(state, &off) && !same_text(state, &target),
            _ => false,
        };
        if stale {
            assert(widget_stale(views[i as int], target@));
            return true;
        }
        i += 1;
    }
    false
}

/// Whether any widget is drawn in a state other than `Off`.
#[verifier::loop_isolation(false)]
fn any_widget_on(widgets: &Vec<Widget>) -> (r: bool)
    ensures
        r == exists|i: int|
            0 <= i < widgets@.len() && shows_on(
                #[trigger] widget_views(widgets@)[i],
            ),
{
    let ghost views = widget_views(widgets@);
    let off = off_string();
    let mut i: usize = 0;
    while i < widgets.len()
        invariant
            i <= widgets@.len(),
            views.len() == widgets@.len(),
            forall|j: int| 0 <= j < widgets@.len() ==> #[trigger] views[j] == widgets@[j]@,
            off@ == off_text(),
            forall|j: int| 0 <= j < i ==> !shows_on(#[trigger] views[j]),
        decreases widgets@.len() - i,
    {
        match &widgets[i].appearance_state {
            Some(state) => {
                if !same_text(state, &off) {
                    assert(shows_on(views[i as int]));
                    return true;
                }
            },
            None => {},
        }
        i += 1;
    }
    false
}


// ---------------------------------------------------------------------------
// Walking the tree
// ---------------------------------------------------------------------------

/// Entries a terminal field can inherit from its ancestors.
pub struct Inherited {
    pub field_type: Option<Vec<u8>>,
    pub flags: i64,
    /// The value, and the object it was found on.
    pub value: Option<(ObjectId, PdfObject)>,
    pub default_value: Option<PdfObject>,
}

impl View for Inherited {
    type V = InheritedView;

    open spec fn view(&self) -> InheritedView {
        InheritedView {
            field_type: opt_bytes(self.field_type),
            flags: self.flags,
            value: match self.value {
                Some(p) => Some((p.0, p.1@)),
                None => None,
            },
            default_value: opt_obj(self.default_value),
        }
    }
}

fn copy_opt_bytes(o: &Option<Vec<u8>>) -> (r: Option<Vec<u8>>)
    ensures
        opt_bytes(r) == opt_bytes(*o),
{
    match o {
        Some(b) => Some(copy_bytes(b.as_slice())),
        None => None,
    }
}

fn copy_opt_obj(o: &Option<PdfObject>) -> (r: Option<PdfObject>)
    ensures
        opt_obj(r) == opt_obj(*o),
{
    match o {
        Some(v) => Some(v.duplicate()),
        None => None,
    }
}

/// A value resolved for reading: what it stands for, or null.
fn deref_owned(doc: &PdfDocument, v: &PdfObject) -> (r: PdfObject)
    ensures
        r@ == deref_or_null(doc@.objects, v@),
{
    match doc.deref(v) {
        Ok(o) => o.duplicate(),
        Err(_) => PdfObject::Null,
    }
}

/// What a field dictionary inherits from its parent and sets for itself.
fn inherit_from(doc: &PdfDocument, id: ObjectId, dict: &PdfDict, parent: &Inherited) -> (r:
    Inherited)
    ensures
        r@ == inherit(doc@.objects, id, dict@, parent@),
{
    let field_type = match dict.get(ft_name().as_slice()) {
        Some(PdfObject::Name(n)) => Some(copy_bytes(n.as_slice())),
        _ => copy_opt_bytes(&parent.field_type),
    };
    let flags = match dict.get(ff_name().as_slice()) {
        Some(PdfObject::Integer(f)) => *f,
        _ => parent.flags,
    };
    let value = match dict.get(v_name().as_slice()) {
        Some(v) => Some((id, deref_owned(doc, v))),
        None => match &parent.value {
            Some(p) => Some((p.0, p.1.duplicate())),
            None => None,
        },
    };
    let default_value = match dict.get(dv_name().as_slice()) {
        Some(v) => Some(deref_owned(doc, v)),
        None => copy_opt_obj(&parent.default_value),
    };
    Inherited { field_type, flags, value, default_value }
}

/// A field's fully qualified name.
fn name_of(dict: &PdfDict, prefix: Option<&String>) -> (r: String)
    ensures
        r@ == field_name(
            dict@,
            match prefix {
                Some(p) => Some(p@),
                None => None,
            },
        ),
{
    let title = match dict.get(t_name().as_slice()) {
        Some(PdfObject::Str(bytes, _)) => decode_text(bytes.as_slice()),
        _ => None,
    };
    match title {
        Some(part) => match prefix {
            Some(p) => {
                if p.as_str().unicode_len() > 0 {
                    let mut name = p.clone();
                    name.append(".");
                    name.append(part.as_str());
                    proof {
                        reveal_strlit(".");
                    }
                    assert(name@ =~= p@ + seq!['.'] + part@);
                    name
                } else {
                    part
                }
            },
            None => part,
        },
        None => match prefix {
            Some(p) => p.clone(),
            None => String::new(),
        },
    }
}

/// The kids of a field dictionary that are fields, and those that are its
/// widget annotations kept apart from it.
#[verifier::loop_isolation(false)]
fn kids_split(doc: &PdfDocument, dict: &PdfDict) -> (r: (Vec<ObjectId>, Vec<ObjectId>))
    ensures
        r.0@ == split_kids(doc@.objects, kids_of(doc@.objects, dict@), true),
        r.1@ == split_kids(doc@.objects, kids_of(doc@.objects, dict@), false),
{
    let mut fields: Vec<ObjectId> = Vec::new();
    let mut widgets: Vec<ObjectId> = Vec::new();
    let kids_entry = match dict.get(kids_name().as_slice()) {
        Some(o) => o,
        None => return (fields, widgets),
    };
    let kids = match doc.deref(kids_entry) {
        Ok(PdfObject::Array(items)) => items,
        _ => return (fields, widgets),
    };
    let ghost view = kids_of(doc@.objects, dict@);
    proof {
        lemma_items_view(kids@);
    }
    assert(view == crate::object::items_view(kids@));
    let mut i: usize = 0;
    while i < kids.len()
        invariant
            i <= kids@.len(),
            view.len() == kids@.len(),
            forall|j: int| 0 <= j < kids@.len() ==> #[trigger] view[j] == kids@[j]@,
            fields@ == split_kids(doc@.objects, view.take(i as int), true),
            widgets@ == split_kids(doc@.objects, view.take(i as int), false),
        decreases kids@.len() - i,
    {
        assert(view.take(i + 1).drop_last() =~= view.take(i as int));
        assert(view.take(i + 1).last() == view[i as int]);
        match &kids[i] {
            PdfObject::Reference(kid) => {
                match doc.get_dictionary(*kid) {
                    Ok(kd) => {
                        if kd.has(t_name().as_slice()) || kd.has(kids_name().as_slice()) {
                            fields.push(*kid);
                        } else {
                            widgets.push(*kid);
                        }
                    },
                    Err(_) => {},
                }
            },
            _ => {},
        }
        i += 1;
    }
    assert(view.take(kids@.len() as int) =~= view);
    (fields, widgets)
}

pub proof fn lemma_emit_all_concat(
    objs: Seq<(ObjectId, Obj)>,
    pages: Seq<ObjectId>,
    a: Seq<Emission>,
    b: Seq<Emission>,
)
    ensures
        emit_all(objs, pages, a + b) == emit_all(objs, pages, a) + emit_all(objs, pages, b),
{
    assert(emit_all(objs, pages, a + b) =~= emit_all(objs, pages, a) + emit_all(objs, pages, b));
}

pub proof fn lemma_emit_all_push(
    objs: Seq<(ObjectId, Obj)>,
    pages: Seq<ObjectId>,
    a: Seq<Emission>,
    e: Emission,
)
    ensures
        emit_all(objs, pages, a.push(e)) == emit_all(objs, pages, a).push(emitted(objs, pages, e)),
{
    assert(emit_all(objs, pages, a.push(e)) =~= emit_all(objs, pages, a).push(
        emitted(objs, pages, e),
    ));
}

/// What the walk has found so far: fields, their references in parallel,
/// and the nodes already seen.
pub struct Walker {
    pub fields: Vec<Field>,
    pub refs: Vec<FieldRefs>,
    pub seen: Vec<ObjectId>,
}

impl Walker {
    pub open spec fn records(&self) -> Seq<Record> {
        records_of(self.fields@, self.refs@)
    }

    pub open spec fn seen_set(&self) -> Set<ObjectId> {
        self.seen@.to_set()
    }

    pub open spec fn parallel(&self) -> bool {
        self.fields@.len() == self.refs@.len()
    }

    /// Mark `id` seen; false when it already was.
    fn insert_seen(&mut self, id: ObjectId) -> (r: bool)
        ensures
            r == !old(self).seen_set().contains(id),
            final(self).seen_set() == old(self).seen_set().insert(id),
            final(self).fields == old(self).fields,
            final(self).refs == old(self).refs,
    {
        let mut i: usize = 0;
        while i < self.seen.len()
            invariant
                i <= self.seen@.len(),
                forall|j: int| 0 <= j < i ==> self.seen@[j] != id,
            decreases self.seen@.len() - i,
        {
            if self.seen[i].0 == id.0 && self.seen[i].1 == id.1 {
                assert(self.seen@.contains(id));
                assert(self.seen_set().insert(id) =~= self.seen_set());
                return false;
            }
            i += 1;
        }
        let ghost before = self.seen@;
        self.seen.push(id);
        assert(!before.contains(id));
        assert(self.seen@.to_set() =~= before.to_set().insert(id)) by {
            assert forall|x: ObjectId| self.seen@.contains(x) <==> before.contains(x) || x == id by {
                if self.seen@.contains(x) {
                    let k = choose|k: int| 0 <= k < self.seen@.len() && self.seen@[k] == x;
                    if k < before.len() {
                        assert(before[k] == x);
                    }
                }
                if before.contains(x) {
                    let k = choose|k: int| 0 <= k < before.len() && before[k] == x;
                    assert(self.seen@[k] == x);
                }
                if x == id {
                    assert(self.seen@[before.len() as int] == x);
                }
            }
        }
        true
    }

    /// Record the terminal field `id`.
    fn emit(
        &mut self,
        doc: &PdfDocument,
        id: ObjectId,
        name: String,
        state: &Inherited,
        widget_ids: &Vec<ObjectId>,
    )
        requires
            old(self).parallel(),
        ensures
            final(self).parallel(),
            final(self).seen == old(self).seen,
            final(self).records() == old(self).records().push(
                emitted(
                    doc@.objects,
                    doc@.pages,
                    Emission { id, name: name@, state: state@, widget_ids: widget_ids@ },
                ),
            ),
    {
        let ghost objs = doc@.objects;
        let ghost pages = doc@.pages;
        let ghost e = Emission { id, name: name@, state: state@, widget_ids: widget_ids@ };
        let field_type: Option<&[u8]> = match &state.field_type {
            Some(t) => Some(t.as_slice()),
            None => None,
        };
        let kind = classify(field_type, state.flags);
        let value: Option<PdfObject> = match &state.value {
            Some(p) => Some(p.1.duplicate()),
            None => None,
        };
        let value_owner: ObjectId = match &state.value {
            Some(p) => p.0,
            None => id,
        };
        let mut widgets: Vec<Widget> = Vec::new();
        let mut widget_refs: Vec<WidgetRefs> = Vec::new();
        let mut i: usize = 0;
        while i < widget_ids.len()
            invariant
                i <= widget_ids@.len(),
                kind == spec_classify(state@.field_type, state@.flags),
                widget_views(widgets@) == widget_views_of(
                    objs,
                    pages,
                    kind,
                    widget_entries(objs, widget_ids@.take(i as int)),
                ),
                widget_refs_views(widget_refs@) == widget_refs_views_of(
                    objs,
                    kind,
                    widget_entries(objs, widget_ids@.take(i as int)),
                ),
                objs == doc@.objects,
                pages == doc@.pages,
            decreases widget_ids@.len() - i,
        {
            let wid = widget_ids[i];
            let ghost before = widget_entries(objs, widget_ids@.take(i as int));
            assert(widget_ids@.take(i + 1).drop_last() =~= widget_ids@.take(i as int));
            assert(widget_ids@.take(i + 1).last() == wid);
            match doc.get_dictionary(wid) {
                Ok(w) => {
                    let on = if kind.is_button() {
                        on_state(doc, w)
                    } else {
                        None
                    };
                    let widget = Widget {
                        id: encode_id(wid),
                        page_index: page_index_of(doc, wid),
                        rect: rect(doc, w),
                        on_state: lossy_option(&on),
                        appearance_state: appearance_state(w),
                    };
                    let refs = WidgetRefs {
                        id: wid,
                        on_state: on,
                        normal_appearance: normal_appearance(doc, wid, w),
                    };
                    assert(widget@.id == id_text(wid));
                    assert(widget@.page_index == page_of(objs, pages, wid));
                    assert(widget@.rect == rect_of(objs, w@));
                    assert(widget@.on_state == lossy_opt(button_on_state(objs, kind, w@)));
                    assert(widget@.appearance_state == appearance_state_of(w@));
                    assert(widget@ == widget_view(objs, pages, kind, (wid, w@)));
                    assert(refs@ == widget_refs_view(objs, kind, (wid, w@)));
                    let ghost old_widgets = widgets@;
                    let ghost old_refs = widget_refs@;
                    let ghost entry = (wid, w@);
                    widgets.push(widget);
                    widget_refs.push(refs);
                    assert(widget_views(widgets@) =~= widget_views(old_widgets).push(
                        widget_view(objs, pages, kind, entry),
                    ));
                    assert(widget_views_of(objs, pages, kind, before.push(entry)) =~= widget_views_of(
                        objs,
                        pages,
                        kind,
                        before,
                    ).push(widget_view(objs, pages, kind, entry)));
                    assert(widget_refs_views(widget_refs@) =~= widget_refs_views(old_refs).push(
                        widget_refs_view(objs, kind, entry),
                    ));
                    assert(widget_refs_views_of(objs, kind, before.push(entry)) =~= widget_refs_views_of(
                        objs,
                        kind,
                        before,
                    ).push(widget_refs_view(objs, kind, entry)));
                },
                Err(_) => {},
            }
            i += 1;
        }
        assert(widget_ids@.take(widget_ids@.len() as int) =~= widget_ids@);
        let (resettable, note) = match kind {
            FieldKind::PushButton => (false, Some(String::from_str("A push button holds no value."))),
            FieldKind::Signature => (
                false,
                Some(String::from_str("Clearing a signature field is outside what this tool does.")),
            ),
            _ => (true, None),
        };
        let is_set = resettable && differs_from_reset(
            value.as_ref(),
            state.default_value.as_ref(),
            kind,
            &widgets,
        );
        let value_set = match &value {
            Some(v) => !value_is_empty(v),
            None => false,
        };
        let has_value = resettable && (value_set || any_widget_on(&widgets));
        let shown_value = match &value {
            Some(v) => Some(display_value(v)),
            None => None,
        };
        let shown_default = match &state.default_value {
            Some(v) => Some(display_value(v)),
            None => None,
        };
        let field = Field {
            id: encode_id(id),
            name,
            kind,
            value: shown_value,
            default_value: shown_default,
            has_value,
            is_set,
            resettable,
            note,
            read_only: state.flags & FF_READ_ONLY != 0,
            shared_value: !(value_owner.0 == id.0 && value_owner.1 == id.1),
            widgets,
        };
        let refs = FieldRefs {
            field: id,
            value_owner,
            kind,
            current_value: value,
            default_value: copy_opt_obj(&state.default_value),
            widgets: widget_refs,
        };
        let ghost old_records = self.records();
        self.fields.push(field);
        self.refs.push(refs);
        assert(self.records() =~= old_records.push(emitted(objs, pages, e)));
    }

    /// Walk the node `id` and everything below it.
    fn walk(
        &mut self,
        doc: &PdfDocument,
        id: ObjectId,
        parent: &Inherited,
        prefix: Option<&String>,
        depth: usize,
    )
        requires
            old(self).parallel(),
        ensures
            final(self).parallel(),
            ({
                let (em, seen) = walk(
                    doc@.objects,
                    id,
                    parent@,
                    match prefix {
                        Some(p) => Some(p@),
                        None => None,
                    },
                    depth as int,
                    old(self).seen_set(),
                );
                &&& final(self).records() == old(self).records() + emit_all(
                    doc@.objects,
                    doc@.pages,
                    em,
                )
                &&& final(self).seen_set() == seen
            }),
        decreases MAX_DEPTH + 1 - depth,
    {
        let ghost objs = doc@.objects;
        let ghost pages = doc@.pages;
        let ghost start_records = self.records();
        let ghost start_seen = self.seen_set();
        let ghost pfx = match prefix {
            Some(p) => Some(p@),
            None => None::<Seq<char>>,
        };
        if depth > MAX_DEPTH {
            assert(emit_all(objs, pages, Seq::empty()) =~= Seq::empty());
            assert(start_records + Seq::<Record>::empty() =~= start_records);
            return;
        }
        if !self.insert_seen(id) {
            assert(emit_all(objs, pages, Seq::empty()) =~= Seq::empty());
            assert(start_records + Seq::<Record>::empty() =~= start_records);
            return;
        }
        let dict = match doc.get_dictionary(id) {
            Ok(d) => d,
            Err(_) => {
                assert(emit_all(objs, pages, Seq::empty()) =~= Seq::empty());
                assert(start_records + Seq::<Record>::empty() =~= start_records);
                return;
            },
        };
        let state = inherit_from(doc, id, dict, parent);
        let name = name_of(dict, prefix);
        let (child_fields, widget_kids) = kids_split(doc, dict);
        let ghost seen1 = self.seen_set();
        let mut i: usize = 0;
        while i < child_fields.len()
            invariant
                i <= child_fields@.len(),
                depth <= MAX_DEPTH,
                self.parallel(),
                ({
                    let below = walk_list(
                        objs,
                        child_fields@,
                        state@,
                        Some(name@),
                        depth + 1,
                        seen1,
                        i as int,
                    );
                    &&& self.records() == start_records + emit_all(objs, pages, below.0)
                    &&& self.seen_set() == below.1
                }),
                objs == doc@.objects,
                pages == doc@.pages,
            decreases child_fields@.len() - i,
        {
            let ghost before = walk_list(
                objs,
                child_fields@,
                state@,
                Some(name@),
                depth + 1,
                seen1,
                i as int,
            );
            self.walk(doc, child_fields[i], &state, Some(&name), depth + 1);
            let ghost last = walk(objs, child_fields@[i as int], state@, Some(name@), depth + 1, before.1);
            proof {
                lemma_emit_all_concat(objs, pages, before.0, last.0);
                assert(start_records + emit_all(objs, pages, before.0) + emit_all(objs, pages, last.0)
                    =~= start_records + (emit_all(objs, pages, before.0) + emit_all(objs, pages, last.0)));
            }
            i += 1;
        }
        let ghost below = walk_list(
            objs,
            child_fields@,
            state@,
            Some(name@),
            depth + 1,
            seen1,
            child_fields@.len() as int,
        );
        if state.field_type.is_none() || child_fields.len() > 0 {
            return;
        }
        let widget_ids: Vec<ObjectId> = if widget_kids.len() > 0 {
            widget_kids
        } else if dict.has(rect_name().as_slice()) || dict.has(ap_name().as_slice()) {
            let mut own: Vec<ObjectId> = Vec::new();
            own.push(id);
            assert(own@ =~= seq![id]);
            own
        } else {
            Vec::new()
        };
        let ghost e = Emission { id, name: name@, state: state@, widget_ids: widget_ids@ };
        self.emit(doc, id, name, &state, &widget_ids);
        proof {
            lemma_emit_all_push(objs, pages, below.0, e);
        }
    }
}

/// The references among some objects, in order.
pub open spec fn refs_in(items: Seq<Obj>) -> Seq<ObjectId>
    decreases items.len(),
{
    if items.len() == 0 {
        Seq::empty()
    } else {
        let rest = refs_in(items.drop_last());
        match items.last() {
            Obj::Reference(id) => rest.push(id),
            _ => rest,
        }
    }
}

/// The top-level fields of an AcroForm dictionary (its /Fields).
pub open spec fn field_roots(objs: Seq<(ObjectId, Obj)>, acro: DictView) -> Seq<ObjectId> {
    match dict_get(acro, spec_fields_name()) {
        Some(f) => refs_in(items_of(objs, f)),
        None => Seq::empty(),
    }
}

/// The form an AcroForm dictionary makes.
pub open spec fn form_from(d: DocView, acro: DictView, location: AcroFormLocation) -> FormView {
    let roots = field_roots(d.objects, acro);
    FormView {
        records: emit_all(
            d.objects,
            d.pages,
            walk_list(d.objects, roots, no_inheritance(), None, 0, Set::empty(), roots.len() as int).0,
        ),
        page_count: d.pages.len(),
        need_appearances: match dict_get(acro, spec_need_appearances_name()) {
            Some(Obj::Boolean(b)) => b,
            _ => false,
        },
        location: Some(location),
    }
}

/// The form of a document: found through the trailer's /Root catalog and
/// its /AcroForm. A catalog without an AcroForm has a form with no fields.
pub open spec fn spec_read_form(d: DocView) -> Result<FormView, Failure> {
    match dict_get(d.trailer, spec_root_name()) {
        Some(Obj::Reference(catalog_id)) => match get_dictionary(d.objects, catalog_id) {
            Ok(catalog) => match dict_get(catalog, spec_acro_form_name()) {
                Some(Obj::Reference(acro_id)) => match get_dictionary(d.objects, acro_id) {
                    Ok(acro) => Ok(form_from(d, acro, AcroFormLocation::Indirect(acro_id))),
                    Err(_) => Err(Failure::NoForm),
                },
                Some(Obj::Dict(acro)) => Ok(form_from(d, acro, AcroFormLocation::InCatalog(catalog_id))),
                _ => Ok(
                    FormView {
                        records: Seq::empty(),
                        page_count: d.pages.len(),
                        need_appearances: false,
                        location: None,
                    },
                ),
            },
            Err(_) => Err(Failure::NoCatalog),
        },
        _ => Err(Failure::NoCatalog),
    }
}

/// The top-level fields listed in /Fields.
#[verifier::loop_isolation(false)]
fn roots_of(doc: &PdfDocument, acro: &PdfDict) -> (r: Vec<ObjectId>)
    ensures
        r@ == field_roots(doc@.objects, acro@),
{
    let mut roots: Vec<ObjectId> = Vec::new();
    let entry = match acro.get(fields_name().as_slice()) {
        Some(o) => o,
        None => return roots,
    };
    let items = match doc.deref(entry) {
        Ok(PdfObject::Array(items)) => items,
        _ => {
            assert(refs_in(Seq::empty()) =~= Seq::empty());
            return roots;
        },
    };
    let ghost view = items_of(doc@.objects, entry@);
    proof {
        lemma_items_view(items@);
    }
    let mut i: usize = 0;
    while i < items.len()
        invariant
            i <= items@.len(),
            view.len() == items@.len(),
            forall|j: int| 0 <= j < items@.len() ==> #[trigger] view[j] == items@[j]@,
            roots@ == refs_in(view.take(i as int)),
        decreases items@.len() - i,
    {
        assert(view.take(i + 1).drop_last() =~= view.take(i as int));
        assert(view.take(i + 1).last() == view[i as int]);
        match &items[i] {
            PdfObject::Reference(id) => roots.push(*id),
            _ => {},
        }
        i += 1;
    }
    assert(view.take(items@.len() as int) =~= view);
    roots
}

fn new_form_of(doc: &PdfDocument, acro: &PdfDict, location: AcroFormLocation) -> (r: Form)
    ensures
        r@ == form_from(doc@, acro@, location),
        r.well_formed(),
{
    let need_appearances = match acro.get(need_appearances_name().as_slice()) {
        Some(PdfObject::Boolean(b)) => *b,
        _ => false,
    };
    let roots = roots_of(doc, acro);
    let no_parent = Inherited { field_type: None, flags: 0, value: None, default_value: None };
    let mut walker = Walker { fields: Vec::new(), refs: Vec::new(), seen: Vec::new() };
    let ghost objs = doc@.objects;
    let ghost pages = doc@.pages;
    assert(walker.seen@.to_set() =~= Set::<ObjectId>::empty());
    assert(walker.records() =~= Seq::<Record>::empty());
    let mut i: usize = 0;
    while i < roots.len()
        invariant
            i <= roots@.len(),
            walker.parallel(),
            no_parent@ == no_inheritance(),
            ({
                let below = walk_list(objs, roots@, no_inheritance(), None, 0, Set::empty(), i as int);
                &&& walker.records() == emit_all(objs, pages, below.0)
                &&& walker.seen_set() == below.1
            }),
            objs == doc@.objects,
            pages == doc@.pages,
        decreases roots@.len() - i,
    {
        let ghost before = walk_list(objs, roots@, no_inheritance(), None, 0, Set::empty(), i as int);
        walker.walk(doc, roots[i], &no_parent, None, 0);
        let ghost last = walk(objs, roots@[i as int], no_inheritance(), None, 0, before.1);
        proof {
            lemma_emit_all_concat(objs, pages, before.0, last.0);
        }
        i += 1;
    }
    Form {
        fields: walker.fields,
        page_count: doc.pages.len(),
        need_appearances,
        location: Some(location),
        field_ids: walker.refs,
    }
}

/// Read the form out of a document: its terminal fields in tree order, each
/// with what a reset needs of it.
pub fn read_form(doc: &PdfDocument) -> (r: Result<Form, Error>)
    ensures
        match (r, spec_read_form(doc@)) {
            (Ok(form), Ok(view)) => form@ == view && form.well_formed(),
            (Err(e), Err(failure)) => e@ == failure,
            _ => false,
        },
{
    let catalog_id = match doc.trailer.get(root_name().as_slice()) {
        Some(PdfObject::Reference(id)) => *id,
        _ => return Err(Error::NoCatalog),
    };
    let catalog = match doc.get_dictionary(catalog_id) {
        Ok(d) => d,
        Err(_) => return Err(Error::NoCatalog),
    };
    match catalog.get(acro_form_name().as_slice()) {
        Some(PdfObject::Reference(acro_id)) => match doc.get_dictionary(*acro_id) {
            Ok(acro) => Ok(new_form_of(doc, acro, AcroFormLocation::Indirect(*acro_id))),
            Err(_) => Err(Error::NoForm),
        },
        Some(PdfObject::Dictionary(acro)) => Ok(
            new_form_of(doc, acro, AcroFormLocation::InCatalog(catalog_id)),
        ),
        _ => {
            let form = Form {
                fields: Vec::new(),
                page_count: doc.pages.len(),
                need_appearances: false,
                location: None,
                field_ids: Vec::new(),
            };
            assert(form@.records =~= Seq::<Record>::empty());
            Ok(form)
        },
    }
}

} // verus!
