//! The behaviour that matters: the selected field is cleared, and nothing else
//! in the file moves.

use std::collections::BTreeSet;

use lopdf::{Dictionary, Document, Object, ObjectId, Stream};
use pdf_form_core::document::PdfDocument;
use pdf_form_core::form::{read_form, Field, FieldKind, Form};
use pdf_form_core::ids::decode_id;
use pdf_form_core::reset::{read_form_bytes, reset_bytes, ResetMode, ResetOutput};
use pdf_form_core::Error;

fn form_of(bytes: &[u8]) -> Form {
    match read_form_bytes(bytes) {
        Ok(form) => form,
        Err(error) => panic!("read form: {}", error.message()),
    }
}

fn field<'a>(form: &'a Form, name: &str) -> &'a Field {
    form.fields
        .iter()
        .find(|field| field.name == name)
        .unwrap_or_else(|| panic!("no field named {name}, have {:?}", names(form)))
}

fn names(form: &Form) -> Vec<&str> {
    form.fields.iter().map(|f| f.name.as_str()).collect()
}

fn id_of(form: &Form, name: &str) -> ObjectId {
    decode_id(&field(form, name).id).expect("field id round-trips")
}

fn reset(bytes: &[u8], field_names: &[&str]) -> Vec<u8> {
    reset_with(bytes, field_names, ResetMode::Default).bytes
}

fn clear(bytes: &[u8], field_names: &[&str]) -> Vec<u8> {
    reset_with(bytes, field_names, ResetMode::Clear).bytes
}

fn reset_with(bytes: &[u8], field_names: &[&str], mode: ResetMode) -> ResetOutput {
    let form = form_of(bytes);
    let ids: Vec<ObjectId> = field_names.iter().map(|name| id_of(&form, name)).collect();
    match reset_bytes(bytes.to_vec(), &ids, mode) {
        Ok(out) => out,
        Err(error) => panic!("reset: {}", error.message()),
    }
}

/// Object ids whose contents differ between two revisions of a file.
fn changed_objects(before: &[u8], after: &[u8]) -> BTreeSet<ObjectId> {
    let old = Document::load_mem(before).expect("parse before");
    let new = Document::load_mem(after).expect("parse after");
    let mut changed = BTreeSet::new();
    for (id, object) in &old.objects {
        match new.objects.get(id) {
            Some(updated) if updated == object => {}
            _ => {
                changed.insert(*id);
            }
        }
    }
    changed
}

fn name(text: &str) -> Object {
    Object::Name(text.as_bytes().to_vec())
}

fn rect(values: [i64; 4]) -> Object {
    Object::Array(values.iter().map(|v| Object::Integer(*v)).collect())
}

fn appearance(doc: &mut Document, content: &[u8]) -> ObjectId {
    let mut dict = Dictionary::new();
    dict.set("Type", name("XObject"));
    dict.set("Subtype", name("Form"));
    dict.set("BBox", rect([0, 0, 14, 14]));
    doc.add_object(Stream::new(dict, content.to_vec()))
}

fn states(pairs: &[(&str, ObjectId)]) -> Dictionary {
    let mut states = Dictionary::new();
    for (state, stream) in pairs {
        states.set(*state, Object::Reference(*stream));
    }
    let mut ap = Dictionary::new();
    ap.set("N", Object::Dictionary(states));
    ap
}

fn radio_kid(
    doc: &mut Document,
    parent: ObjectId,
    on: &str,
    shown: &str,
    y: i64,
    on_stream: ObjectId,
    off_stream: ObjectId,
) -> ObjectId {
    let mut kid = Dictionary::new();
    kid.set("Type", name("Annot"));
    kid.set("Subtype", name("Widget"));
    kid.set("Parent", Object::Reference(parent));
    kid.set("Rect", rect([72, y, 86, y + 14]));
    kid.set("AS", name(shown));
    kid.set(
        "AP",
        Object::Dictionary(states(&[(on, on_stream), ("Off", off_stream)])),
    );
    doc.add_object(kid)
}

fn radio_group(
    doc: &mut Document,
    title: &str,
    options: &[&str],
    value: &str,
    y: i64,
) -> (ObjectId, Vec<ObjectId>) {
    let group = doc.new_object_id();
    let off = appearance(doc, b"");
    let mut kids = Vec::new();
    for (index, option) in options.iter().enumerate() {
        let on = appearance(doc, b"q 0 g BT ET Q");
        let shown = if *option == value { *option } else { "Off" };
        kids.push(radio_kid(doc, group, option, shown, y - 20 * index as i64, on, off));
    }
    let mut dict = Dictionary::new();
    dict.set("FT", name("Btn"));
    dict.set("Ff", Object::Integer(1 << 15));
    dict.set("T", Object::string_literal(title));
    dict.set("V", name(value));
    dict.set(
        "Kids",
        Object::Array(kids.iter().map(|k| Object::Reference(*k)).collect()),
    );
    doc.set_object(group, dict);
    (group, kids)
}

fn text_field(
    doc: &mut Document,
    title: &str,
    value: Option<&str>,
    default: Option<&str>,
    y: i64,
) -> ObjectId {
    let shown = match value {
        Some(text) => format!("BT /Helv 10 Tf 2 4 Td ({text}) Tj ET").into_bytes(),
        None => Vec::new(),
    };
    let stream = appearance(doc, &shown);
    let mut dict = Dictionary::new();
    dict.set("Type", name("Annot"));
    dict.set("Subtype", name("Widget"));
    dict.set("FT", name("Tx"));
    dict.set("T", Object::string_literal(title));
    if let Some(text) = value {
        dict.set("V", Object::string_literal(text));
    }
    if let Some(text) = default {
        dict.set("DV", Object::string_literal(text));
    }
    dict.set("Rect", rect([72, y, 272, y + 20]));
    let mut ap = Dictionary::new();
    ap.set("N", Object::Reference(stream));
    dict.set("AP", Object::Dictionary(ap));
    doc.add_object(dict)
}

fn finish(
    mut doc: Document,
    pages_id: ObjectId,
    page_annots: Vec<Vec<ObjectId>>,
    fields: Vec<ObjectId>,
) -> Vec<u8> {
    let mut page_ids = Vec::new();
    for annots in page_annots {
        let mut page = Dictionary::new();
        page.set("Type", name("Page"));
        page.set("Parent", Object::Reference(pages_id));
        page.set(
            "Annots",
            Object::Array(annots.iter().map(|a| Object::Reference(*a)).collect()),
        );
        page_ids.push(doc.add_object(page));
    }
    let mut pages = Dictionary::new();
    pages.set("Type", name("Pages"));
    pages.set(
        "Kids",
        Object::Array(page_ids.iter().map(|p| Object::Reference(*p)).collect()),
    );
    pages.set("Count", Object::Integer(page_ids.len() as i64));
    pages.set("MediaBox", rect([0, 0, 612, 792]));
    doc.set_object(pages_id, pages);
    let mut acroform = Dictionary::new();
    acroform.set(
        "Fields",
        Object::Array(fields.iter().map(|f| Object::Reference(*f)).collect()),
    );
    let acroform = doc.add_object(acroform);
    let mut catalog = Dictionary::new();
    catalog.set("Type", name("Catalog"));
    catalog.set("Pages", Object::Reference(pages_id));
    catalog.set("AcroForm", Object::Reference(acroform));
    let catalog = doc.add_object(catalog);
    doc.trailer.set("Root", Object::Reference(catalog));
    let mut bytes = Vec::new();
    doc.save_to(&mut bytes).expect("save form");
    bytes
}

/// A filled two-page form of the shape a third-party producer writes: a
/// radio group, a checkbox written as one merged dictionary, text fields
/// whose /DV equals the value they ship with, a dropdown, and a second
/// radio group on the second page.
fn filled_form() -> Vec<u8> {
    let mut doc = Document::with_version("1.4");
    let pages_id = doc.new_object_id();

    let (choice, choice_kids) = radio_group(&mut doc, "choice", &["alpha", "beta", "gamma"], "beta", 700);

    let yes = appearance(&mut doc, b"q 0 g BT ET Q");
    let off = appearance(&mut doc, b"");
    let mut agree = Dictionary::new();
    agree.set("Type", name("Annot"));
    agree.set("Subtype", name("Widget"));
    agree.set("FT", name("Btn"));
    agree.set("T", Object::string_literal("agree"));
    agree.set("V", name("Yes"));
    agree.set("AS", name("Yes"));
    agree.set(
        "Rect",
        Object::Array(vec![
            Object::Real(72.5),
            Object::Integer(600),
            Object::Real(86.5),
            Object::Integer(614),
        ]),
    );
    agree.set("AP", Object::Dictionary(states(&[("Yes", yes), ("Off", off)])));
    let agree = doc.add_object(agree);

    let fullname = text_field(&mut doc, "fullname", Some("Ada Lovelace"), Some("Ada Lovelace"), 560);
    let nickname = text_field(&mut doc, "nickname", None, None, 530);

    let colour_ap = appearance(&mut doc, b"BT /Helv 10 Tf 2 4 Td (green) Tj ET");
    let mut colour = Dictionary::new();
    colour.set("Type", name("Annot"));
    colour.set("Subtype", name("Widget"));
    colour.set("FT", name("Ch"));
    colour.set("Ff", Object::Integer(1 << 17));
    colour.set("T", Object::string_literal("colour"));
    colour.set(
        "Opt",
        Object::Array(vec![
            Object::string_literal("red"),
            Object::string_literal("green"),
            Object::string_literal("blue"),
        ]),
    );
    colour.set("V", Object::string_literal("green"));
    colour.set("Rect", rect([72, 500, 172, 520]));
    let mut colour_appearances = Dictionary::new();
    colour_appearances.set("N", Object::Reference(colour_ap));
    colour.set("AP", Object::Dictionary(colour_appearances));
    let colour = doc.add_object(colour);

    let (confirm, confirm_kids) = radio_group(&mut doc, "confirm", &["yes", "no"], "no", 700);

    let mut first_page = choice_kids.clone();
    first_page.extend([agree, fullname, nickname, colour]);
    finish(
        doc,
        pages_id,
        vec![first_page, confirm_kids],
        vec![choice, agree, fullname, nickname, colour, confirm],
    )
}

#[test]
fn reads_the_field_tree_of_a_third_party_form() {
    let fixture = filled_form();
    let form = form_of(&fixture);
    assert_eq!(form.page_count, 2);
    assert_eq!(
        names(&form),
        vec!["choice", "agree", "fullname", "nickname", "colour", "confirm"]
    );

    let radio = field(&form, "choice");
    assert_eq!(radio.kind, FieldKind::Radio);
    assert_eq!(radio.value.as_deref(), Some("beta"));
    assert!(radio.is_set);
    // One entry per button: the group is a single selectable unit.
    assert_eq!(radio.widgets.len(), 3);
    assert_eq!(
        radio
            .widgets
            .iter()
            .map(|w| w.on_state.as_deref().unwrap())
            .collect::<Vec<_>>(),
        vec!["alpha", "beta", "gamma"]
    );

    assert_eq!(field(&form, "colour").kind, FieldKind::Combo);
    assert_eq!(field(&form, "colour").value.as_deref(), Some("green"));

    // The producer writes /DV equal to the value the document ships with, so
    // this field is filled but already at its default: a reset restores that
    // text, and only a clear empties it.
    let text = field(&form, "fullname");
    assert_eq!(text.value.as_deref(), Some("Ada Lovelace"));
    assert_eq!(text.default_value.as_deref(), Some("Ada Lovelace"));
    assert!(text.has_value);
    assert!(!text.is_set);
}

#[test]
fn a_checkbox_written_as_one_merged_dictionary_is_found() {
    let fixture = filled_form();
    let form = form_of(&fixture);
    let checkbox = field(&form, "agree");
    assert_eq!(checkbox.kind, FieldKind::Checkbox);
    assert_eq!(checkbox.value.as_deref(), Some("Yes"));
    assert_eq!(checkbox.widgets.len(), 1);
    assert_eq!(checkbox.widgets[0].id, checkbox.id);
    assert!(checkbox.is_set);
}

#[test]
fn widgets_report_the_page_they_sit_on() {
    let fixture = filled_form();
    let form = form_of(&fixture);
    for widget in &field(&form, "choice").widgets {
        assert_eq!(widget.page_index, Some(0));
        assert!(widget.rect.is_some());
    }
    for widget in &field(&form, "confirm").widgets {
        assert_eq!(widget.page_index, Some(1));
    }
}

#[test]
fn resetting_a_radio_group_clears_the_value_and_every_button() {
    let fixture = filled_form();
    let after = reset(&fixture, &["choice"]);
    let form = form_of(&after);
    let radio = field(&form, "choice");

    assert_eq!(radio.value, None, "the group should hold no value");
    assert!(!radio.is_set, "nothing left for a second reset to do");
    for widget in &radio.widgets {
        assert_eq!(
            widget.appearance_state.as_deref(),
            Some("Off"),
            "every button in the group must be drawn unselected"
        );
    }
}

#[test]
fn resetting_one_field_leaves_every_other_object_untouched() {
    let fixture = filled_form();
    let after = reset(&fixture, &["choice"]);

    let before = form_of(&fixture);
    // The field itself, plus only the one button that was actually on: the
    // two already showing /Off are left exactly as they were.
    let expected: BTreeSet<ObjectId> = std::iter::once(id_of(&before, "choice"))
        .chain(
            field(&before, "choice")
                .widgets
                .iter()
                .filter(|w| w.appearance_state.as_deref() != Some("Off"))
                .map(|w| decode_id(&w.id).unwrap()),
        )
        .collect();
    assert_eq!(expected.len(), 2);

    assert_eq!(
        changed_objects(&fixture, &after),
        expected,
        "only the radio group's own field and the button that was on may change"
    );

    // Spot-check the neighbours through the public model too.
    let form = form_of(&after);
    assert_eq!(field(&form, "agree").value.as_deref(), Some("Yes"));
    assert_eq!(
        field(&form, "fullname").value.as_deref(),
        Some("Ada Lovelace")
    );
    assert_eq!(field(&form, "confirm").value.as_deref(), Some("no"));
}

#[test]
fn the_previous_revision_stays_in_the_file_byte_for_byte() {
    let fixture = filled_form();
    let after = reset(&fixture, &["choice"]);
    assert!(after.len() > fixture.len());
    assert_eq!(
        &after[..fixture.len()],
        fixture.as_slice(),
        "an incremental update appends; it never rewrites what was there"
    );
    // And the appended part is small: a handful of objects, not a rewrite.
    assert!(
        after.len() - fixture.len() < 2_000,
        "appended {} bytes",
        after.len() - fixture.len()
    );
}

#[test]
fn clearing_a_text_field_empties_its_appearance_stream() {
    let fixture = filled_form();
    let after = clear(&fixture, &["fullname"]);
    let form = form_of(&after);
    // The field has a /DV, so the clear writes an explicit empty value: a
    // missing /V would let a reader show the default again.
    assert_eq!(field(&form, "fullname").value.as_deref(), Some(""));
    assert!(!field(&form, "fullname").has_value);

    // The old text must not still be painted by a stale appearance stream.
    let doc = Document::load_mem(&after).expect("parse");
    let widget_id = decode_id(&field(&form, "fullname").widgets[0].id).unwrap();
    let widget = doc.get_dictionary(widget_id).expect("widget");
    let stream_id = widget
        .get(b"AP")
        .and_then(|ap| ap.as_dict())
        .and_then(|ap| ap.get(b"N"))
        .and_then(|n| n.as_reference())
        .expect("indirect appearance stream");
    let stream = doc
        .get_object(stream_id)
        .and_then(|o| o.as_stream())
        .expect("stream");
    assert!(
        stream.decompressed_content().unwrap_or_default().is_empty(),
        "appearance stream should be empty after the reset"
    );
    // The stream object itself survives, dictionary and all.
    assert!(stream.dict.has(b"BBox"));
}

#[test]
fn resetting_a_text_field_restores_the_value_the_document_calls_default() {
    let fixture = filled_form();
    // Not a blank: /DV is what a form's own reset button puts back.
    let out = reset_with(&fixture, &["fullname"], ResetMode::Default);
    assert_eq!(out.report.objects_changed, 0, "already at its default");
    assert_eq!(out.bytes, fixture, "a no-op must not touch the file");

    let typed_over = clear(&fixture, &["fullname"]);
    let restored = reset(&typed_over, &["fullname"]);
    let form = form_of(&restored);
    assert_eq!(
        field(&form, "fullname").value.as_deref(),
        Some("Ada Lovelace")
    );
    assert!(form.need_appearances, "the viewer has to redraw the text");
}

#[test]
fn several_fields_can_be_reset_in_one_write() {
    let fixture = filled_form();
    let after = reset(&fixture, &["choice", "agree", "confirm"]);
    let form = form_of(&after);
    assert_eq!(field(&form, "choice").value, None);
    assert_eq!(field(&form, "agree").value, None);
    assert_eq!(field(&form, "confirm").value, None);
    assert_eq!(
        field(&form, "fullname").value.as_deref(),
        Some("Ada Lovelace")
    );
}

#[test]
fn resetting_again_is_safe_and_keeps_the_file_readable() {
    let fixture = filled_form();
    let once = reset(&fixture, &["choice"]);
    let twice = reset(&once, &["choice"]);
    let thrice = clear(&twice, &["colour"]);

    let form = form_of(&thrice);
    assert_eq!(field(&form, "choice").value, None);
    assert_eq!(
        field(&form, "fullname").value.as_deref(),
        Some("Ada Lovelace")
    );
    assert_eq!(field(&form, "colour").value, None);
    assert_eq!(field(&form, "agree").value.as_deref(), Some("Yes"));
    assert_eq!(&thrice[..once.len()], once.as_slice());
}

#[test]
fn a_push_button_is_refused_rather_than_mangled() {
    let bytes = synthetic_form();
    let form = form_of(&bytes);
    let button = field(&form, "print");
    assert_eq!(button.kind, FieldKind::PushButton);
    assert!(!button.resettable);
    assert!(!button.is_set);

    let error = match reset_bytes(
        bytes.clone(),
        &[decode_id(&button.id).unwrap()],
        ResetMode::Default,
    ) {
        Ok(_) => panic!("a push button must not be reset"),
        Err(error) => error,
    };
    assert!(
        matches!(error, Error::NotResettable { .. }),
        "{}",
        error.message()
    );
}

#[test]
fn an_unknown_field_id_is_an_error_and_writes_nothing() {
    let error = match reset_bytes(filled_form(), &[(9999, 0)], ResetMode::Default) {
        Ok(_) => panic!("an unknown id must be refused"),
        Err(error) => error,
    };
    assert!(matches!(error, Error::UnknownField(_)), "{}", error.message());
}

#[test]
fn a_default_value_is_restored_instead_of_cleared() {
    let bytes = synthetic_form();
    let form = form_of(&bytes);

    // Radio group whose /DV names the second button.
    let after = match reset_bytes(bytes.clone(), &[id_of(&form, "pick")], ResetMode::Default) {
        Ok(out) => out.bytes,
        Err(error) => panic!("reset: {}", error.message()),
    };
    let after_form = form_of(&after);
    let radio = field(&after_form, "pick");
    assert_eq!(radio.value.as_deref(), Some("two"));
    assert_eq!(
        radio
            .widgets
            .iter()
            .map(|w| w.appearance_state.as_deref().unwrap())
            .collect::<Vec<_>>(),
        vec!["Off", "two"],
        "the default button is the one drawn on"
    );

    // Text field with a default: the viewer is asked to redraw it.
    let out = match reset_bytes(
        bytes.clone(),
        &[id_of(&form, "greeting")],
        ResetMode::Default,
    ) {
        Ok(out) => out,
        Err(error) => panic!("reset: {}", error.message()),
    };
    assert!(out.report.need_appearances_set);
    let text = form_of(&out.bytes);
    assert_eq!(field(&text, "greeting").value.as_deref(), Some("hello"));
    assert!(form_of(&out.bytes).need_appearances);
}

#[test]
fn a_field_that_is_already_clear_leaves_the_file_alone() {
    let fixture = filled_form();
    let after = reset(&fixture, &["choice"]);
    assert!(!field(&form_of(&after), "choice").is_set);

    let again = reset_with(&after, &["choice"], ResetMode::Default);
    assert_eq!(again.report.objects_changed, 0);
    assert_eq!(again.report.bytes_appended, 0);
    assert_eq!(again.bytes, after, "a second reset must not grow the file");
}

#[test]
fn clear_ignores_a_default_value() {
    let bytes = synthetic_form();
    let form = form_of(&bytes);

    let after = match reset_bytes(bytes, &[id_of(&form, "pick")], ResetMode::Clear) {
        Ok(out) => out.bytes,
        Err(error) => panic!("clear: {}", error.message()),
    };
    let radio = form_of(&after);
    let radio = field(&radio, "pick");
    // The group has a /DV, so the clear writes an explicit /Off rather than
    // deleting /V, which a reader would fill in from the default.
    assert_eq!(radio.value.as_deref(), Some("Off"), "/DV must not be put back by a clear");
    assert!(!radio.has_value);
    assert!(radio
        .widgets
        .iter()
        .all(|w| w.appearance_state.as_deref() == Some("Off")));
}

/// A small form built by hand, for the shapes the third-party producer does
/// not write: a push button, a radio group with a /DV, and a text field with
/// a /DV.
fn synthetic_form() -> Vec<u8> {
    let mut doc = Document::with_version("1.7");
    let pages_id = doc.new_object_id();

    let on_one = appearance(&mut doc, b"");
    let on_two = appearance(&mut doc, b"");
    let off = appearance(&mut doc, b"");
    let text_ap = appearance(&mut doc, b"");

    let pick_id = doc.new_object_id();
    let kid_one = radio_kid(&mut doc, pick_id, "one", "one", 700, on_one, off);
    let kid_two = radio_kid(&mut doc, pick_id, "two", "Off", 680, on_two, off);
    let mut pick = Dictionary::new();
    pick.set("FT", name("Btn"));
    pick.set("Ff", Object::Integer(1 << 15));
    pick.set("T", Object::string_literal("pick"));
    pick.set("V", name("one"));
    pick.set("DV", name("two"));
    pick.set(
        "Kids",
        Object::Array(vec![Object::Reference(kid_one), Object::Reference(kid_two)]),
    );
    doc.set_object(pick_id, pick);

    let mut greeting = Dictionary::new();
    greeting.set("Type", name("Annot"));
    greeting.set("Subtype", name("Widget"));
    greeting.set("FT", name("Tx"));
    greeting.set("T", Object::string_literal("greeting"));
    greeting.set("V", Object::string_literal("goodbye"));
    greeting.set("DV", Object::string_literal("hello"));
    greeting.set("Rect", rect([72, 640, 272, 660]));
    let mut greeting_ap = Dictionary::new();
    greeting_ap.set("N", Object::Reference(text_ap));
    greeting.set("AP", Object::Dictionary(greeting_ap));
    let greeting = doc.add_object(greeting);

    let mut print = Dictionary::new();
    print.set("Type", name("Annot"));
    print.set("Subtype", name("Widget"));
    print.set("FT", name("Btn"));
    print.set("Ff", Object::Integer(1 << 16));
    print.set("T", Object::string_literal("print"));
    print.set("Rect", rect([72, 600, 172, 620]));
    let print = doc.add_object(print);

    finish(
        doc,
        pages_id,
        vec![vec![kid_one, kid_two, greeting, print]],
        vec![pick_id, greeting, print],
    )
}

#[test]
fn read_form_reads_a_document_held_as_plain_values() {
    let bytes = synthetic_form();
    let doc = match PdfDocument::load_mem(&bytes) {
        Ok(doc) => doc,
        Err(error) => panic!("load: {}", error.message()),
    };
    let form = match read_form(&doc) {
        Ok(form) => form,
        Err(error) => panic!("read: {}", error.message()),
    };
    assert_eq!(names(&form), vec!["pick", "greeting", "print"]);
}
