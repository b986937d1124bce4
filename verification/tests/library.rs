//! The library's smaller pieces on concrete values: ids, kinds, messages,
//! dictionaries, and a reset planned on a document held as plain values.

use pdf_form_core::document::{PdfDocument, PdfError};
use pdf_form_core::form::{classify, read_form, FieldKind};
use pdf_form_core::ids::{decode_id, decode_selection, encode_id, SelectionError};
use pdf_form_core::object::{PdfDict, PdfObject, PdfStream};
use pdf_form_core::reset::{plan_update, read_form_bytes, reset_bytes, temp_file_name, ResetMode};
use pdf_form_core::Error;

fn key(text: &str) -> Vec<u8> {
    text.as_bytes().to_vec()
}

fn dict(entries: Vec<(&str, PdfObject)>) -> PdfDict {
    PdfDict { entries: entries.into_iter().map(|(k, v)| (key(k), v)).collect() }
}

fn name(text: &str) -> PdfObject {
    PdfObject::Name(key(text))
}

fn text(value: &str) -> PdfObject {
    PdfObject::Str(key(value), false)
}

fn entry<'a>(d: &'a PdfDict, k: &str) -> Option<&'a PdfObject> {
    d.get(k.as_bytes())
}

/// One page; a text field merged with its widget, holding "goodbye" with a
/// default of "hello" and drawn by an indirect appearance stream; a checkbox merged with its widget, on; the AcroForm
/// dictionary indirect.
fn plain_document() -> PdfDocument {
    let states = dict(vec![
        ("Yes", PdfObject::Reference((9, 0))),
        ("Off", PdfObject::Reference((9, 0))),
    ]);
    PdfDocument {
        objects: vec![
            (
                (1, 0),
                PdfObject::Dictionary(dict(vec![
                    ("Type", name("Catalog")),
                    ("AcroForm", PdfObject::Reference((2, 0))),
                ])),
            ),
            (
                (2, 0),
                PdfObject::Dictionary(dict(vec![(
                    "Fields",
                    PdfObject::Array(vec![PdfObject::Reference((4, 0)), PdfObject::Reference((5, 0))]),
                )])),
            ),
            (
                (3, 0),
                PdfObject::Dictionary(dict(vec![
                    ("Type", name("Page")),
                    (
                        "Annots",
                        PdfObject::Array(vec![PdfObject::Reference((4, 0)), PdfObject::Reference((5, 0))]),
                    ),
                ])),
            ),
            (
                (4, 0),
                PdfObject::Dictionary(dict(vec![
                    ("FT", name("Tx")),
                    ("T", text("greeting")),
                    ("V", text("goodbye")),
                    ("DV", text("hello")),
                    ("AP", PdfObject::Dictionary(dict(vec![("N", PdfObject::Reference((6, 0)))]))),
                    (
                        "Rect",
                        PdfObject::Array(vec![
                            PdfObject::Integer(10),
                            PdfObject::Integer(20),
                            PdfObject::Real("110.5".to_string()),
                            PdfObject::Integer(40),
                        ]),
                    ),
                ])),
            ),
            (
                (5, 0),
                PdfObject::Dictionary(dict(vec![
                    ("FT", name("Btn")),
                    ("T", text("agree")),
                    ("V", name("Yes")),
                    ("AS", name("Yes")),
                    ("Rect", PdfObject::Array((0..4).map(|_| PdfObject::Integer(0)).collect())),
                    ("AP", PdfObject::Dictionary(dict(vec![("N", PdfObject::Dictionary(states))]))),
                ])),
            ),
            (
                (6, 0),
                PdfObject::Stream(PdfStream {
                    dict: dict(vec![("Subtype", name("Form")), ("Length", PdfObject::Integer(21))]),
                    content: b"BT (goodbye) Tj ET".to_vec(),
                    allows_compression: true,
                    start_position: None,
                }),
            ),
        ],
        trailer: dict(vec![("Root", PdfObject::Reference((1, 0)))]),
        pages: vec![(3, 0)],
        was_encrypted: false,
    }
}

#[test]
fn an_id_is_written_as_number_and_generation() {
    assert_eq!(encode_id((12, 0)), "12 0");
    assert_eq!(encode_id((4294967295, 65535)), "4294967295 65535");
}

#[test]
fn an_id_reads_back_as_itself() {
    for id in [(0, 0), (7, 3), (12, 0), (4294967295, 65535)] {
        assert_eq!(decode_id(&encode_id(id)), Some(id));
    }
}

#[test]
fn decoding_an_id_follows_integer_parsing() {
    assert_eq!(decode_id("12 0"), Some((12, 0)));
    assert_eq!(decode_id("+5 0"), Some((5, 0)));
    assert_eq!(decode_id("007 01"), Some((7, 1)));
    assert_eq!(decode_id("5  0"), None);
    assert_eq!(decode_id("5 0 "), None);
    assert_eq!(decode_id("12"), None);
    assert_eq!(decode_id(""), None);
    assert_eq!(decode_id(" 0"), None);
    assert_eq!(decode_id("a 0"), None);
    assert_eq!(decode_id("-1 0"), None);
    assert_eq!(decode_id("4294967296 0"), None);
    assert_eq!(decode_id("1 65536"), None);
}

#[test]
fn a_selection_is_read_in_order_and_refused_at_its_first_bad_id() {
    let ok = vec!["3 0".to_string(), "12 1".to_string()];
    assert_eq!(decode_selection(&ok).unwrap(), vec![(3, 0), (12, 1)]);

    let bad = vec!["3 0".to_string(), "x".to_string(), "y".to_string()];
    match decode_selection(&bad) {
        Err(error @ SelectionError::NotAFieldId(_)) => {
            assert_eq!(error.message(), "not a field id: x");
        }
        other => panic!("expected a refusal, got {other:?}"),
    }

    match decode_selection(&Vec::new()) {
        Err(error @ SelectionError::NothingSelected) => {
            assert_eq!(error.message(), "nothing selected");
        }
        other => panic!("expected a refusal, got {other:?}"),
    }
}

#[test]
fn each_kind_has_a_label() {
    assert_eq!(FieldKind::Radio.label(), "radio group");
    assert_eq!(FieldKind::Checkbox.label(), "checkbox");
    assert_eq!(FieldKind::PushButton.label(), "push button");
    assert_eq!(FieldKind::Text.label(), "text field");
    assert_eq!(FieldKind::Combo.label(), "dropdown");
    assert_eq!(FieldKind::List.label(), "list box");
    assert_eq!(FieldKind::Signature.label(), "signature");
    assert_eq!(FieldKind::Unknown.label(), "field");
}

#[test]
fn only_radio_groups_checkboxes_and_push_buttons_are_buttons() {
    assert!(FieldKind::Radio.is_button());
    assert!(FieldKind::Checkbox.is_button());
    assert!(FieldKind::PushButton.is_button());
    assert!(!FieldKind::Text.is_button());
    assert!(!FieldKind::Combo.is_button());
    assert!(!FieldKind::List.is_button());
    assert!(!FieldKind::Signature.is_button());
    assert!(!FieldKind::Unknown.is_button());
}

#[test]
fn a_kind_follows_the_field_type_and_its_flags() {
    assert_eq!(classify(Some("Btn".as_bytes()), 0), FieldKind::Checkbox);
    assert_eq!(classify(Some("Btn".as_bytes()), 1 << 15), FieldKind::Radio);
    assert_eq!(classify(Some("Btn".as_bytes()), 1 << 16), FieldKind::PushButton);
    // The push-button flag wins over the radio flag.
    assert_eq!(classify(Some("Btn".as_bytes()), (1 << 15) | (1 << 16)), FieldKind::PushButton);
    assert_eq!(classify(Some("Tx".as_bytes()), 1 << 17), FieldKind::Text);
    assert_eq!(classify(Some("Ch".as_bytes()), 0), FieldKind::List);
    assert_eq!(classify(Some("Ch".as_bytes()), 1 << 17), FieldKind::Combo);
    assert_eq!(classify(Some("Sig".as_bytes()), 0), FieldKind::Signature);
    assert_eq!(classify(Some("Foo".as_bytes()), 0), FieldKind::Unknown);
    assert_eq!(classify(None, 1 << 15), FieldKind::Unknown);
}

#[test]
fn errors_say_what_went_wrong() {
    assert_eq!(
        Error::Encrypted.message(),
        "this PDF is encrypted; open it in a viewer and save an unencrypted copy first"
    );
    assert_eq!(Error::NoCatalog.message(), "the PDF has no document catalog");
    assert_eq!(Error::NoForm.message(), "the PDF has no AcroForm dictionary");
    assert_eq!(
        Error::UnknownField("9999 0".to_string()).message(),
        "no field with id 9999 0 in this PDF"
    );
    assert_eq!(
        Error::NotResettable { name: "print".to_string(), reason: "why".to_string() }.message(),
        "print cannot be reset: why"
    );
    assert_eq!(
        Error::OriginalNotPreserved.message(),
        "refusing to write: the update would not have preserved the original bytes"
    );
    assert_eq!(
        Error::Pdf(PdfError::ObjectNotFound((4, 0))).message(),
        "PDF error: object ID 4 0 not found"
    );
    assert_eq!(
        Error::Pdf(PdfError::WrongType { expected: "Dictionary", found: "Stream" }).message(),
        "PDF error: object has wrong type; expected type Dictionary but found type Stream"
    );
    assert_eq!(
        PdfError::MissingKey(key("AP")).message(),
        "missing required dictionary key \"AP\""
    );
}

#[test]
fn bytes_that_are_not_a_pdf_are_refused() {
    let garbage = b"this is not a PDF".to_vec();
    assert!(matches!(read_form_bytes(&garbage), Err(Error::Pdf(PdfError::Load(_)))));
    assert!(matches!(
        reset_bytes(garbage.clone(), &[(1, 0)], ResetMode::Default),
        Err(Error::Pdf(PdfError::Load(_)))
    ));
    assert!(matches!(PdfDocument::load_mem(&garbage), Err(PdfError::Load(_))));
}

#[test]
fn a_document_without_a_catalog_has_no_form() {
    let doc = PdfDocument {
        objects: Vec::new(),
        trailer: dict(Vec::new()),
        pages: Vec::new(),
        was_encrypted: false,
    };
    assert!(matches!(read_form(&doc), Err(Error::NoCatalog)));
}

#[test]
fn a_catalog_without_an_acroform_has_no_fields() {
    let doc = PdfDocument {
        objects: vec![((1, 0), PdfObject::Dictionary(dict(vec![("Type", name("Catalog"))])))],
        trailer: dict(vec![("Root", PdfObject::Reference((1, 0)))]),
        pages: Vec::new(),
        was_encrypted: false,
    };
    let form = read_form(&doc).expect("a form with no fields");
    assert!(form.fields.is_empty());
    assert!(form.location.is_none());
    match plan_update(&doc, &[(1, 0)], ResetMode::Default) {
        Err(Error::UnknownField(id)) => assert_eq!(id, "1 0"),
        other => panic!("expected an unknown field, got {other:?}"),
    }
}

#[test]
fn a_form_held_as_plain_values_is_read() {
    let form = read_form(&plain_document()).expect("read");
    assert_eq!(form.page_count, 1);
    let names: Vec<&str> = form.fields.iter().map(|f| f.name.as_str()).collect();
    assert_eq!(names, vec!["greeting", "agree"]);
    let greeting = &form.fields[0];
    assert_eq!(greeting.kind, FieldKind::Text);
    assert_eq!(greeting.id, "4 0");
    assert_eq!(greeting.value.as_deref(), Some("goodbye"));
    assert_eq!(greeting.default_value.as_deref(), Some("hello"));
    assert!(greeting.has_value && greeting.is_set && greeting.resettable);
    assert_eq!(greeting.widgets.len(), 1);
    assert_eq!(greeting.widgets[0].page_index, Some(0));
    let agree = &form.fields[1];
    assert_eq!(agree.kind, FieldKind::Checkbox);
    assert_eq!(agree.widgets[0].on_state.as_deref(), Some("Yes"));
    assert_eq!(agree.widgets[0].appearance_state.as_deref(), Some("Yes"));
}

#[test]
fn resetting_text_to_its_default_flags_the_form_for_a_redraw() {
    let doc = plain_document();
    let update = plan_update(&doc, &[(4, 0)], ResetMode::Default).expect("plan");
    assert_eq!(update.fields, vec!["greeting".to_string()]);
    assert!(update.need_appearances_set);
    let ids: Vec<_> = update.changed.iter().map(|(id, _)| *id).collect();
    assert_eq!(ids, vec![(4, 0), (2, 0)]);
    match &update.changed[0].1 {
        PdfObject::Dictionary(d) => {
            assert!(matches!(entry(d, "V"), Some(PdfObject::Str(bytes, false)) if bytes == b"hello"));
        }
        other => panic!("expected a dictionary, got {other:?}"),
    }
    match &update.changed[1].1 {
        PdfObject::Dictionary(d) => {
            assert!(matches!(entry(d, "NeedAppearances"), Some(PdfObject::Boolean(true))));
        }
        other => panic!("expected a dictionary, got {other:?}"),
    }
}

#[test]
fn clearing_text_with_a_default_writes_it_empty_and_empties_what_it_draws() {
    let doc = plain_document();
    let update = plan_update(&doc, &[(4, 0)], ResetMode::Clear).expect("plan");
    assert!(!update.need_appearances_set);
    let ids: Vec<_> = update.changed.iter().map(|(id, _)| *id).collect();
    assert_eq!(ids, vec![(4, 0), (6, 0)]);
    match &update.changed[0].1 {
        PdfObject::Dictionary(d) => {
            // The field has a /DV, so its value is written empty, not removed.
            assert!(matches!(entry(d, "V"), Some(PdfObject::Str(bytes, false)) if bytes.is_empty()));
            assert!(matches!(entry(d, "DV"), Some(PdfObject::Str(bytes, _)) if bytes == b"hello"));
        }
        other => panic!("expected a dictionary, got {other:?}"),
    }
    match &update.changed[1].1 {
        PdfObject::Stream(stream) => {
            assert!(stream.content.is_empty());
            assert!(matches!(entry(&stream.dict, "Length"), Some(PdfObject::Integer(0))));
            assert!(matches!(entry(&stream.dict, "Subtype"), Some(PdfObject::Name(n)) if n == b"Form"));
        }
        other => panic!("expected a stream, got {other:?}"),
    }
}

#[test]
fn resetting_a_checkbox_turns_it_off_and_touches_only_it() {
    let doc = plain_document();
    let update = plan_update(&doc, &[(5, 0)], ResetMode::Default).expect("plan");
    assert_eq!(update.changed.len(), 1);
    assert_eq!(update.changed[0].0, (5, 0));
    match &update.changed[0].1 {
        PdfObject::Dictionary(d) => {
            assert!(entry(d, "V").is_none());
            assert!(matches!(entry(d, "AS"), Some(PdfObject::Name(n)) if n == b"Off"));
        }
        other => panic!("expected a dictionary, got {other:?}"),
    }
}

#[test]
fn a_reset_that_names_one_bad_field_resets_none() {
    let doc = plain_document();
    match plan_update(&doc, &[(4, 0), (99, 0)], ResetMode::Default) {
        Err(Error::UnknownField(id)) => assert_eq!(id, "99 0"),
        other => panic!("expected an unknown field, got {other:?}"),
    }
}

#[test]
fn a_field_already_at_its_default_changes_nothing() {
    let mut doc = plain_document();
    // Put the default value in place first.
    if let PdfObject::Dictionary(d) = &mut doc.objects[3].1 {
        d.set(key("V"), text("hello"));
    }
    let update = plan_update(&doc, &[(4, 0)], ResetMode::Default).expect("plan");
    assert!(update.changed.is_empty());
    assert!(!update.need_appearances_set);
}

#[test]
fn a_dictionary_sets_in_place_and_removes_by_moving_the_last_entry() {
    let mut d = dict(vec![("A", PdfObject::Integer(1)), ("B", PdfObject::Integer(2)), ("C", PdfObject::Integer(3))]);
    d.set(key("B"), PdfObject::Integer(20));
    assert!(matches!(entry(&d, "B"), Some(PdfObject::Integer(20))));
    assert_eq!(d.len(), 3);
    d.set(key("D"), PdfObject::Null);
    assert_eq!(d.len(), 4);
    d.remove(b"A");
    let keys: Vec<&[u8]> = d.entries.iter().map(|(k, _)| k.as_slice()).collect();
    assert_eq!(keys, vec![&b"D"[..], &b"B"[..], &b"C"[..]]);
    assert!(!d.has(b"A"));
    d.remove(b"missing");
    assert_eq!(d.len(), 3);
}

#[test]
fn a_new_revision_is_written_beside_the_file_under_a_hidden_name() {
    assert_eq!(temp_file_name(Some("form.pdf")), ".form.pdf.reset-tmp");
    assert_eq!(temp_file_name(None), ".document.pdf.reset-tmp");
}

#[test]
fn the_default_mode_restores_the_default() {
    assert_eq!(ResetMode::default(), ResetMode::Default);
}

#[test]
fn an_encrypted_document_is_refused() {
    let mut doc = plain_document();
    doc.objects.push(((7, 0), PdfObject::Dictionary(dict(vec![("Filter", name("Standard"))]))));
    doc.trailer.set(key("Encrypt"), PdfObject::Reference((7, 0)));
    assert!(doc.is_encrypted());
    assert!(matches!(plan_update(&doc, &[(4, 0)], ResetMode::Default), Err(Error::Encrypted)));
}

#[test]
fn the_report_names_the_fields_in_the_order_asked() {
    let doc = plain_document();
    let update = plan_update(&doc, &[(5, 0), (4, 0)], ResetMode::Clear).expect("plan");
    assert_eq!(update.fields, vec!["agree".to_string(), "greeting".to_string()]);
}

#[test]
fn without_a_default_reset_and_clear_agree() {
    let doc = plain_document();
    let reset = plan_update(&doc, &[(5, 0)], ResetMode::Default).expect("reset");
    let clear = plan_update(&doc, &[(5, 0)], ResetMode::Clear).expect("clear");
    assert_eq!(format!("{:?}", reset.changed), format!("{:?}", clear.changed));
    assert_eq!(reset.need_appearances_set, clear.need_appearances_set);
}

#[test]
fn a_push_button_is_refused_with_its_reason() {
    let mut doc = plain_document();
    doc.objects.push((
        (8, 0),
        PdfObject::Dictionary(dict(vec![
            ("FT", name("Btn")),
            ("Ff", PdfObject::Integer(1 << 16)),
            ("T", text("print")),
            ("Rect", PdfObject::Array((0..4).map(|_| PdfObject::Integer(0)).collect())),
        ])),
    ));
    if let PdfObject::Dictionary(acro) = &mut doc.objects[1].1 {
        acro.set(
            key("Fields"),
            PdfObject::Array(vec![
                PdfObject::Reference((4, 0)),
                PdfObject::Reference((5, 0)),
                PdfObject::Reference((8, 0)),
            ]),
        );
    }
    let form = read_form(&doc).expect("read");
    let print = &form.fields[2];
    assert_eq!(print.kind, FieldKind::PushButton);
    assert!(!print.resettable && !print.has_value && !print.is_set);
    assert_eq!(print.note.as_deref(), Some("A push button holds no value."));
    match plan_update(&doc, &[(4, 0), (8, 0)], ResetMode::Default) {
        Err(Error::NotResettable { name, reason }) => {
            assert_eq!(name, "print");
            assert_eq!(reason, "A push button holds no value.");
        }
        other => panic!("expected a refusal, got {other:?}"),
    }
}

#[test]
fn a_field_is_found_by_its_name_or_its_id() {
    let form = read_form(&plain_document()).expect("read");
    assert_eq!(form.find_field("greeting"), Some((4, 0)));
    assert_eq!(form.find_field("5 0"), Some((5, 0)));
    assert_eq!(form.find_field("nobody"), None);
}

#[test]
fn each_field_is_reset_by_its_own_id() {
    let doc = plain_document();
    let form = read_form(&doc).expect("read");
    for field in &form.fields {
        let id = decode_id(&field.id).expect("an id");
        let update = plan_update(&doc, &[id], ResetMode::Clear).expect("plan");
        assert_eq!(update.fields, vec![field.name.clone()]);
    }
}

/// The plain document with its AcroForm dictionary written inside the
/// catalog rather than as an object of its own.
fn inline_acroform_document(need_appearances: Option<bool>) -> PdfDocument {
    let mut doc = plain_document();
    let mut acro = dict(vec![(
        "Fields",
        PdfObject::Array(vec![PdfObject::Reference((4, 0)), PdfObject::Reference((5, 0))]),
    )]);
    if let Some(on) = need_appearances {
        acro.set(key("NeedAppearances"), PdfObject::Boolean(on));
    }
    doc.objects[0].1 = PdfObject::Dictionary(dict(vec![
        ("Type", name("Catalog")),
        ("AcroForm", PdfObject::Dictionary(acro)),
    ]));
    doc
}

#[test]
fn turning_on_a_redraw_in_a_catalogs_own_acroform_is_reported() {
    let doc = inline_acroform_document(None);
    let update = plan_update(&doc, &[(4, 0)], ResetMode::Default).expect("plan");
    assert!(update.need_appearances_set);
    let ids: Vec<_> = update.changed.iter().map(|(id, _)| *id).collect();
    assert_eq!(ids, vec![(4, 0), (1, 0)]);
    match &update.changed[1].1 {
        PdfObject::Dictionary(catalog) => match entry(catalog, "AcroForm") {
            Some(PdfObject::Dictionary(acro)) => {
                assert!(matches!(entry(acro, "NeedAppearances"), Some(PdfObject::Boolean(true))));
            }
            other => panic!("expected an inline AcroForm, got {other:?}"),
        },
        other => panic!("expected a dictionary, got {other:?}"),
    }
}

#[test]
fn a_redraw_already_asked_for_is_not_reported_again() {
    let doc = inline_acroform_document(Some(true));
    let update = plan_update(&doc, &[(4, 0)], ResetMode::Default).expect("plan");
    assert!(!update.need_appearances_set);
    let ids: Vec<_> = update.changed.iter().map(|(id, _)| *id).collect();
    assert_eq!(ids, vec![(4, 0)]);
}

#[test]
fn a_normal_appearance_that_is_no_stream_is_left_alone() {
    let mut doc = plain_document();
    // The text field's /AP /N now names a dictionary, not a stream.
    doc.objects[5].1 = PdfObject::Dictionary(dict(vec![("Off", PdfObject::Reference((9, 0)))]));
    let form = read_form(&doc).expect("read");
    assert!(form.field_ids[0].widgets[0].normal_appearance.is_none());
    let update = plan_update(&doc, &[(4, 0)], ResetMode::Clear).expect("plan");
    let ids: Vec<_> = update.changed.iter().map(|(id, _)| *id).collect();
    assert_eq!(ids, vec![(4, 0)]);
}

#[test]
fn a_button_whose_states_are_written_by_reference_has_no_appearance_stream() {
    let mut doc = plain_document();
    doc.objects.push((
        (10, 0),
        PdfObject::Dictionary(dict(vec![
            ("Yes", PdfObject::Reference((6, 0))),
            ("Off", PdfObject::Reference((6, 0))),
        ])),
    ));
    if let PdfObject::Dictionary(agree) = &mut doc.objects[4].1 {
        agree.set(
            key("AP"),
            PdfObject::Dictionary(dict(vec![("N", PdfObject::Reference((10, 0)))])),
        );
    }
    let form = read_form(&doc).expect("read");
    assert_eq!(form.fields[1].widgets[0].on_state.as_deref(), Some("Yes"));
    assert!(form.field_ids[1].widgets[0].normal_appearance.is_none());
}

#[test]
fn clearing_a_checkbox_with_a_default_writes_off() {
    let mut doc = plain_document();
    if let PdfObject::Dictionary(agree) = &mut doc.objects[4].1 {
        agree.set(key("DV"), name("Yes"));
    }
    let update = plan_update(&doc, &[(5, 0)], ResetMode::Clear).expect("plan");
    match &update.changed[0].1 {
        PdfObject::Dictionary(d) => {
            assert!(matches!(entry(d, "V"), Some(PdfObject::Name(n)) if n == b"Off"));
            assert!(matches!(entry(d, "AS"), Some(PdfObject::Name(n)) if n == b"Off"));
        }
        other => panic!("expected a dictionary, got {other:?}"),
    }
}

#[test]
fn numbers_are_shown_in_decimal() {
    let mut doc = plain_document();
    if let PdfObject::Dictionary(greeting) = &mut doc.objects[3].1 {
        greeting.set(key("V"), PdfObject::Integer(-1207));
        greeting.set(key("DV"), PdfObject::Integer(0));
    }
    let form = read_form(&doc).expect("read");
    assert_eq!(form.fields[0].value.as_deref(), Some("-1207"));
    assert_eq!(form.fields[0].default_value.as_deref(), Some("0"));
}
