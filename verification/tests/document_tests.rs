use lopdf::{Dictionary, Document, Object};

use masking_tool::document::{load_pdf_from_bytes, PdfError};
use masking_tool::load_guard::loadable_check;

/// The bytes of a one-page PDF written by `lopdf`.
fn one_page_pdf() -> Vec<u8> {
    let mut doc = Document::with_version("1.5");
    let pages_id = doc.new_object_id();
    let mut page = Dictionary::new();
    page.set("Type", Object::Name(b"Page".to_vec()));
    page.set("Parent", Object::Reference(pages_id));
    page.set(
        "MediaBox",
        Object::Array(vec![
            Object::Integer(0),
            Object::Integer(0),
            Object::Integer(200),
            Object::Integer(100),
        ]),
    );
    let page_id = doc.add_object(page);
    let mut pages = Dictionary::new();
    pages.set("Type", Object::Name(b"Pages".to_vec()));
    pages.set("Kids", Object::Array(vec![Object::Reference(page_id)]));
    pages.set("Count", Object::Integer(1));
    doc.objects.insert(pages_id, Object::Dictionary(pages));
    let mut catalog = Dictionary::new();
    catalog.set("Type", Object::Name(b"Catalog".to_vec()));
    catalog.set("Pages", Object::Reference(pages_id));
    let catalog_id = doc.add_object(catalog);
    doc.trailer.set("Root", Object::Reference(catalog_id));
    let mut out = Vec::new();
    doc.save_to(&mut out).unwrap();
    out
}

#[test]
fn well_formed_pdf_loads() {
    let bytes = one_page_pdf();
    let doc = match load_pdf_from_bytes(&bytes) {
        Ok(d) => d,
        Err(PdfError::Load(e)) => panic!("load failed: {:?}", e),
        Err(PdfError::Unsupported) => panic!("refused"),
    };
    assert_eq!(doc.get_pages().len(), 1);
}

#[test]
fn garbage_is_refused() {
    assert!(matches!(
        load_pdf_from_bytes(b"this is not a pdf"),
        Err(PdfError::Load(_))
    ));
    assert!(load_pdf_from_bytes(&[]).is_err());
}

/// The bytes of `one_page_pdf` with `extra` inserted after the header line.
fn with_inserted(extra: &[u8]) -> Vec<u8> {
    let base = one_page_pdf();
    let cut = base.iter().position(|b| *b == b'\n').unwrap() + 1;
    let mut out = base[..cut].to_vec();
    out.extend_from_slice(extra);
    out.extend_from_slice(&base[cut..]);
    out
}

#[test]
fn pdf_written_by_lopdf_is_loadable() {
    assert!(loadable_check(&one_page_pdf()));
}

#[test]
fn pdf_with_a_direct_length_stream_loads() {
    let mut doc = Document::with_version("1.5");
    let mut dict = Dictionary::new();
    dict.set("Type", Object::Name(b"XObject".to_vec()));
    let stream = lopdf::Stream::new(dict, b"q Q [1 [2 [3]]] <</A <</B 1>>>> (a(b)c) <00>".to_vec());
    let id = doc.add_object(stream);
    let mut catalog = Dictionary::new();
    catalog.set("Type", Object::Name(b"Catalog".to_vec()));
    catalog.set("Extra", Object::Reference(id));
    let catalog_id = doc.add_object(catalog);
    doc.trailer.set("Root", Object::Reference(catalog_id));
    let mut out = Vec::new();
    doc.save_to(&mut out).unwrap();
    let loaded = load_pdf_from_bytes(&out);
    assert!(loaded.is_ok());
}

#[test]
fn chained_cross_references_are_refused() {
    let bytes = with_inserted(b"%/Prev 12\n");
    assert!(!loadable_check(&bytes));
    assert!(matches!(load_pdf_from_bytes(&bytes), Err(PdfError::Unsupported)));
    // An escaped spelling of the same name is caught too.
    assert!(!loadable_check(&with_inserted(b"%/Pr#65v 12\n")));
    assert!(!loadable_check(&with_inserted(b"%/XRefStm 12\n")));
}

#[test]
fn object_streams_are_refused() {
    let bytes = with_inserted(b"9 0 obj <</Type /ObjStm /N 0 /First 0>> endobj\n");
    assert!(matches!(load_pdf_from_bytes(&bytes), Err(PdfError::Unsupported)));
    assert!(!loadable_check(&with_inserted(b"%/Obj#53tm\n")));
    // A longer name is a different name.
    assert!(loadable_check(&with_inserted(b"%/ObjStmX\n")));
}

#[test]
fn indirect_stream_lengths_are_refused() {
    assert!(!loadable_check(&with_inserted(b"9 0 obj <</Length 10 0 R>> endobj\n")));
    assert!(!loadable_check(&with_inserted(b"9 0 obj <</Length %c\n10 %d\n0 R>> endobj\n")));
    assert!(loadable_check(&with_inserted(b"9 0 obj <</Length 10 /Filter /X>> endobj\n")));
}

#[test]
fn deep_nesting_is_refused() {
    let mut deep = b"9 0 obj ".to_vec();
    deep.extend(vec![b'['; 33]);
    deep.extend(vec![b']'; 33]);
    deep.extend_from_slice(b" endobj\n");
    assert!(!loadable_check(&with_inserted(&deep)));
    let mut ok = b"9 0 obj ".to_vec();
    ok.extend(vec![b'['; 32]);
    ok.extend(vec![b']'; 32]);
    ok.extend_from_slice(b" endobj\n");
    assert!(loadable_check(&with_inserted(&ok)));
    // Brackets inside strings and comments do not nest.
    let strings = b"9 0 obj [ ([[[[[[[[[[[[[[[[[[[[[[[[[[[[[[[[[[[[[[) <41> %[[[[[[[[[[[[[[[[[[[[[[[[[[[[[[[[[[[\n ] endobj\n";
    assert!(loadable_check(&with_inserted(strings)));
    let mut trailer = b"trailer ".to_vec();
    trailer.extend(vec![b'<'; 66]);
    assert!(!loadable_check(&with_inserted(&trailer)));
}

#[test]
fn large_numbers_are_refused() {
    assert!(!loadable_check(&with_inserted(b"%12345678901\n")));
    assert!(!loadable_check(&with_inserted(b"%4294967295\n")));
    assert!(loadable_check(&with_inserted(b"%2147483647\n")));
}

#[test]
fn cross_reference_stream_fields_are_bounded() {
    assert!(loadable_check(&with_inserted(b"9 0 obj <</W [1 4 2] /Columns 5 /Colors 3 /BitsPerComponent 8>> endobj\n")));
    assert!(!loadable_check(&with_inserted(b"9 0 obj <</W [1 400 2]>> endobj\n")));
    assert!(!loadable_check(&with_inserted(b"9 0 obj <</W [0 0 0]>> endobj\n")));
    assert!(!loadable_check(&with_inserted(b"9 0 obj <</W [0 %c\n 0 +0 1]>> endobj\n")));
    assert!(loadable_check(&with_inserted(b"9 0 obj <</W [0 0 1]>> endobj\n")));
    assert!(!loadable_check(&with_inserted(b"9 0 obj <</Columns 70000>> endobj\n")));
    assert!(!loadable_check(&with_inserted(b"9 0 obj <</Colors +65>> endobj\n")));
    assert!(!loadable_check(&with_inserted(b"9 0 obj <</BitsPerComponent 33>> endobj\n")));
    assert!(loadable_check(&with_inserted(b"9 0 obj <</BitsPerComponent -33>> endobj\n")));
}

#[test]
fn negative_cross_reference_indexes_are_refused() {
    assert!(!loadable_check(&with_inserted(b"9 0 obj <</Index [-1 1]>> endobj\n")));
    assert!(!loadable_check(&with_inserted(b"9 0 obj <</Index [0 3 %x\n -0 1]>> endobj\n")));
    assert!(loadable_check(&with_inserted(b"9 0 obj <</Index [0 3 +7 1]>> endobj\n")));
}
