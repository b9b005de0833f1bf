use richdoc::attachment::Attachment;
use richdoc::document::{RichDocument, Run, TextRun};
use richdoc::range::ByteRange;
use richdoc::serialize::{plain_text, to_rtfd};

#[test]
fn test_nsattributed_string() {
    // An opaque, already-loaded embedded object; the loader is out of scope.
    let image = b"/Users/rtfeldman/Downloads/test.jpeg".to_vec();

    let mut attr_string = RichDocument::from_text(b"Test String");
    let hello = RichDocument::from_text(b"Hello World");
    attr_string.append_document(hello);

    let attachment = Attachment::wrap(image);
    attr_string.append_run(Run::Attachment(attachment.as_run()));

    let another = RichDocument::from_text(b"Another String");
    attr_string.append_document(another);

    let len = attr_string.length();
    let rtfd_data = to_rtfd(&attr_string, ByteRange::new(0, len), Vec::new());
    assert!(rtfd_data.is_ok());
}

#[test]
fn plain_text_preserves_append_order() {
    let mut doc = RichDocument::from_text(b"Hello ");
    let attachment = Attachment::wrap(vec![9u8, 8u8, 7u8]);
    doc.append_run(Run::Attachment(attachment.as_run()));
    doc.append_run(Run::Text(TextRun::new(b"World")));
    assert_eq!(plain_text(&doc), b"Hello World".to_vec());
}

#[test]
fn length_grows_by_exactly_the_appended_units() {
    let mut doc = RichDocument::from_text(b"ab");
    assert_eq!(doc.length(), 2);
    let attachment = Attachment::wrap(vec![1u8; 100]);
    doc.append_run(Run::Attachment(attachment.as_run()));
    assert_eq!(doc.length(), 3);
    doc.append_run(Run::Text(TextRun::new(b"cde")));
    assert_eq!(doc.length(), 6);
    let other = RichDocument::from_text(b"fg");
    doc.append_document(other);
    assert_eq!(doc.length(), 8);
}

#[test]
fn append_document_keeps_both_orders() {
    let mut doc = RichDocument::from_text(b"AB");
    let mut other = RichDocument::from_text(b"CD");
    other.append_run(Run::Text(TextRun::new(b"EF")));
    doc.append_document(other);
    assert_eq!(plain_text(&doc), b"ABCDEF".to_vec());
}

#[test]
fn empty_text_seeds_a_zero_length_document() {
    let doc = RichDocument::from_text(b"");
    assert_eq!(doc.length(), 0);
    assert_eq!(plain_text(&doc), Vec::<u8>::new());
}

#[test]
fn attachment_wrap_stores_the_object_under_the_image_key() {
    let attachment = Attachment::wrap(vec![1u8, 2u8, 3u8]);
    assert_eq!(attachment.property_count(), 1);
    let props = attachment.properties();
    assert_eq!(props[0].key(), &b"image".to_vec());
    assert_eq!(props[0].value(), &vec![1u8, 2u8, 3u8]);
}

#[test]
fn set_value_for_key_records_properties_in_order() {
    let mut attachment = Attachment::new();
    assert_eq!(attachment.property_count(), 0);
    attachment.set_value_for_key(b"image".to_vec(), vec![1u8]);
    attachment.set_value_for_key(b"name".to_vec(), b"photo".to_vec());
    assert_eq!(attachment.property_count(), 2);
    let props = attachment.properties();
    assert_eq!(props[0].key(), &b"image".to_vec());
    assert_eq!(props[1].key(), &b"name".to_vec());
    assert_eq!(props[1].value(), &b"photo".to_vec());
}

#[test]
fn attachment_run_occupies_one_unit() {
    let attachment = Attachment::wrap(vec![0u8; 4096]);
    let run = Run::Attachment(attachment.as_run());
    assert_eq!(run.unit_len(), 1);
    let text = Run::Text(TextRun::new(b"abcd"));
    assert_eq!(text.unit_len(), 4);
}
