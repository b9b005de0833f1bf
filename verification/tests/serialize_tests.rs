use richdoc::attachment::{Attachment, Property};
use richdoc::document::{RichDocument, Run, TextRun};
use richdoc::range::ByteRange;
use richdoc::serialize::{plain_text, to_rtf, to_rtfd, SerializeError};

fn rtfd_header(n: u64) -> Vec<u8> {
    let mut v = vec![82u8, 84, 70, 68, 1];
    v.extend_from_slice(&n.to_le_bytes());
    v
}

#[test]
fn empty_document_empty_range_yields_the_empty_payload() {
    let doc = RichDocument::from_text(b"");
    assert_eq!(doc.length(), 0);
    let payload = to_rtfd(&doc, ByteRange::new(0, 0), Vec::new()).unwrap();
    assert_eq!(payload.data, rtfd_header(0));
    assert_eq!(payload.data.len(), 13);
}

#[test]
fn rtfd_encodes_text_as_tagged_bytes() {
    let doc = RichDocument::from_text(b"ab");
    let payload = to_rtfd(&doc, ByteRange::new(0, 2), Vec::new()).unwrap();
    let mut expected = rtfd_header(2);
    expected.extend_from_slice(&[0, 97, 0, 98]);
    assert_eq!(payload.data, expected);
}

#[test]
fn rtfd_encodes_an_attachment_with_its_properties() {
    let mut doc = RichDocument::from_text(b"");
    let attachment = Attachment::wrap(vec![1u8, 2, 3]);
    doc.append_run(Run::Attachment(attachment.as_run()));
    assert_eq!(doc.length(), 1);
    let payload = to_rtfd(&doc, ByteRange::new(0, 1), Vec::new()).unwrap();
    let mut expected = rtfd_header(1);
    expected.push(1); // attachment tag
    expected.extend_from_slice(&1u64.to_le_bytes()); // one property
    expected.extend_from_slice(&5u64.to_le_bytes());
    expected.extend_from_slice(b"image");
    expected.extend_from_slice(&3u64.to_le_bytes());
    expected.extend_from_slice(&[1, 2, 3]);
    assert_eq!(payload.data, expected);
}

#[test]
fn rtfd_header_carries_the_unit_count_little_endian() {
    let doc = RichDocument::from_text(&[65u8; 300]);
    let payload = to_rtfd(&doc, ByteRange::new(0, 300), Vec::new()).unwrap();
    assert_eq!(&payload.data[5..13], &[44, 1, 0, 0, 0, 0, 0, 0]);
}

#[test]
fn a_range_selects_units_across_runs() {
    let mut doc = RichDocument::from_text(b"ab");
    let attachment = Attachment::wrap(vec![7u8]);
    doc.append_run(Run::Attachment(attachment.as_run()));
    doc.append_run(Run::Text(TextRun::new(b"cd")));
    assert_eq!(doc.length(), 5);

    // Units 1..4 are: 'b', the attachment, 'c'.
    let rtf = to_rtf(&doc, ByteRange::new(1, 3), Vec::new()).unwrap();
    assert_eq!(rtf.data, b"{\\rtf1 bc}".to_vec());

    let rtfd = to_rtfd(&doc, ByteRange::new(1, 3), Vec::new()).unwrap();
    let mut expected = rtfd_header(3);
    expected.extend_from_slice(&[0, 98]);
    expected.push(1);
    expected.extend_from_slice(&1u64.to_le_bytes());
    expected.extend_from_slice(&5u64.to_le_bytes());
    expected.extend_from_slice(b"image");
    expected.extend_from_slice(&1u64.to_le_bytes());
    expected.push(7);
    expected.extend_from_slice(&[0, 99]);
    assert_eq!(rtfd.data, expected);
}

#[test]
fn rtf_escapes_reserved_and_high_bytes() {
    let doc = RichDocument::from_text(&[97, 92, 98, 123, 125]);
    let payload = to_rtf(&doc, ByteRange::new(0, 5), Vec::new()).unwrap();
    assert_eq!(payload.data, b"{\\rtf1 a\\\\b\\{\\}}".to_vec());

    let doc = RichDocument::from_text(&[233u8]);
    let payload = to_rtf(&doc, ByteRange::new(0, 1), Vec::new()).unwrap();
    assert_eq!(payload.data, b"{\\rtf1 \\'e9}".to_vec());
}

#[test]
fn rtf_carries_common_whitespace_but_rejects_other_controls() {
    let doc = RichDocument::from_text(&[9, 10, 13, 32]);
    let payload = to_rtf(&doc, ByteRange::new(0, 4), Vec::new()).unwrap();
    assert_eq!(payload.data, b"{\\rtf1 \t\n\r }".to_vec());

    let doc = RichDocument::from_text(&[97, 7, 98]);
    let err = to_rtf(&doc, ByteRange::new(0, 3), Vec::new());
    assert_eq!(err.unwrap_err(), SerializeError::SerializeFailed);
}

#[test]
fn out_of_bounds_ranges_are_rejected_before_any_conversion() {
    let doc = RichDocument::from_text(b"abc");
    let len = doc.length();
    let err = to_rtfd(&doc, ByteRange::new(0, len + 1), Vec::new());
    assert_eq!(err.unwrap_err(), SerializeError::RangeOutOfBounds);
    let err = to_rtf(&doc, ByteRange::new(2, 2), Vec::new());
    assert_eq!(err.unwrap_err(), SerializeError::RangeOutOfBounds);
    assert!(to_rtf(&doc, ByteRange::new(2, 1), Vec::new()).is_ok());
}

#[test]
fn rich_serialization_succeeds_on_mixed_content_and_rtf_drops_images() {
    let small = vec![1u8, 2, 3];
    let large = vec![0u8; 4096];

    let mut doc_small = RichDocument::from_text(b"Hello ");
    doc_small.append_run(Run::Attachment(Attachment::wrap(small).as_run()));
    doc_small.append_run(Run::Text(TextRun::new(b"World")));

    let mut doc_large = RichDocument::from_text(b"Hello ");
    doc_large.append_run(Run::Attachment(Attachment::wrap(large).as_run()));
    doc_large.append_run(Run::Text(TextRun::new(b"World")));

    let len = doc_small.length();
    assert_eq!(len, doc_large.length());

    let rtfd_small = to_rtfd(&doc_small, ByteRange::new(0, len), Vec::new()).unwrap();
    let rtfd_large = to_rtfd(&doc_large, ByteRange::new(0, len), Vec::new()).unwrap();
    assert!(!rtfd_small.data.is_empty());
    assert!(!rtfd_large.data.is_empty());

    // The text-only payload does not depend on the image bytes at all.
    let rtf_small = to_rtf(&doc_small, ByteRange::new(0, len), Vec::new()).unwrap();
    let rtf_large = to_rtf(&doc_large, ByteRange::new(0, len), Vec::new()).unwrap();
    assert_eq!(rtf_small.data, rtf_large.data);
    assert_eq!(rtf_small.data, b"{\\rtf1 Hello World}".to_vec());
}

#[test]
fn an_unrepresentable_document_fails_and_plain_text_still_works() {
    let mut doc = RichDocument::from_text(b"keep me");
    // An attachment with no properties carries no embedded object: the rich
    // container cannot represent it.
    let bare = Attachment::new();
    doc.append_run(Run::Attachment(bare.as_run()));

    let len = doc.length();
    let err = to_rtfd(&doc, ByteRange::new(0, len), Vec::new());
    assert_eq!(err.unwrap_err(), SerializeError::SerializeFailed);

    // The text-only format drops attachments, so it still succeeds.
    let rtf = to_rtf(&doc, ByteRange::new(0, len), Vec::new()).unwrap();
    assert_eq!(rtf.data, b"{\\rtf1 keep me}".to_vec());

    // The fallback path is unaffected by the failure.
    assert_eq!(plain_text(&doc), b"keep me".to_vec());
}

#[test]
fn only_selected_units_decide_representability() {
    let mut doc = RichDocument::from_text(b"ok");
    let bare = Attachment::new();
    doc.append_run(Run::Attachment(bare.as_run()));
    // The bare attachment sits at unit 2; a range that stops before it
    // serializes fine.
    let payload = to_rtfd(&doc, ByteRange::new(0, 2), Vec::new()).unwrap();
    let mut expected = rtfd_header(2);
    expected.extend_from_slice(&[0, 111, 0, 107]);
    assert_eq!(payload.data, expected);
}

#[test]
fn attribute_overrides_travel_into_the_payload_record() {
    let doc = RichDocument::from_text(b"x");
    let attrs = vec![Property::new(b"font".to_vec(), b"12".to_vec())];
    let payload = to_rtfd(&doc, ByteRange::new(0, 1), attrs).unwrap();
    assert_eq!(payload.attributes.len(), 1);
    assert_eq!(payload.attributes[0].key(), &b"font".to_vec());
    assert_eq!(payload.attributes[0].value(), &b"12".to_vec());
}
