//! Serialization of a document range into interchange bytes.
//!
//! Two target formats are produced from the same selected units:
//!
//! * the rich payload: a self-describing binary container carrying every
//!   selected text byte and every selected attachment with all its
//!   properties, and
//! * the text-only fallback: a legacy text-format payload in which
//!   attachments are dropped and special bytes are escaped.
//!
//! Serialization is a pure function of the selected units, the format and the
//! attribute overrides: either the full byte blob is produced or the call
//! fails atomically. A range that leaves the document is rejected before any
//! bytes are built; a document the target format cannot represent yields a
//! recoverable failure, and the plain-text path remains available.

use vstd::prelude::*;

use crate::attachment::Property;
use crate::attachment::PropertyModel;
use crate::attachment::props_view;
use crate::document::RichDocument;
use crate::document::Run;
use crate::document::RunModel;
use crate::document::UnitModel;
use crate::document::concat_text;
use crate::document::run_view_fn;
use crate::document::run_units_fn;
use crate::document::text_contribution;
use crate::document::text_of_units;
use crate::document::units_of;
use crate::document::units_of_run;
use crate::flat::flat_concat;
use crate::flat::lemma_flat_concat_split;
use crate::flat::lemma_flat_concat_take_succ;
use crate::range::ByteRange;

verus! {

/// Why a serialization request was refused.
#[derive(Clone, Copy, PartialEq, Eq, Structural, Debug)]
pub enum SerializeError {
    /// The requested range reaches past the document's length. Caller bug,
    /// rejected before any conversion work.
    RangeOutOfBounds,
    /// The target format cannot represent the selected contents. Recoverable:
    /// the caller should fall back to the plain-text path.
    SerializeFailed,
}

/// The produced interchange bytes plus the accompanying attributes record.
#[derive(Debug)]
pub struct SerializedPayload {
    /// The bytes in the target format.
    pub data: Vec<u8>,
    /// Format-level document attributes accompanying the payload.
    pub attributes: Vec<Property>,
}

/// A 64-bit value as eight little-endian bytes.
#[verifier::opaque]
pub open spec fn le8(n: u64) -> Seq<u8> {
    seq![
        (n % 256) as u8,
        ((n / 256) % 256) as u8,
        ((n / 65536) % 256) as u8,
        ((n / 16777216) % 256) as u8,
        ((n / 4294967296) % 256) as u8,
        ((n / 1099511627776) % 256) as u8,
        ((n / 281474976710656) % 256) as u8,
        ((n / 72057594037927936) % 256) as u8,
    ]
}

/// One property's encoding: length-prefixed key, then length-prefixed value.
pub open spec fn prop_bytes(p: PropertyModel) -> Seq<u8> {
    le8(p.key.len() as u64) + p.key + le8(p.value.len() as u64) + p.value
}

/// [`prop_bytes`] as a function value.
pub open spec fn prop_bytes_fn() -> spec_fn(PropertyModel) -> Seq<u8> {
    |p: PropertyModel| prop_bytes(p)
}

/// The encodings of all properties of one attachment, in order.
pub open spec fn props_bytes(ps: Seq<PropertyModel>) -> Seq<u8> {
    flat_concat(ps, prop_bytes_fn())
}

/// One unit's record in the rich container: a tagged text byte, or a tagged
/// attachment with its property count and encoded properties.
pub open spec fn rtfd_unit_bytes(u: UnitModel) -> Seq<u8> {
    match u {
        UnitModel::Byte(b) => seq![0u8, b],
        UnitModel::Attachment(ps) => seq![1u8] + le8(ps.len() as u64) + props_bytes(ps),
    }
}

/// [`rtfd_unit_bytes`] as a function value.
pub open spec fn rtfd_unit_fn() -> spec_fn(UnitModel) -> Seq<u8> {
    |u: UnitModel| rtfd_unit_bytes(u)
}

/// The records of all selected units, in order.
pub open spec fn rtfd_body(us: Seq<UnitModel>) -> Seq<u8> {
    flat_concat(us, rtfd_unit_fn())
}

/// The rich container's header: magic, version, and the unit count.
pub open spec fn rtfd_header(n: nat) -> Seq<u8> {
    seq![82u8, 84u8, 70u8, 68u8, 1u8] + le8(n as u64)
}

/// The full rich payload for a selected unit sequence.
pub open spec fn rtfd_bytes(us: Seq<UnitModel>) -> Seq<u8> {
    rtfd_header(us.len()) + rtfd_body(us)
}

/// Whether the rich container can represent one unit: an attachment must
/// carry at least one property (the embedded object itself).
pub open spec fn unit_rtfd_ok(u: UnitModel) -> bool {
    match u {
        UnitModel::Byte(_) => true,
        UnitModel::Attachment(ps) => ps.len() >= 1,
    }
}

/// Whether the rich container can represent every selected unit.
pub open spec fn rtfd_representable(us: Seq<UnitModel>) -> bool {
    forall|k: int| 0 <= k < us.len() ==> unit_rtfd_ok(#[trigger] us[k])
}

/// The character for one hexadecimal digit (lower case).
pub open spec fn hex_digit(d: u8) -> u8 {
    if d < 10 {
        (48 + d) as u8
    } else {
        (87 + d) as u8
    }
}

/// Whether the text-only format can carry a byte: printable bytes and the
/// common whitespace controls; other control bytes are encoding errors.
pub open spec fn rtf_byte_ok(b: u8) -> bool {
    b >= 32 || b == 9 || b == 10 || b == 13
}

/// One unit's text-only encoding: the byte itself, escaped when the format
/// reserves it, hex-escaped when outside the printable range; an attachment
/// contributes nothing.
pub open spec fn rtf_unit_bytes(u: UnitModel) -> Seq<u8> {
    match u {
        UnitModel::Byte(b) => if b == 92 || b == 123 || b == 125 {
            seq![92u8, b]
        } else if b >= 128 {
            seq![92u8, 39u8, hex_digit(b / 16), hex_digit(b % 16)]
        } else {
            seq![b]
        },
        UnitModel::Attachment(_) => Seq::empty(),
    }
}

/// [`rtf_unit_bytes`] as a function value.
pub open spec fn rtf_unit_fn() -> spec_fn(UnitModel) -> Seq<u8> {
    |u: UnitModel| rtf_unit_bytes(u)
}

/// The text-only encodings of all selected units, in order.
pub open spec fn rtf_body(us: Seq<UnitModel>) -> Seq<u8> {
    flat_concat(us, rtf_unit_fn())
}

/// The text-only payload's opening group and format word.
pub open spec fn rtf_header() -> Seq<u8> {
    seq![123u8, 92u8, 114u8, 116u8, 102u8, 49u8, 32u8]
}

/// The full text-only payload for a selected unit sequence.
pub open spec fn rtf_bytes(us: Seq<UnitModel>) -> Seq<u8> {
    rtf_header() + rtf_body(us) + seq![125u8]
}

/// Whether two units carry the same text: equal bytes, or both attachments
/// (whatever either attachment holds).
pub open spec fn same_text_shape(a: UnitModel, b: UnitModel) -> bool {
    match (a, b) {
        (UnitModel::Byte(x), UnitModel::Byte(y)) => x == y,
        (UnitModel::Attachment(_), UnitModel::Attachment(_)) => true,
        _ => false,
    }
}

/// Law: the text-only payload never depends on what any attachment holds.
/// Two unit sequences that differ only inside attachments — same length, same
/// bytes at the same positions, attachments at the same positions — encode to
/// the same text-only bytes.
pub proof fn lemma_rtf_independent_of_attachments(us1: Seq<UnitModel>, us2: Seq<UnitModel>)
    requires
        us1.len() == us2.len(),
        forall|k: int| 0 <= k < us1.len() ==> same_text_shape(#[trigger] us1[k], us2[k]),
    ensures
        rtf_body(us1) == rtf_body(us2),
    decreases us1.len(),
{
    if us1.len() == 0 {
        assert(rtf_body(us1) =~= rtf_body(us2));
    } else {
        assert(same_text_shape(us1[0], us2[0]));
        assert(rtf_unit_bytes(us1[0]) =~= rtf_unit_bytes(us2[0]));
        lemma_rtf_independent_of_attachments(us1.drop_first(), us2.drop_first());
        assert(rtf_unit_fn()(us1[0]) == rtf_unit_bytes(us1[0]));
        assert(rtf_unit_fn()(us2[0]) == rtf_unit_bytes(us2[0]));
        assert(rtf_body(us1) =~= rtf_body(us2));
    }
}

/// Whether the text-only format can represent one unit.
pub open spec fn unit_rtf_ok(u: UnitModel) -> bool {
    match u {
        UnitModel::Byte(b) => rtf_byte_ok(b),
        UnitModel::Attachment(_) => true,
    }
}

/// Whether the text-only format can represent every selected unit.
pub open spec fn rtf_representable(us: Seq<UnitModel>) -> bool {
    forall|k: int| 0 <= k < us.len() ==> unit_rtf_ok(#[trigger] us[k])
}

/// The units a range selects out of a document.
pub open spec fn selected_units(docv: Seq<RunModel>, range: ByteRange) -> Seq<UnitModel> {
    units_of(docv).subrange(range.start as int, range.start + range.len)
}

/// How many selected units lie strictly before document position `pos`.
pub open spec fn done_units(pos: int, start: int, end: int) -> int {
    if pos <= start {
        0
    } else if pos >= end {
        end - start
    } else {
        pos - start
    }
}

/// Appends the eight little-endian bytes of `n`.
fn push_le8(out: &mut Vec<u8>, n: u64)
    ensures
        final(out)@ == old(out)@ + le8(n),
{
    out.push((n % 256) as u8);
    out.push(((n / 256) % 256) as u8);
    out.push(((n / 65536) % 256) as u8);
    out.push(((n / 16777216) % 256) as u8);
    out.push(((n / 4294967296) % 256) as u8);
    out.push(((n / 1099511627776) % 256) as u8);
    out.push(((n / 281474976710656) % 256) as u8);
    out.push(((n / 72057594037927936) % 256) as u8);
    proof {
        reveal(le8);
        assert(out@ =~= old(out)@ + le8(n));
    }
}

/// Appends every byte of `s`.
fn push_bytes(out: &mut Vec<u8>, s: &Vec<u8>)
    ensures
        final(out)@ == old(out)@ + s@,
{
    let mut i: usize = 0;
    while i < s.len()
        invariant
            i <= s@.len(),
            out@ =~= old(out)@ + s@.take(i as int),
        decreases s@.len() - i,
    {
        out.push(s[i]);
        proof {
            assert(s@.take(i + 1) =~= s@.take(i as int).push(s@[i as int]));
        }
        i = i + 1;
    }
    proof {
        assert(s@.take(s@.len() as int) =~= s@);
    }
}

/// Appends one property's encoding: length-prefixed key, length-prefixed
/// value.
fn push_prop(out: &mut Vec<u8>, p: &Property)
    ensures
        final(out)@ == old(out)@ + prop_bytes(p@),
{
    push_le8(out, p.key().len() as u64);
    push_bytes(out, p.key());
    push_le8(out, p.value().len() as u64);
    push_bytes(out, p.value());
    proof {
        assert(out@ =~= old(out)@ + prop_bytes(p@));
    }
}

/// Appends one attachment's record: the attachment tag, the property count,
/// then each property's encoding.
#[verifier::loop_isolation(false)]
#[verifier::rlimit(100)]
fn push_attachment_record(out: &mut Vec<u8>, props: &Vec<Property>)
    ensures
        final(out)@ == old(out)@ + rtfd_unit_bytes(UnitModel::Attachment(props_view(props@))),
{
    let ghost pv = props_view(props@);
    out.push(1);
    push_le8(out, props.len() as u64);
    let ghost prefix = out@;
    proof {
        assert(props_bytes(pv.take(0)) =~= Seq::<u8>::empty()) by {
            assert(pv.take(0) =~= Seq::<PropertyModel>::empty());
        }
        assert(out@ =~= prefix + props_bytes(pv.take(0)));
    }
    let mut k: usize = 0;
    while k < props.len()
        invariant
            k <= props@.len(),
            out@ =~= prefix + props_bytes(pv.take(k as int)),
        decreases props@.len() - k,
    {
        let p = &props[k];
        proof {
            assert(pv[k as int] == (#[trigger] props@[k as int])@);
            lemma_flat_concat_take_succ(pv, prop_bytes_fn(), k as int);
            assert(prop_bytes_fn()(pv[k as int]) == prop_bytes(pv[k as int]));
        }
        push_prop(out, p);
        proof {
            assert(out@ =~= prefix + props_bytes(pv.take(k + 1)));
        }
        k = k + 1;
    }
    proof {
        assert(pv.take(pv.len() as int) =~= pv);
        assert(out@ =~= old(out)@ + rtfd_unit_bytes(UnitModel::Attachment(pv)));
    }
}

/// Serializes the selected range into the rich binary container, text and
/// embedded attachments together.
///
/// The range is validated against the document before any bytes are built: a
/// range past the document's length is rejected with
/// [`SerializeError::RangeOutOfBounds`]. A selected attachment with no
/// properties carries no embedded object and cannot be represented; it fails
/// the whole call atomically with [`SerializeError::SerializeFailed`].
/// Otherwise the payload is the container header followed by exactly the
/// selected units' records, in order, and the attribute overrides travel into
/// the payload's attributes record. An empty range yields the well-formed
/// empty payload, not a failure.
#[verifier::loop_isolation(false)]
#[verifier::rlimit(100)]
pub fn to_rtfd(doc: &RichDocument, range: ByteRange, attrs: Vec<Property>) -> (r: Result<
    SerializedPayload,
    SerializeError,
>)
    requires
        doc.wf(),
    ensures
        !range.valid_for(units_of(doc@).len()) ==> r == Err::<SerializedPayload, SerializeError>(
            SerializeError::RangeOutOfBounds,
        ),
        range.valid_for(units_of(doc@).len()) && !rtfd_representable(selected_units(doc@, range))
            ==> r == Err::<SerializedPayload, SerializeError>(SerializeError::SerializeFailed),
        range.valid_for(units_of(doc@).len()) && rtfd_representable(selected_units(doc@, range))
            ==> (r matches Ok(p) && p.data@ == rtfd_bytes(selected_units(doc@, range))
            && p.attributes@ == attrs@),
{
    let n = doc.length();
    if !(range.start <= n && range.len <= n - range.start) {
        return Err(SerializeError::RangeOutOfBounds);
    }
    let start = range.start;
    let end = range.start + range.len;
    let ghost us = units_of(doc@);
    let ghost sel = selected_units(doc@, range);
    proof {
        assert(sel.len() == range.len);
        assert(units_of(doc@.take(0)) =~= Seq::<UnitModel>::empty()) by {
            assert(doc@.take(0) =~= Seq::<RunModel>::empty());
        }
        assert(rtfd_body(sel.take(0)) =~= Seq::<u8>::empty()) by {
            assert(sel.take(0) =~= Seq::<UnitModel>::empty());
        }
    }
    let mut out: Vec<u8> = Vec::new();
    out.push(82);
    out.push(84);
    out.push(70);
    out.push(68);
    out.push(1);
    push_le8(&mut out, range.len as u64);
    proof {
        assert(out@ =~= rtfd_header(sel.len()));
    }
    let runs = doc.runs();
    let mut i: usize = 0;
    let mut pos: usize = 0;
    while i < runs.len()
        invariant
            i <= runs@.len(),
            pos == units_of(doc@.take(i as int)).len(),
            out@ =~= rtfd_header(sel.len()) + rtfd_body(
                sel.take(done_units(pos as int, start as int, end as int)),
            ),
            forall|k: int|
                0 <= k < done_units(pos as int, start as int, end as int) ==> unit_rtfd_ok(
                    #[trigger] sel[k],
                ),
        decreases runs@.len() - i,
    {
        let r = &runs[i];
        proof {
            assert(doc@[i as int] == (#[trigger] runs@[i as int])@);
            lemma_flat_concat_split(doc@, run_units_fn(), i as int);
            assert(run_units_fn()(doc@[i as int]) == units_of_run(doc@[i as int]));
            lemma_flat_concat_take_succ(doc@, run_units_fn(), i as int);
        }
        let rlen = r.unit_len();
        proof {
            assert(us == units_of(doc@.take(i as int)) + units_of_run(doc@[i as int]) + units_of(
                doc@.skip(i + 1),
            ));
            assert(pos + rlen <= us.len());
        }
        if pos < end && start < pos + rlen {
            let lo = if pos > start {
                pos
            } else {
                start
            };
            let hi = if pos + rlen < end {
                pos + rlen
            } else {
                end
            };
            match r {
                Run::Text(t) => {
                    let bytes = t.text();
                    proof {
                        assert(doc@[i as int] == RunModel::Text(bytes@));
                        assert(rlen == bytes@.len());
                    }
                    let mut j: usize = lo - pos;
                    while j < hi - pos
                        invariant
                            lo - pos <= j <= hi - pos,
                            out@ =~= rtfd_header(sel.len()) + rtfd_body(sel.take(pos + j - start)),
                            forall|k: int|
                                0 <= k < pos + j - start ==> unit_rtfd_ok(#[trigger] sel[k]),
                        decreases hi - pos - j,
                    {
                        let b = bytes[j];
                        proof {
                            assert(units_of_run(doc@[i as int])[j as int] == UnitModel::Byte(b));
                            assert(us[pos + j] == UnitModel::Byte(b));
                            assert(sel[pos + j - start] == us[pos + j]);
                            lemma_flat_concat_take_succ(sel, rtfd_unit_fn(), pos + j - start);
                            assert(rtfd_unit_fn()(sel[pos + j - start]) == rtfd_unit_bytes(
                                sel[pos + j - start],
                            ));
                        }
                        out.push(0);
                        out.push(b);
                        proof {
                            assert(out@ =~= rtfd_header(sel.len()) + rtfd_body(
                                sel.take(pos + j - start + 1),
                            ));
                        }
                        j = j + 1;
                    }
                },
                Run::Attachment(a) => {
                    proof {
                        assert(doc@[i as int] == RunModel::Attachment(a@));
                        assert(rlen == 1);
                        assert(sel[pos - start] == us[pos as int]);
                        assert(us[pos as int] == units_of_run(doc@[i as int])[0]);
                        assert(sel[pos - start] == UnitModel::Attachment(a@));
                    }
                    let props = a.properties();
                    if props.len() == 0 {
                        proof {
                            assert(!unit_rtfd_ok(sel[pos - start]));
                            assert(!rtfd_representable(sel));
                        }
                        return Err(SerializeError::SerializeFailed);
                    }
                    proof {
                        lemma_flat_concat_take_succ(sel, rtfd_unit_fn(), pos - start);
                        assert(rtfd_unit_fn()(sel[pos - start]) == rtfd_unit_bytes(
                            sel[pos - start],
                        ));
                    }
                    push_attachment_record(&mut out, props);
                    proof {
                        assert(out@ =~= rtfd_header(sel.len()) + rtfd_body(
                            sel.take(pos - start + 1),
                        ));
                    }
                },
            }
        }
        pos = pos + rlen;
        i = i + 1;
        proof {
            assert(pos == units_of(doc@.take(i as int)).len());
            assert(out@ =~= rtfd_header(sel.len()) + rtfd_body(
                sel.take(done_units(pos as int, start as int, end as int)),
            ));
        }
    }
    proof {
        assert(doc@.take(doc@.len() as int) =~= doc@);
        assert(pos == us.len());
        assert(done_units(pos as int, start as int, end as int) == sel.len());
        assert(sel.take(sel.len() as int) =~= sel);
        assert(out@ =~= rtfd_bytes(sel));
    }
    Ok(SerializedPayload { data: out, attributes: attrs })
}

/// Serializes the selected range into the text-only legacy format.
///
/// The range is validated against the document before any bytes are built: a
/// range past the document's length is rejected with
/// [`SerializeError::RangeOutOfBounds`]. A selected text byte the format
/// cannot carry (a control byte other than tab, line feed or carriage
/// return) fails the whole call atomically with
/// [`SerializeError::SerializeFailed`]. Otherwise the payload holds exactly
/// the selected units' text-only encodings between the format's header and
/// closing brace; attachments are dropped, so the payload is independent of
/// any attachment's bytes. The attribute overrides travel into the payload's
/// attributes record.
#[verifier::loop_isolation(false)]
#[verifier::rlimit(100)]
pub fn to_rtf(doc: &RichDocument, range: ByteRange, attrs: Vec<Property>) -> (r: Result<
    SerializedPayload,
    SerializeError,
>)
    requires
        doc.wf(),
    ensures
        !range.valid_for(units_of(doc@).len()) ==> r == Err::<SerializedPayload, SerializeError>(
            SerializeError::RangeOutOfBounds,
        ),
        range.valid_for(units_of(doc@).len()) && !rtf_representable(selected_units(doc@, range))
            ==> r == Err::<SerializedPayload, SerializeError>(SerializeError::SerializeFailed),
        range.valid_for(units_of(doc@).len()) && rtf_representable(selected_units(doc@, range))
            ==> (r matches Ok(p) && p.data@ == rtf_bytes(selected_units(doc@, range))
            && p.attributes@ == attrs@),
{
    let n = doc.length();
    if !(range.start <= n && range.len <= n - range.start) {
        return Err(SerializeError::RangeOutOfBounds);
    }
    let start = range.start;
    let end = range.start + range.len;
    let ghost us = units_of(doc@);
    let ghost sel = selected_units(doc@, range);
    proof {
        assert(sel.len() == range.len);
        assert(units_of(doc@.take(0)) =~= Seq::<UnitModel>::empty()) by {
            assert(doc@.take(0) =~= Seq::<RunModel>::empty());
        }
        assert(rtf_body(sel.take(0)) =~= Seq::<u8>::empty()) by {
            assert(sel.take(0) =~= Seq::<UnitModel>::empty());
        }
    }
    let mut out: Vec<u8> = Vec::new();
    out.push(123);
    out.push(92);
    out.push(114);
    out.push(116);
    out.push(102);
    out.push(49);
    out.push(32);
    proof {
        assert(out@ =~= rtf_header());
    }
    let runs = doc.runs();
    let mut i: usize = 0;
    let mut pos: usize = 0;
    while i < runs.len()
        invariant
            i <= runs@.len(),
            pos == units_of(doc@.take(i as int)).len(),
            out@ =~= rtf_header() + rtf_body(
                sel.take(done_units(pos as int, start as int, end as int)),
            ),
            forall|k: int|
                0 <= k < done_units(pos as int, start as int, end as int) ==> unit_rtf_ok(
                    #[trigger] sel[k],
                ),
        decreases runs@.len() - i,
    {
        let r = &runs[i];
        proof {
            assert(doc@[i as int] == (#[trigger] runs@[i as int])@);
            lemma_flat_concat_split(doc@, run_units_fn(), i as int);
            assert(run_units_fn()(doc@[i as int]) == units_of_run(doc@[i as int]));
            lemma_flat_concat_take_succ(doc@, run_units_fn(), i as int);
        }
        let rlen = r.unit_len();
        proof {
            assert(us == units_of(doc@.take(i as int)) + units_of_run(doc@[i as int]) + units_of(
                doc@.skip(i + 1),
            ));
            assert(pos + rlen <= us.len());
        }
        if pos < end && start < pos + rlen {
            let lo = if pos > start {
                pos
            } else {
                start
            };
            let hi = if pos + rlen < end {
                pos + rlen
            } else {
                end
            };
            match r {
                Run::Text(t) => {
                    let bytes = t.text();
                    proof {
                        assert(doc@[i as int] == RunModel::Text(bytes@));
                        assert(rlen == bytes@.len());
                    }
                    let mut j: usize = lo - pos;
                    while j < hi - pos
                        invariant
                            lo - pos <= j <= hi - pos,
                            out@ =~= rtf_header() + rtf_body(sel.take(pos + j - start)),
                            forall|k: int|
                                0 <= k < pos + j - start ==> unit_rtf_ok(#[trigger] sel[k]),
                        decreases hi - pos - j,
                    {
                        let b = bytes[j];
                        proof {
                            assert(units_of_run(doc@[i as int])[j as int] == UnitModel::Byte(b));
                            assert(us[pos + j] == UnitModel::Byte(b));
                            assert(sel[pos + j - start] == us[pos + j]);
                            lemma_flat_concat_take_succ(sel, rtf_unit_fn(), pos + j - start);
                            assert(rtf_unit_fn()(sel[pos + j - start]) == rtf_unit_bytes(
                                sel[pos + j - start],
                            ));
                        }
                        if !(b >= 32 || b == 9 || b == 10 || b == 13) {
                            proof {
                                assert(!unit_rtf_ok(sel[pos + j - start]));
                                assert(!rtf_representable(sel));
                            }
                            return Err(SerializeError::SerializeFailed);
                        }
                        if b == 92 || b == 123 || b == 125 {
                            out.push(92);
                            out.push(b);
                        } else if b >= 128 {
                            out.push(92);
                            out.push(39);
                            let hi_digit = b / 16;
                            let lo_digit = b % 16;
                            out.push(
                                if hi_digit < 10 {
                                    48 + hi_digit
                                } else {
                                    87 + hi_digit
                                },
                            );
                            out.push(
                                if lo_digit < 10 {
                                    48 + lo_digit
                                } else {
                                    87 + lo_digit
                                },
                            );
                        } else {
                            out.push(b);
                        }
                        proof {
                            assert(out@ =~= rtf_header() + rtf_body(sel.take(pos + j - start + 1)));
                        }
                        j = j + 1;
                    }
                },
                Run::Attachment(a) => {
                    proof {
                        assert(doc@[i as int] == RunModel::Attachment(a@));
                        assert(rlen == 1);
                        assert(sel[pos - start] == us[pos as int]);
                        assert(us[pos as int] == units_of_run(doc@[i as int])[0]);
                        lemma_flat_concat_take_succ(sel, rtf_unit_fn(), pos - start);
                        assert(rtf_unit_fn()(sel[pos - start]) == rtf_unit_bytes(sel[pos - start]));
                        assert(rtf_body(sel.take(pos - start + 1)) =~= rtf_body(
                            sel.take(pos - start),
                        ));
                    }
                },
            }
        }
        pos = pos + rlen;
        i = i + 1;
        proof {
            assert(pos == units_of(doc@.take(i as int)).len());
            assert(out@ =~= rtf_header() + rtf_body(
                sel.take(done_units(pos as int, start as int, end as int)),
            ));
        }
    }
    proof {
        assert(doc@.take(doc@.len() as int) =~= doc@);
        assert(pos == us.len());
        assert(done_units(pos as int, start as int, end as int) == sel.len());
        assert(sel.take(sel.len() as int) =~= sel);
    }
    out.push(125);
    proof {
        assert(out@ =~= rtf_bytes(sel));
    }
    Ok(SerializedPayload { data: out, attributes: attrs })
}

/// Extracts the document's concatenated text content: each text run's bytes
/// in append order; an attachment run contributes no bytes. Never fails, and
/// reads nothing but the document.
pub fn plain_text(doc: &RichDocument) -> (r: Vec<u8>)
    ensures
        r@ == concat_text(doc@),
        r@ == text_of_units(units_of(doc@)),
{
    let runs = doc.runs();
    let mut out: Vec<u8> = Vec::new();
    let mut i: usize = 0;
    while i < runs.len()
        invariant
            i <= runs@.len(),
            runs@.map_values(run_view_fn()) == doc@,
            out@ =~= concat_text(doc@.take(i as int)),
        decreases runs@.len() - i,
    {
        proof {
            lemma_flat_concat_take_succ(doc@, crate::document::contrib_fn(), i as int);
            assert(crate::document::contrib_fn()(doc@[i as int])
                == text_contribution(doc@[i as int]));
            assert(doc@[i as int] == (#[trigger] runs@[i as int])@);
        }
        match &runs[i] {
            Run::Text(t) => {
                push_bytes(&mut out, t.text());
            },
            Run::Attachment(_) => {
            },
        }
        proof {
            assert(out@ =~= concat_text(doc@.take(i + 1)));
        }
        i = i + 1;
    }
    proof {
        assert(doc@.take(doc@.len() as int) =~= doc@);
        crate::document::lemma_plain_text_preserves_order(doc@);
    }
    out
}

} // verus!
