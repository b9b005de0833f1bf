//! Embedded objects (such as images) wrapped for inclusion in a document.
//!
//! An [`Attachment`] carries an opaque embedded object as a set of key/value
//! properties understood by the host rendering format; this library never
//! looks inside the bytes. A one-shot conversion turns an attachment into an
//! [`AttachmentRun`], the unit a document can append.

use vstd::prelude::*;

verus! {

/// The mathematical value of one attachment property: its key and value bytes.
#[verifier::ext_equal]
pub struct PropertyModel {
    pub key: Seq<u8>,
    pub value: Seq<u8>,
}

/// One key/value property of an attachment, e.g. `image` mapped to image data.
#[derive(Debug)]
pub struct Property {
    key: Vec<u8>,
    value: Vec<u8>,
}

impl View for Property {
    type V = PropertyModel;

    closed spec fn view(&self) -> PropertyModel {
        PropertyModel { key: self.key@, value: self.value@ }
    }
}

impl Property {
    pub fn new(key: Vec<u8>, value: Vec<u8>) -> (r: Property)
        ensures
            r@ == (PropertyModel { key: key@, value: value@ }),
    {
        Property { key, value }
    }

    pub fn key(&self) -> (r: &Vec<u8>)
        ensures
            r@ == self@.key,
    {
        &self.key
    }

    pub fn value(&self) -> (r: &Vec<u8>)
        ensures
            r@ == self@.value,
    {
        &self.value
    }
}

/// The view of a property list: each property's model, in order.
pub open spec fn props_view(s: Seq<Property>) -> Seq<PropertyModel> {
    s.map_values(|p: Property| p@)
}

/// The property key under which [`Attachment::wrap`] stores the embedded object.
pub open spec fn image_key() -> Seq<u8> {
    seq![105u8, 109u8, 97u8, 103u8, 101u8]
}

/// An opaque embedded object plus the properties the host format reads.
///
/// Immutable after it is absorbed into a document; owned exclusively by its
/// creator until then.
pub struct Attachment {
    properties: Vec<Property>,
}

impl View for Attachment {
    type V = Seq<PropertyModel>;

    closed spec fn view(&self) -> Seq<PropertyModel> {
        props_view(self.properties@)
    }
}

impl Attachment {
    /// A fresh attachment with no properties yet.
    pub fn new() -> (r: Attachment)
        ensures
            r@ =~= Seq::<PropertyModel>::empty(),
    {
        Attachment { properties: Vec::new() }
    }

    /// Record one key/value property, after any recorded earlier.
    pub fn set_value_for_key(&mut self, key: Vec<u8>, value: Vec<u8>)
        ensures
            final(self)@ =~= old(self)@.push(PropertyModel { key: key@, value: value@ }),
    {
        let ghost before = self.properties@;
        self.properties.push(Property::new(key, value));
        proof {
            assert(self.properties@ =~= before.push(self.properties@.last()));
        }
    }

    /// Wrap an already-loaded embedded object (e.g. a decoded image) as an
    /// attachment holding it under the `image` key. Cannot fail: the object
    /// is trusted to be valid and is not inspected.
    pub fn wrap(object: Vec<u8>) -> (r: Attachment)
        ensures
            r@ =~= seq![PropertyModel { key: image_key(), value: object@ }],
    {
        let mut key: Vec<u8> = Vec::new();
        key.push(105u8);
        key.push(109u8);
        key.push(97u8);
        key.push(103u8);
        key.push(101u8);
        proof {
            assert(key@ =~= image_key());
        }
        let mut a = Attachment::new();
        a.set_value_for_key(key, object);
        a
    }

    /// Convert the attachment into a run a document can append. Pure, one-shot
    /// transformation: the run carries exactly this attachment's properties.
    pub fn as_run(self) -> (r: AttachmentRun)
        ensures
            r@ == self@,
    {
        AttachmentRun { attachment: self }
    }

    /// How many properties the attachment carries.
    pub fn property_count(&self) -> (r: usize)
        ensures
            r == self@.len(),
    {
        self.properties.len()
    }

    /// The properties in the order they were recorded.
    pub fn properties(&self) -> (r: &Vec<Property>)
        ensures
            props_view(r@) == self@,
    {
        &self.properties
    }
}

/// An attachment in document clothing: appendable exactly like a text run,
/// occupying one elementary unit.
pub struct AttachmentRun {
    attachment: Attachment,
}

impl View for AttachmentRun {
    type V = Seq<PropertyModel>;

    closed spec fn view(&self) -> Seq<PropertyModel> {
        self.attachment@
    }
}

impl AttachmentRun {
    /// The wrapped attachment's properties.
    pub fn properties(&self) -> (r: &Vec<Property>)
        ensures
            props_view(r@) == self@,
    {
        self.attachment.properties()
    }
}

} // verus!
