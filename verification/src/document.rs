//! The rich document: an ordered, append-only sequence of runs.
//!
//! A run is either a text run or an attachment run. The document's contents
//! are modelled as a sequence of elementary units, one per text byte and one
//! per attachment; the document's length counts those units. Appending never
//! reorders or edits what came before: order is permanent and length only
//! grows.

use vstd::prelude::*;

use crate::attachment::AttachmentRun;
use crate::attachment::PropertyModel;
use crate::flat::flat_concat;
use crate::flat::lemma_flat_concat_add;
use crate::flat::lemma_flat_concat_singleton;

verus! {

/// The mathematical value of one run: its text bytes, or its attachment's
/// properties.
#[verifier::ext_equal]
pub enum RunModel {
    Text(Seq<u8>),
    Attachment(Seq<PropertyModel>),
}

/// One elementary unit of a document: a single text byte, or a whole
/// attachment (which occupies exactly one addressable position).
#[verifier::ext_equal]
pub enum UnitModel {
    Byte(u8),
    Attachment(Seq<PropertyModel>),
}

/// Turns one text byte into its unit.
pub open spec fn byte_unit_fn() -> spec_fn(u8) -> UnitModel {
    |b: u8| UnitModel::Byte(b)
}

/// The units one run contributes: its bytes in order, or one attachment unit.
pub open spec fn units_of_run(r: RunModel) -> Seq<UnitModel> {
    match r {
        RunModel::Text(s) => s.map_values(byte_unit_fn()),
        RunModel::Attachment(ps) => seq![UnitModel::Attachment(ps)],
    }
}

/// [`units_of_run`] as a function value.
pub open spec fn run_units_fn() -> spec_fn(RunModel) -> Seq<UnitModel> {
    |r: RunModel| units_of_run(r)
}

/// All units of a document's runs, in append order.
pub open spec fn units_of(runs: Seq<RunModel>) -> Seq<UnitModel> {
    flat_concat(runs, run_units_fn())
}

/// How many units one run occupies.
pub open spec fn run_unit_len(r: RunModel) -> nat {
    units_of_run(r).len()
}

/// The text a run contributes to the document's plain text: its bytes for a
/// text run, nothing for an attachment run.
pub open spec fn text_contribution(r: RunModel) -> Seq<u8> {
    match r {
        RunModel::Text(s) => s,
        RunModel::Attachment(_) => Seq::empty(),
    }
}

/// [`text_contribution`] as a function value.
pub open spec fn contrib_fn() -> spec_fn(RunModel) -> Seq<u8> {
    |r: RunModel| text_contribution(r)
}

/// The concatenated text contributions of a document's runs, in append order.
pub open spec fn concat_text(runs: Seq<RunModel>) -> Seq<u8> {
    flat_concat(runs, contrib_fn())
}

/// The text one unit contributes: the byte itself, nothing for an attachment.
pub open spec fn unit_text(u: UnitModel) -> Seq<u8> {
    match u {
        UnitModel::Byte(b) => seq![b],
        UnitModel::Attachment(_) => Seq::empty(),
    }
}

/// [`unit_text`] as a function value.
pub open spec fn unit_text_fn() -> spec_fn(UnitModel) -> Seq<u8> {
    |u: UnitModel| unit_text(u)
}

/// The text content of a unit sequence.
pub open spec fn text_of_units(us: Seq<UnitModel>) -> Seq<u8> {
    flat_concat(us, unit_text_fn())
}

/// Appending one run extends the unit sequence by exactly that run's units.
pub proof fn lemma_units_of_push(runs: Seq<RunModel>, r: RunModel)
    ensures
        units_of(runs.push(r)) == units_of(runs) + units_of_run(r),
{
    assert(runs.push(r) =~= runs + seq![r]);
    lemma_flat_concat_add(runs, seq![r], run_units_fn());
    lemma_flat_concat_singleton(r, run_units_fn());
    assert(run_units_fn()(r) == units_of_run(r));
}

/// The unit sequences of two run sequences laid end to end concatenate.
pub proof fn lemma_units_of_add(a: Seq<RunModel>, b: Seq<RunModel>)
    ensures
        units_of(a + b) == units_of(a) + units_of(b),
{
    lemma_flat_concat_add(a, b, run_units_fn());
}

/// The text of an all-byte unit sequence is those bytes.
proof fn lemma_text_of_byte_units(s: Seq<u8>)
    ensures
        text_of_units(s.map_values(byte_unit_fn())) == s,
    decreases s.len(),
{
    let bf = byte_unit_fn();
    if s.len() == 0 {
        assert(s.map_values(bf) =~= Seq::<UnitModel>::empty());
        assert(text_of_units(s.map_values(bf)) =~= s);
    } else {
        let rest = s.drop_first();
        assert(s.map_values(bf) =~= seq![UnitModel::Byte(s[0])] + rest.map_values(bf));
        lemma_flat_concat_add(
            seq![UnitModel::Byte(s[0])],
            rest.map_values(bf),
            unit_text_fn(),
        );
        lemma_flat_concat_singleton(UnitModel::Byte(s[0]), unit_text_fn());
        lemma_text_of_byte_units(rest);
        assert(text_of_units(s.map_values(bf)) =~= seq![s[0]] + rest);
        assert(seq![s[0]] + rest =~= s);
    }
}

/// The text of one run's units is exactly that run's text contribution.
proof fn lemma_text_of_run_units(r: RunModel)
    ensures
        text_of_units(units_of_run(r)) == text_contribution(r),
{
    match r {
        RunModel::Text(s) => {
            lemma_text_of_byte_units(s);
        },
        RunModel::Attachment(ps) => {
            lemma_flat_concat_singleton(UnitModel::Attachment(ps), unit_text_fn());
            assert(text_of_units(units_of_run(r)) =~= Seq::<u8>::empty());
            assert(text_contribution(r) =~= Seq::<u8>::empty());
        },
    }
}

/// Law of order preservation: the text of all units of a run sequence equals
/// the concatenation of each run's own text contribution, in append order
/// (attachments contribute no text).
pub proof fn lemma_plain_text_preserves_order(runs: Seq<RunModel>)
    ensures
        text_of_units(units_of(runs)) == concat_text(runs),
    decreases runs.len(),
{
    if runs.len() == 0 {
        assert(units_of(runs) =~= Seq::<UnitModel>::empty());
        assert(text_of_units(units_of(runs)) =~= Seq::<u8>::empty());
        assert(concat_text(runs) =~= Seq::<u8>::empty());
    } else {
        let r0 = runs[0];
        let rest = runs.drop_first();
        assert(runs =~= seq![r0] + rest);
        lemma_flat_concat_add(seq![r0], rest, run_units_fn());
        lemma_flat_concat_singleton(r0, run_units_fn());
        lemma_flat_concat_add(units_of_run(r0), units_of(rest), unit_text_fn());
        lemma_text_of_run_units(r0);
        lemma_plain_text_preserves_order(rest);
        lemma_flat_concat_add(seq![r0], rest, contrib_fn());
        lemma_flat_concat_singleton(r0, contrib_fn());
        assert(text_of_units(units_of(runs)) =~= concat_text(runs));
    }
}

/// An immutable stretch of text, appended to a document as a whole unit.
pub struct TextRun {
    text: Vec<u8>,
}

impl View for TextRun {
    type V = Seq<u8>;

    closed spec fn view(&self) -> Seq<u8> {
        self.text@
    }
}

impl TextRun {
    /// A text run holding a copy of `text`.
    pub fn new(text: &[u8]) -> (r: TextRun)
        ensures
            r@ == text@,
    {
        TextRun { text: copy_bytes(text) }
    }

    /// The run's bytes.
    pub fn text(&self) -> (r: &Vec<u8>)
        ensures
            r@ == self@,
    {
        &self.text
    }
}

/// Copies a byte slice into a fresh vector.
fn copy_bytes(s: &[u8]) -> (r: Vec<u8>)
    ensures
        r@ == s@,
{
    let mut r: Vec<u8> = Vec::new();
    let mut i: usize = 0;
    while i < s.len()
        invariant
            i <= s@.len(),
            r@ =~= s@.take(i as int),
        decreases s@.len() - i,
    {
        r.push(s[i]);
        i = i + 1;
    }
    proof {
        assert(s@.take(s@.len() as int) =~= s@);
    }
    r
}

/// One appendable unit of a document.
pub enum Run {
    Text(TextRun),
    Attachment(AttachmentRun),
}

impl View for Run {
    type V = RunModel;

    open spec fn view(&self) -> RunModel {
        match self {
            Run::Text(t) => RunModel::Text(t@),
            Run::Attachment(a) => RunModel::Attachment(a@),
        }
    }
}

impl Run {
    /// How many elementary units this run occupies: one per text byte, or one
    /// for the whole attachment.
    pub fn unit_len(&self) -> (r: usize)
        ensures
            r == run_unit_len(self@),
    {
        match self {
            Run::Text(t) => t.text.len(),
            Run::Attachment(_) => 1,
        }
    }
}

/// [`View::view`] of each run in a run vector, as a function value.
pub open spec fn run_view_fn() -> spec_fn(Run) -> RunModel {
    |r: Run| r@
}

/// An ordered, append-only rich text document.
///
/// Mutable only via append; prior runs are never edited, removed or
/// reordered, and the total unit length only grows.
pub struct RichDocument {
    runs: Vec<Run>,
    len: usize,
}

impl View for RichDocument {
    type V = Seq<RunModel>;

    closed spec fn view(&self) -> Seq<RunModel> {
        self.runs@.map_values(run_view_fn())
    }
}

impl RichDocument {
    /// Internal consistency: the cached length counts exactly the document's
    /// units.
    pub closed spec fn wf(&self) -> bool {
        self.len == units_of(self@).len()
    }

    /// A new document seeded with one text run holding `text` (empty allowed,
    /// giving a zero-length document).
    pub fn from_text(text: &[u8]) -> (r: RichDocument)
        ensures
            r.wf(),
            r@ == seq![RunModel::Text(text@)],
            units_of(r@).len() == text@.len(),
    {
        let t = TextRun::new(text);
        let n = text.len();
        let mut runs: Vec<Run> = Vec::new();
        runs.push(Run::Text(t));
        let r = RichDocument { runs, len: n };
        proof {
            assert(r@ =~= seq![RunModel::Text(text@)]);
            lemma_flat_concat_singleton(RunModel::Text(text@), run_units_fn());
        }
        r
    }

    /// The document's current total unit length.
    pub fn length(&self) -> (r: usize)
        requires
            self.wf(),
        ensures
            r == units_of(self@).len(),
    {
        self.len
    }

    /// The document's runs, in append order.
    pub fn runs(&self) -> (r: &Vec<Run>)
        ensures
            r@.map_values(run_view_fn()) == self@,
    {
        &self.runs
    }

    /// Append one run at the end.
    ///
    /// Law of length monotonicity: the length after the append equals the
    /// length before plus exactly the appended run's unit count; prior runs
    /// are untouched. The requirement that the new length fit the machine's
    /// word is the one machine limit; within it, appending cannot fail.
    pub fn append_run(&mut self, run: Run)
        requires
            old(self).wf(),
            units_of(old(self)@).len() + run_unit_len(run@) <= usize::MAX,
        ensures
            final(self).wf(),
            final(self)@ == old(self)@.push(run@),
            units_of(final(self)@).len() == units_of(old(self)@).len() + run_unit_len(run@),
    {
        proof {
            lemma_units_of_push(self@, run@);
        }
        let ghost before = self@;
        let ghost rv = run@;
        let added = run.unit_len();
        self.len = self.len + added;
        self.runs.push(run);
        proof {
            assert(self@ =~= before.push(rv));
        }
    }

    /// Append every run of `other`, in order, at the end; `other` is absorbed.
    ///
    /// As with [`RichDocument::append_run`], the length after the append
    /// equals the length before plus exactly the appended unit count.
    pub fn append_document(&mut self, other: RichDocument)
        requires
            old(self).wf(),
            other.wf(),
            units_of(old(self)@).len() + units_of(other@).len() <= usize::MAX,
        ensures
            final(self).wf(),
            final(self)@ == old(self)@ + other@,
            units_of(final(self)@).len() == units_of(old(self)@).len() + units_of(other@).len(),
    {
        let ghost ov = other@;
        let ghost base = old(self)@;
        let mut pending = other.runs;
        let mut rev: Vec<Run> = Vec::new();
        proof {
            assert(pending@.map_values(run_view_fn()) == ov);
        }
        while pending.len() > 0
            invariant
                pending@.len() + rev@.len() == ov.len(),
                forall|j: int|
                    0 <= j < pending@.len() ==> (#[trigger] pending@[j])@ == ov[j],
                forall|j: int|
                    0 <= j < rev@.len() ==> (#[trigger] rev@[j])@ == ov[ov.len() - 1 - j],
            decreases pending@.len(),
        {
            let r = pending.pop().unwrap();
            rev.push(r);
        }
        while rev.len() > 0
            invariant
                self.wf(),
                rev@.len() <= ov.len(),
                forall|j: int|
                    0 <= j < rev@.len() ==> (#[trigger] rev@[j])@ == ov[ov.len() - 1 - j],
                self@ =~= base + ov.take(ov.len() - rev@.len()),
                units_of(base).len() + units_of(ov).len() <= usize::MAX,
            decreases rev@.len(),
        {
            let ghost k = ov.len() - rev@.len();
            let r = rev.pop().unwrap();
            proof {
                assert(r@ == ov[k]);
                lemma_units_of_add(base, ov.take(k));
                crate::flat::lemma_flat_concat_take_succ(ov, run_units_fn(), k);
                assert(run_units_fn()(ov[k]) == units_of_run(ov[k]));
                assert(ov =~= ov.take(k + 1) + ov.skip(k + 1));
                lemma_units_of_add(ov.take(k + 1), ov.skip(k + 1));
            }
            self.append_run(r);
            proof {
                assert(self@ =~= base + ov.take(k + 1));
            }
        }
        proof {
            assert(ov.take(ov.len() as int) =~= ov);
            lemma_units_of_add(base, ov);
        }
    }
}

} // verus!
