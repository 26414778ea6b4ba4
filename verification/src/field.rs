//! The field model: one tagged value per wire-format field, and the ordered
//! view a structure gives of its fields.
use vstd::prelude::*;

verus! {

/// One field of a wire structure.
#[derive(Clone, Debug, PartialEq)]
pub enum Field {
    /// A domain name: its segments in order.
    Label(Vec<String>),
    /// A 16-bit quantity, written big-endian on a byte boundary.
    Word(u16),
    /// A value and the number of bits it occupies inside a shared byte.
    Byte(u8, usize),
}

/// What a [`Field`] denotes.
pub ghost enum FieldView {
    Label(Seq<Seq<char>>),
    Word(u16),
    Byte(u8, usize),
}

/// The segments of a name, each as its characters.
pub open spec fn segments_view(segments: Seq<String>) -> Seq<Seq<char>> {
    Seq::new(segments.len(), |i: int| segments[i]@)
}

impl View for Field {
    type V = FieldView;

    open spec fn view(&self) -> FieldView {
        match *self {
            Field::Label(segments) => FieldView::Label(segments_view(segments@)),
            Field::Word(value) => FieldView::Word(value),
            Field::Byte(value, width) => FieldView::Byte(value, width),
        }
    }
}

/// The fields behind a sequence of references, in the same order.
pub open spec fn views_of(fields: Seq<&Field>) -> Seq<FieldView> {
    Seq::new(fields.len(), |i: int| fields[i]@)
}

/// A pass over the fields of one structure, front to back.
pub struct FieldIter<'a> {
    fields: Vec<&'a Field>,
    idx: usize,
}

impl<'a> View for FieldIter<'a> {
    type V = Seq<FieldView>;

    /// The fields that have not been handed out yet.
    closed spec fn view(&self) -> Seq<FieldView> {
        if self.idx <= self.fields@.len() {
            views_of(self.fields@).skip(self.idx as int)
        } else {
            Seq::empty()
        }
    }
}

impl<'a> FieldIter<'a> {
    /// How many fields have not been handed out yet.
    pub fn len(&self) -> (n: usize)
        ensures
            n == self@.len(),
    {
        if self.idx <= self.fields.len() {
            self.fields.len() - self.idx
        } else {
            0
        }
    }

    /// The field that `k` more calls of `next` would skip before handing
    /// it out, or `None` where fewer than `k + 1` are left.
    pub fn get(&self, k: usize) -> (r: Option<&'a Field>)
        ensures
            r is Some <==> k < self@.len(),
            r matches Some(f) ==> f@ == self@[k as int],
    {
        if k < self.len() {
            let total = self.fields.len();
            assert(self.idx + k < total);
            Some(self.fields[self.idx + k])
        } else {
            None
        }
    }

    /// Hands out the next field, or `None` once all have been handed out.
    pub fn next(&mut self) -> (r: Option<&'a Field>)
        ensures
            r is Some <==> old(self)@.len() > 0,
            r matches Some(f) ==> f@ == old(self)@[0] && final(self)@ == old(self)@.skip(1),
            r is None ==> final(self)@ == old(self)@,
    {
        let idx = self.idx;
        if idx < self.fields.len() {
            self.idx = idx + 1;
            let f: &'a Field = self.fields[idx];
            assert(self@ =~= old(self)@.skip(1));
            Some(f)
        } else {
            None
        }
    }
}

impl<'a> From<Vec<&'a Field>> for FieldIter<'a> {
    /// Starts a pass at the first of `value`.
    fn from(value: Vec<&'a Field>) -> (it: Self)
        ensures
            it@ == views_of(value@),
    {
        let it = FieldIter { fields: value, idx: 0 };
        assert(it@ =~= views_of(value@));
        it
    }
}

impl<'a> vstd::std_specs::convert::FromSpecImpl<Vec<&'a Field>> for FieldIter<'a> {
    open spec fn obeys_from_spec() -> bool {
        true
    }

    closed spec fn from_spec(value: Vec<&'a Field>) -> Self {
        FieldIter { fields: value, idx: 0 }
    }
}

/// A structure that can be laid out on the wire: it names its fields in
/// wire order.
pub trait Fields {
    /// The structure's fields in wire order. A structure that does not say
    /// what they are leaves them unknown.
    open spec fn field_views(&self) -> Seq<FieldView> {
        arbitrary()
    }

    /// A fresh pass over the structure's own fields, in wire order.
    fn fields(&self) -> (it: FieldIter<'_>)
        ensures
            it@ == self.field_views(),
    ;
}

} // verus!
