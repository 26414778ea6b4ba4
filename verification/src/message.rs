//! A message: the sections that this crate can read and write.
use crate::field::FieldView;
use crate::header::DNSHeader;
use crate::question::DNSQuestion;
use vstd::prelude::*;

verus! {

/// A DNS message: its header and its question.
#[derive(Debug, PartialEq)]
pub struct DNSMessage {
    pub header: DNSHeader,
    pub question: DNSQuestion,
}

impl View for DNSMessage {
    type V = Seq<FieldView>;

    /// The message's fields in wire order: the header's, then the
    /// question's.
    open spec fn view(&self) -> Seq<FieldView> {
        self.header@ + self.question@
    }
}

} // verus!
