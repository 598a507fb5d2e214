use vstd::prelude::*;
use crate::pair::{spec_u16_bytes, BytesPair};
use crate::query_class::QueryClass;
use crate::query_type::QueryType;
use crate::writer::{spec_labels_ok, spec_write_domain_plain, write_domain};

verus! {

/// One entry of the question section: a name, a type and a class.
#[derive(Debug)]
pub struct Question {
    /// Lowercased dotted name, without a trailing dot.
    pub domain: Vec<u8>,
    pub qtype: QueryType,
    pub qclass: QueryClass,
}

/// The mathematical shape of a question.
pub struct QuestionView {
    pub domain: Seq<u8>,
    pub qtype: QueryType,
    pub qclass: QueryClass,
}

impl View for Question {
    type V = QuestionView;

    open spec fn view(&self) -> QuestionView {
        QuestionView { domain: self.domain@, qtype: self.qtype, qclass: self.qclass }
    }
}

/// The wire form of a question whose name is written plainly.
pub open spec fn spec_write_question_plain(q: QuestionView) -> Seq<u8> {
    spec_write_domain_plain(q.domain) + spec_u16_bytes(q.qtype.spec_num())
        + spec_u16_bytes(q.qclass.spec_num())
}

impl Question {
    pub fn new(name: Vec<u8>, qtype: QueryType) -> (r: Question)
        ensures
            r.domain == name,
            r.qtype == qtype,
            r.qclass == QueryClass::IN,
    {
        Question { domain: name, qtype, qclass: QueryClass::IN }
    }

    pub fn new_with_class(name: Vec<u8>, qtype: QueryType, qclass: QueryClass) -> (r: Question)
        ensures
            r.domain == name,
            r.qtype == qtype,
            r.qclass == qclass,
    {
        Question { domain: name, qtype, qclass }
    }

    /// The uncompressed wire form of this question.
    pub fn write(&self) -> (r: Vec<u8>)
        requires
            spec_labels_ok(self.domain@),
        ensures
            r@ == spec_write_question_plain(self@),
    {
        let mut res: Vec<u8> = match write_domain(&self.domain) {
            Ok(v) => v,
            Err(_) => Vec::new(),
        };

        let qtype = BytesPair::from(self.qtype.to_num());
        let mut qtype_bytes = qtype.bytes();
        res.append(&mut qtype_bytes);

        let class = BytesPair::from(self.qclass.to_num());
        let mut class_bytes = class.bytes();
        res.append(&mut class_bytes);

        proof {
            assert(res@ =~= spec_write_question_plain(self@));
        }

        res
    }
}

impl Clone for Question {
    fn clone(&self) -> (r: Self)
        ensures
            r@ == self@,
    {
        let domain = self.domain.clone();
        proof {
            assert(domain@ =~= self.domain@);
        }
        Question { domain, qtype: self.qtype, qclass: self.qclass }
    }
}

impl Default for Question {
    fn default() -> (r: Self)
        ensures
            r.domain@ == Seq::<u8>::empty(),
            r.qtype == QueryType::A,
            r.qclass == QueryClass::IN,
    {
        Question { domain: Vec::new(), qtype: QueryType::A, qclass: QueryClass::IN }
    }
}

} // verus!
