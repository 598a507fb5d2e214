use vstd::prelude::*;
use crate::header::Header;
use crate::query_type::QueryType;
use crate::question::{Question, QuestionView};
use crate::record::{Record, RecordView};

verus! {

/// Relies on rand::random: a value drawn from the thread-local
/// generator; nothing is promised of it.
pub assume_specification<T>[ rand::random::<T> ]() -> (r: T)
    where
        rand::distributions::Standard: rand::distributions::Distribution<T>,
;

/// A whole message: the header and its four sections.
#[derive(Debug, Default)]
pub struct Packet {
    pub header: Header,
    pub questions: Vec<Question>,
    pub answers: Vec<Record>,
    pub authorities: Vec<Record>,
    pub resources: Vec<Record>,
}

/// The mathematical shape of a message.
pub struct PacketView {
    pub header: Header,
    pub questions: Seq<QuestionView>,
    pub answers: Seq<RecordView>,
    pub authorities: Seq<RecordView>,
    pub resources: Seq<RecordView>,
}

/// The views of a list of questions.
pub open spec fn spec_questions(v: Seq<Question>) -> Seq<QuestionView> {
    v.map_values(|q: Question| q@)
}

/// The views of a list of records.
pub open spec fn spec_records(v: Seq<Record>) -> Seq<RecordView> {
    v.map_values(|r: Record| r@)
}

impl View for Packet {
    type V = PacketView;

    open spec fn view(&self) -> PacketView {
        PacketView {
            header: self.header,
            questions: spec_questions(self.questions@),
            answers: spec_records(self.answers@),
            authorities: spec_records(self.authorities@),
            resources: spec_records(self.resources@),
        }
    }
}

/// Copies a list of questions; the copy's views are unchanged.
pub fn clone_questions(v: &Vec<Question>) -> (r: Vec<Question>)
    ensures
        spec_questions(r@) == spec_questions(v@),
{
    let mut r: Vec<Question> = Vec::new();
    let mut i: usize = 0;
    while i < v.len()
        invariant
            0 <= i <= v@.len(),
            r@.len() == i,
            forall|k: int| 0 <= k < i ==> #[trigger] r@[k]@ == v@[k]@,
        decreases v@.len() - i,
    {
        r.push(v[i].clone());
        i = i + 1;
    }
    proof {
        assert(spec_questions(r@) =~= spec_questions(v@));
    }
    r
}

/// Copies a list of records; the copy's views are unchanged.
pub fn clone_records(v: &Vec<Record>) -> (r: Vec<Record>)
    ensures
        spec_records(r@) == spec_records(v@),
{
    let mut r: Vec<Record> = Vec::new();
    let mut i: usize = 0;
    while i < v.len()
        invariant
            0 <= i <= v@.len(),
            r@.len() == i,
            forall|k: int| 0 <= k < i ==> #[trigger] r@[k]@ == v@[k]@,
        decreases v@.len() - i,
    {
        r.push(v[i].clone());
        i = i + 1;
    }
    proof {
        assert(spec_records(r@) =~= spec_records(v@));
    }
    r
}

impl Packet {
    /// The empty message: zero header, no sections.
    pub fn new() -> (r: Packet)
        ensures
            r@.header == Header::spec_default(),
            r@.questions == Seq::<QuestionView>::empty(),
            r@.answers == Seq::<RecordView>::empty(),
            r@.authorities == Seq::<RecordView>::empty(),
            r@.resources == Seq::<RecordView>::empty(),
    {
        let r = Packet {
            header: Header::new(),
            questions: Vec::new(),
            answers: Vec::new(),
            authorities: Vec::new(),
            resources: Vec::new(),
        };
        proof {
            assert(r@.questions =~= Seq::<QuestionView>::empty());
            assert(r@.answers =~= Seq::<RecordView>::empty());
            assert(r@.authorities =~= Seq::<RecordView>::empty());
            assert(r@.resources =~= Seq::<RecordView>::empty());
        }
        r
    }

    /// A reply skeleton: the request's header and questions, and empty
    /// record sections.
    pub fn from(packet: &Packet) -> (r: Packet)
        ensures
            r@.header == packet@.header,
            r@.questions == packet@.questions,
            r@.answers == Seq::<RecordView>::empty(),
            r@.authorities == Seq::<RecordView>::empty(),
            r@.resources == Seq::<RecordView>::empty(),
    {
        let r = Packet {
            header: packet.header,
            questions: clone_questions(&packet.questions),
            answers: Vec::new(),
            authorities: Vec::new(),
            resources: Vec::new(),
        };
        proof {
            assert(r@.answers =~= Seq::<RecordView>::empty());
            assert(r@.authorities =~= Seq::<RecordView>::empty());
            assert(r@.resources =~= Seq::<RecordView>::empty());
        }
        r
    }

    /// The probe query the health-retry loop sends: a random id, the
    /// recursion-desired bit, and one question for the root name,
    /// whose wire form is the bare terminator byte.
    pub fn get_empty_packet() -> (r: Packet)
        ensures
            r@.header.recursion_desired,
            !r@.header.response,
            r@.header.question_count == 1,
            r@.header.answer_count == 0,
            r@.header.authority_count == 0,
            r@.header.resource_count == 0,
            r@.questions.len() == 1,
            r@.questions[0].domain == Seq::<u8>::empty(),
            r@.questions[0].qtype == QueryType::A,
            r@.answers.len() == 0,
            r@.authorities.len() == 0,
            r@.resources.len() == 0,
    {
        let mut header = Header::new();
        header.id = rand::random::<u16>();
        header.recursion_desired = true;
        header.question_count = 1;

        let name: Vec<u8> = Vec::new();

        let mut questions: Vec<Question> = Vec::new();
        questions.push(Question::new(name, QueryType::A));

        let r = Packet {
            header,
            questions,
            answers: Vec::new(),
            authorities: Vec::new(),
            resources: Vec::new(),
        };
        proof {
            assert(r@.questions[0].domain =~= Seq::<u8>::empty());
        }
        r
    }
}

} // verus!
