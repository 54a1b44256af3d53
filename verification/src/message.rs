//! The message codec: the 12-byte header, questions and resource records,
//! parsing a whole message from response bytes, serializing a query, response
//! classification, and the accessors that pull addresses and names out of a
//! parsed response.

use vstd::prelude::*;

use crate::compression::{
    bytes_range, decompress, lemma_walk_wf_name, name_walk, spec_decompress, walk_name, wf_name,
    CompressedName, MAX_POINTER_HOPS,
};
use crate::error::{DnsError, ParseError, ResponseCodeError};
use crate::net::{bytes_to_ip, spec_bytes_to_ip, IpAddress};
use crate::server_info::{ServerInfo, ServerInfoView};

verus! {

// ---------------------------------------------------------------------------
// Big-endian 16- and 32-bit fields.
// ---------------------------------------------------------------------------

/// The value of two big-endian bytes.
pub open spec fn spec_u16_of(a: u8, b: u8) -> u16 {
    (a as int * 256 + b as int) as u16
}

/// The value of four big-endian bytes.
pub open spec fn spec_u32_of(a: u8, b: u8, c: u8, d: u8) -> u32 {
    (a as int * 0x100_0000 + b as int * 0x1_0000 + c as int * 256 + d as int) as u32
}

/// The two big-endian bytes of a 16-bit value.
pub open spec fn spec_u16_bytes(x: u16) -> Seq<u8> {
    seq![(x / 256) as u8, (x % 256) as u8]
}

/// The four big-endian bytes of a 32-bit value.
pub open spec fn spec_u32_bytes(x: u32) -> Seq<u8> {
    seq![
        (x / 0x100_0000) as u8,
        ((x / 0x1_0000) % 256) as u8,
        ((x / 256) % 256) as u8,
        (x % 256) as u8,
    ]
}

/// Writing a 16-bit value and reading it back is the identity.
pub proof fn lemma_u16_round_trip(x: u16)
    ensures
        spec_u16_of(spec_u16_bytes(x)[0], spec_u16_bytes(x)[1]) == x,
{
}

fn read_u16(bytes: &[u8], i: usize) -> (r: u16)
    requires
        i + 2 <= bytes@.len(),
    ensures
        r == spec_u16_of(bytes@[i as int], bytes@[i + 1]),
{
    (bytes[i] as u16) * 256 + (bytes[i + 1] as u16)
}

fn read_u32(bytes: &[u8], i: usize) -> (r: u32)
    requires
        i + 4 <= bytes@.len(),
    ensures
        r == spec_u32_of(bytes@[i as int], bytes@[i + 1], bytes@[i + 2], bytes@[i + 3]),
{
    (bytes[i] as u32) * 0x100_0000 + (bytes[i + 1] as u32) * 0x1_0000
        + (bytes[i + 2] as u32) * 256 + (bytes[i + 3] as u32)
}

fn push_u16(buf: &mut Vec<u8>, x: u16)
    ensures
        final(buf)@ == old(buf)@ + spec_u16_bytes(x),
{
    buf.push((x / 256) as u8);
    buf.push((x % 256) as u8);
    proof {
        assert(buf@ =~= old(buf)@ + spec_u16_bytes(x));
    }
}

fn push_u32(buf: &mut Vec<u8>, x: u32)
    ensures
        final(buf)@ == old(buf)@ + spec_u32_bytes(x),
{
    buf.push((x / 0x100_0000) as u8);
    buf.push(((x / 0x1_0000) % 256) as u8);
    buf.push(((x / 256) % 256) as u8);
    buf.push((x % 256) as u8);
    proof {
        assert(buf@ =~= old(buf)@ + spec_u32_bytes(x));
    }
}

// ---------------------------------------------------------------------------
// The header.
// ---------------------------------------------------------------------------

/// The fixed 12-byte message header.
#[derive(Debug, Clone, Copy, PartialEq, Eq, Structural)]
pub struct Header {
    pub id: u16,
    pub flags: u16,
    pub qdcount: u16,
    pub ancount: u16,
    pub nscount: u16,
    pub arcount: u16,
}

/// The flags word assembled from its parts, over a zero base.
pub open spec fn spec_make_flags(qr: bool, aa: bool, tc: bool, rd: bool, rcode: u8) -> u16 {
    let f0 = (rcode & 15) as u16;
    let f1 = if qr {
        f0 | 0x8000
    } else {
        f0
    };
    let f2 = if aa {
        f1 | 0x400
    } else {
        f1
    };
    let f3 = if tc {
        f2 | 0x200
    } else {
        f2
    };
    if rd {
        f3 | 0x100
    } else {
        f3
    }
}

/// The header that `bytes` starts with; meaningful when `bytes` holds at
/// least 12 bytes.
pub open spec fn spec_parse_header(bytes: Seq<u8>) -> Header {
    Header {
        id: spec_u16_of(bytes[0], bytes[1]),
        flags: spec_u16_of(bytes[2], bytes[3]),
        qdcount: spec_u16_of(bytes[4], bytes[5]),
        ancount: spec_u16_of(bytes[6], bytes[7]),
        nscount: spec_u16_of(bytes[8], bytes[9]),
        arcount: spec_u16_of(bytes[10], bytes[11]),
    }
}

/// The RCODE carried in a flags word, mapped onto `Ok` or the matching
/// error; values 6 through 15 are not distinguished from success.
pub open spec fn spec_rcode_check(flags: u16) -> Result<(), ResponseCodeError> {
    let rc = flags & 0xf;
    if rc == 1 {
        Err(ResponseCodeError::FormatError)
    } else if rc == 2 {
        Err(ResponseCodeError::ServerFailure)
    } else if rc == 3 {
        Err(ResponseCodeError::NameError)
    } else if rc == 4 {
        Err(ResponseCodeError::NotImplemented)
    } else if rc == 5 {
        Err(ResponseCodeError::Refused)
    } else {
        Ok(())
    }
}

impl Header {
    /// A query header: the given id and flag bits, one question, no records.
    pub fn new(id: u16, qr: bool, aa: bool, tc: bool, rd: bool, rcode: u8) -> (h: Header)
        ensures
            h == (Header {
                id,
                flags: spec_make_flags(qr, aa, tc, rd, rcode),
                qdcount: 1,
                ancount: 0,
                nscount: 0,
                arcount: 0,
            }),
    {
        let mut flags: u16 = (rcode & 15) as u16;
        if qr {
            flags = flags | 0x8000;
        }
        if aa {
            flags = flags | 0x400;
        }
        if tc {
            flags = flags | 0x200;
        }
        if rd {
            flags = flags | 0x100;
        }
        Header { id, flags, qdcount: 1, ancount: 0, nscount: 0, arcount: 0 }
    }

    /// Reads the 12 header bytes, or fails when fewer are there.
    pub fn from_bytes(bytes: &[u8]) -> (r: Result<Header, ParseError>)
        ensures
            bytes@.len() >= 12 ==> (r matches Ok(h) && h == spec_parse_header(bytes@)),
            bytes@.len() < 12 ==> (r matches Err(e) && e == ParseError::InvalidHeader),
    {
        if bytes.len() < 12 {
            return Err(ParseError::InvalidHeader);
        }
        Ok(Header {
            id: read_u16(bytes, 0),
            flags: read_u16(bytes, 2),
            qdcount: read_u16(bytes, 4),
            ancount: read_u16(bytes, 6),
            nscount: read_u16(bytes, 8),
            arcount: read_u16(bytes, 10),
        })
    }

    /// Maps this header's RCODE onto `Ok` or the matching error.
    pub fn check_error(&self) -> (r: Result<(), ResponseCodeError>)
        ensures
            r == spec_rcode_check(self.flags),
    {
        let rc = self.flags & 0xf;
        if rc == 1 {
            Err(ResponseCodeError::FormatError)
        } else if rc == 2 {
            Err(ResponseCodeError::ServerFailure)
        } else if rc == 3 {
            Err(ResponseCodeError::NameError)
        } else if rc == 4 {
            Err(ResponseCodeError::NotImplemented)
        } else if rc == 5 {
            Err(ResponseCodeError::Refused)
        } else {
            Ok(())
        }
    }
}

// ---------------------------------------------------------------------------
// Questions and resource records.
// ---------------------------------------------------------------------------

/// One entry of the question section. The name is kept in wire form, exactly
/// the bytes that stood in the message.
#[derive(Debug, PartialEq, Eq)]
pub struct Question {
    pub qname: Vec<u8>,
    pub qtype: u16,
    pub qclass: u16,
}

pub ghost struct QuestionView {
    pub qname: Seq<u8>,
    pub qtype: u16,
    pub qclass: u16,
}

impl View for Question {
    type V = QuestionView;

    open spec fn view(&self) -> QuestionView {
        QuestionView { qname: self.qname@, qtype: self.qtype, qclass: self.qclass }
    }
}

/// One resource record, from any of the three record sections.
#[derive(Debug, PartialEq, Eq)]
pub struct ResourceRecord {
    pub rname: Vec<u8>,
    pub rtype: u16,
    pub rclass: u16,
    pub ttl: u32,
    pub rdlength: u16,
    pub rdata: Vec<u8>,
}

pub ghost struct ResourceRecordView {
    pub rname: Seq<u8>,
    pub rtype: u16,
    pub rclass: u16,
    pub ttl: u32,
    pub rdlength: u16,
    pub rdata: Seq<u8>,
}

impl View for ResourceRecord {
    type V = ResourceRecordView;

    open spec fn view(&self) -> ResourceRecordView {
        ResourceRecordView {
            rname: self.rname@,
            rtype: self.rtype,
            rclass: self.rclass,
            ttl: self.ttl,
            rdlength: self.rdlength,
            rdata: self.rdata@,
        }
    }
}

/// The question that starts at `off`, and the offset just past it: the name
/// walk, one byte for the terminator (or the second pointer byte), then the
/// four bytes of type and class. `None` on underflow.
pub open spec fn spec_parse_question(bytes: Seq<u8>, off: int) -> Option<(QuestionView, int)> {
    let w = name_walk(bytes, off);
    if w + 5 > bytes.len() {
        None
    } else {
        Some(
            (
                QuestionView {
                    qname: bytes.subrange(off, w + 1),
                    qtype: spec_u16_of(bytes[w + 1], bytes[w + 2]),
                    qclass: spec_u16_of(bytes[w + 3], bytes[w + 4]),
                },
                w + 5,
            ),
        )
    }
}

/// The record that starts at `off`, and the offset just past it: the name,
/// ten bytes of fixed fields, then `rdlength` bytes of data. `None` on
/// underflow of either part.
pub open spec fn spec_parse_rr(bytes: Seq<u8>, off: int) -> Option<(ResourceRecordView, int)> {
    let w = name_walk(bytes, off);
    if w + 11 > bytes.len() {
        None
    } else {
        let rdlength = spec_u16_of(bytes[w + 9], bytes[w + 10]);
        if w + 11 + rdlength > bytes.len() {
            None
        } else {
            Some(
                (
                    ResourceRecordView {
                        rname: bytes.subrange(off, w + 1),
                        rtype: spec_u16_of(bytes[w + 1], bytes[w + 2]),
                        rclass: spec_u16_of(bytes[w + 3], bytes[w + 4]),
                        ttl: spec_u32_of(bytes[w + 5], bytes[w + 6], bytes[w + 7], bytes[w + 8]),
                        rdlength,
                        rdata: bytes.subrange(w + 11, w + 11 + rdlength),
                    },
                    w + 11 + rdlength,
                ),
            )
        }
    }
}

impl Question {
    /// Reads one question at `offset`, returning it with the offset of what
    /// follows it.
    pub fn from_bytes(bytes: &[u8], offset: usize) -> (r: Result<(Question, usize), ParseError>)
        requires
            offset <= bytes@.len(),
        ensures
            (match r {
                Ok((q, next)) => spec_parse_question(bytes@, offset as int) == Some(
                    (q@, next as int),
                ) && offset <= next <= bytes@.len(),
                Err(e) => e == ParseError::InvalidQuestion && spec_parse_question(
                    bytes@,
                    offset as int,
                ) is None,
            }),
    {
        let w = walk_name(bytes, offset);
        if bytes.len() - w < 5 {
            return Err(ParseError::InvalidQuestion);
        }
        let qname = bytes_range(bytes, offset, w + 1);
        let qtype = read_u16(bytes, w + 1);
        let qclass = read_u16(bytes, w + 3);
        Ok((Question { qname, qtype, qclass }, w + 5))
    }
}

impl ResourceRecord {
    /// Reads one resource record at `offset`, returning it with the offset
    /// of what follows it.
    pub fn from_bytes(bytes: &[u8], offset: usize) -> (r: Result<
        (ResourceRecord, usize),
        ParseError,
    >)
        requires
            offset <= bytes@.len(),
        ensures
            (match r {
                Ok((rr, next)) => spec_parse_rr(bytes@, offset as int) == Some(
                    (rr@, next as int),
                ) && offset <= next <= bytes@.len(),
                Err(e) => e == ParseError::InvalidResourcRecord && spec_parse_rr(
                    bytes@,
                    offset as int,
                ) is None,
            }),
    {
        let w = walk_name(bytes, offset);
        if bytes.len() - w < 11 {
            return Err(ParseError::InvalidResourcRecord);
        }
        let rname = bytes_range(bytes, offset, w + 1);
        let rtype = read_u16(bytes, w + 1);
        let rclass = read_u16(bytes, w + 3);
        let ttl = read_u32(bytes, w + 5);
        let rdlength = read_u16(bytes, w + 9);
        if bytes.len() - (w + 11) < rdlength as usize {
            return Err(ParseError::InvalidResourcRecord);
        }
        let rdata = bytes_range(bytes, w + 11, w + 11 + rdlength as usize);
        Ok((ResourceRecord { rname, rtype, rclass, ttl, rdlength, rdata }, w + 11
            + rdlength as usize))
    }
}

/// The first `n` questions from `off`, each picking up where the previous
/// one ended, with the offset past the last; `None` as soon as one fails.
pub open spec fn spec_parse_questions(bytes: Seq<u8>, off: int, n: int) -> Option<
    (Seq<QuestionView>, int),
>
    decreases n,
{
    if n <= 0 {
        Some((Seq::empty(), off))
    } else {
        match spec_parse_question(bytes, off) {
            None => None,
            Some((q, o2)) => match spec_parse_questions(bytes, o2, n - 1) {
                None => None,
                Some((rest, o3)) => Some((seq![q] + rest, o3)),
            },
        }
    }
}

/// The first `n` resource records from `off`, with the offset past the last;
/// `None` as soon as one fails.
pub open spec fn spec_parse_rrs(bytes: Seq<u8>, off: int, n: int) -> Option<
    (Seq<ResourceRecordView>, int),
>
    decreases n,
{
    if n <= 0 {
        Some((Seq::empty(), off))
    } else {
        match spec_parse_rr(bytes, off) {
            None => None,
            Some((rr, o2)) => match spec_parse_rrs(bytes, o2, n - 1) {
                None => None,
                Some((rest, o3)) => Some((seq![rr] + rest, o3)),
            },
        }
    }
}

fn parse_question_list(bytes: &[u8], offset: usize, count: u16) -> (r: Result<
    (Vec<Question>, usize),
    ParseError,
>)
    requires
        offset <= bytes@.len(),
    ensures
        (match r {
            Ok((v, next)) => spec_parse_questions(bytes@, offset as int, count as int) == Some(
                (v@.map_values(|q: Question| q@), next as int),
            ) && next <= bytes@.len(),
            Err(e) => e == ParseError::InvalidQuestion && spec_parse_questions(
                bytes@,
                offset as int,
                count as int,
            ) is None,
        }),
{
    let mut out: Vec<Question> = Vec::new();
    let mut cur = offset;
    let mut i: u16 = 0;
    while i < count
        invariant
            i <= count,
            cur <= bytes@.len(),
            (match spec_parse_questions(bytes@, cur as int, count - i) {
                Some((rest, e)) => spec_parse_questions(bytes@, offset as int, count as int)
                    == Some((out@.map_values(|q: Question| q@) + rest, e)),
                None => spec_parse_questions(bytes@, offset as int, count as int) is None,
            }),
        decreases count - i,
    {
        let ghost out0 = out@.map_values(|q: Question| q@);
        match Question::from_bytes(bytes, cur) {
            Ok((q, next)) => {
                out.push(q);
                proof {
                    assert(out@.map_values(|q: Question| q@) =~= out0.push(q@));
                    match spec_parse_questions(bytes@, next as int, count - i - 1) {
                        Some((rest2, _)) => {
                            assert(out0 + (seq![q@] + rest2) =~= out0.push(q@) + rest2);
                        },
                        None => {},
                    }
                }
                cur = next;
                i = i + 1;
            },
            Err(e) => {
                return Err(e);
            },
        }
    }
    proof {
        assert(out@.map_values(|q: Question| q@) + Seq::<QuestionView>::empty() =~= out@.map_values(
            |q: Question| q@,
        ));
    }
    Ok((out, cur))
}

fn parse_rr_list(bytes: &[u8], offset: usize, count: u16) -> (r: Result<
    (Vec<ResourceRecord>, usize),
    ParseError,
>)
    requires
        offset <= bytes@.len(),
    ensures
        (match r {
            Ok((v, next)) => spec_parse_rrs(bytes@, offset as int, count as int) == Some(
                (v@.map_values(|rr: ResourceRecord| rr@), next as int),
            ) && next <= bytes@.len(),
            Err(e) => e == ParseError::InvalidResourcRecord && spec_parse_rrs(
                bytes@,
                offset as int,
                count as int,
            ) is None,
        }),
{
    let mut out: Vec<ResourceRecord> = Vec::new();
    let mut cur = offset;
    let mut i: u16 = 0;
    while i < count
        invariant
            i <= count,
            cur <= bytes@.len(),
            (match spec_parse_rrs(bytes@, cur as int, count - i) {
                Some((rest, e)) => spec_parse_rrs(bytes@, offset as int, count as int) == Some(
                    (out@.map_values(|rr: ResourceRecord| rr@) + rest, e),
                ),
                None => spec_parse_rrs(bytes@, offset as int, count as int) is None,
            }),
        decreases count - i,
    {
        let ghost out0 = out@.map_values(|rr: ResourceRecord| rr@);
        match ResourceRecord::from_bytes(bytes, cur) {
            Ok((rr, next)) => {
                out.push(rr);
                proof {
                    assert(out@.map_values(|rr: ResourceRecord| rr@) =~= out0.push(rr@));
                    match spec_parse_rrs(bytes@, next as int, count - i - 1) {
                        Some((rest2, _)) => {
                            assert(out0 + (seq![rr@] + rest2) =~= out0.push(rr@) + rest2);
                        },
                        None => {},
                    }
                }
                cur = next;
                i = i + 1;
            },
            Err(e) => {
                return Err(e);
            },
        }
    }
    proof {
        assert(out@.map_values(|rr: ResourceRecord| rr@) + Seq::<ResourceRecordView>::empty()
            =~= out@.map_values(|rr: ResourceRecord| rr@));
    }
    Ok((out, cur))
}

// ---------------------------------------------------------------------------
// The message.
// ---------------------------------------------------------------------------

/// A whole DNS message: the header and the four sections.
#[derive(Debug, PartialEq, Eq)]
pub struct Message {
    pub header: Header,
    pub questions: Vec<Question>,
    pub answers: Vec<ResourceRecord>,
    pub authorities: Vec<ResourceRecord>,
    pub additionals: Vec<ResourceRecord>,
}

pub ghost struct MessageView {
    pub header: Header,
    pub questions: Seq<QuestionView>,
    pub answers: Seq<ResourceRecordView>,
    pub authorities: Seq<ResourceRecordView>,
    pub additionals: Seq<ResourceRecordView>,
}

impl View for Message {
    type V = MessageView;

    open spec fn view(&self) -> MessageView {
        MessageView {
            header: self.header,
            questions: self.questions@.map_values(|q: Question| q@),
            answers: self.answers@.map_values(|rr: ResourceRecord| rr@),
            authorities: self.authorities@.map_values(|rr: ResourceRecord| rr@),
            additionals: self.additionals@.map_values(|rr: ResourceRecord| rr@),
        }
    }
}

/// The message that `bytes` parses to: the header, then each section with
/// exactly as many entries as its count field says.
pub open spec fn spec_parse_message(bytes: Seq<u8>) -> Result<MessageView, ParseError> {
    if bytes.len() < 12 {
        Err(ParseError::InvalidHeader)
    } else {
        let h = spec_parse_header(bytes);
        match spec_parse_questions(bytes, 12, h.qdcount as int) {
            None => Err(ParseError::InvalidQuestion),
            Some((qs, o1)) => match spec_parse_rrs(bytes, o1, h.ancount as int) {
                None => Err(ParseError::InvalidResourcRecord),
                Some((ans, o2)) => match spec_parse_rrs(bytes, o2, h.nscount as int) {
                    None => Err(ParseError::InvalidResourcRecord),
                    Some((auth, o3)) => match spec_parse_rrs(bytes, o3, h.arcount as int) {
                        None => Err(ParseError::InvalidResourcRecord),
                        Some((add, _)) => Ok(
                            MessageView {
                                header: h,
                                questions: qs,
                                answers: ans,
                                authorities: auth,
                                additionals: add,
                            },
                        ),
                    },
                },
            },
        }
    }
}

/// A freshly built query: the given id, no flag bits set, and one A/IN
/// question for the wire-form name.
pub open spec fn spec_query_message(id: u16, qname: Seq<u8>) -> MessageView {
    MessageView {
        header: Header {
            id,
            flags: spec_make_flags(false, false, false, false, 0),
            qdcount: 1,
            ancount: 0,
            nscount: 0,
            arcount: 0,
        },
        questions: seq![QuestionView { qname, qtype: 1, qclass: 1 }],
        answers: Seq::empty(),
        authorities: Seq::empty(),
        additionals: Seq::empty(),
    }
}

/// What a response is, by its counts: answers present, a delegation, or
/// nothing usable.
#[derive(Debug, Clone, Copy, PartialEq, Eq, Structural)]
pub enum ResponseType {
    Answer,
    Delegation,
    Error,
}

impl Message {
    /// A query for the wire-form name in `domain`: single A/IN question,
    /// no recursion requested.
    pub fn new(id: u16, domain: &[u8]) -> (m: Message)
        ensures
            m@ == spec_query_message(id, domain@),
    {
        let qname = bytes_range(domain, 0, domain.len());
        proof {
            assert(qname@ =~= domain@);
        }
        let mut questions: Vec<Question> = Vec::new();
        questions.push(Question { qname, qtype: 1, qclass: 1 });
        let m = Message {
            header: Header::new(id, false, false, false, false, 0),
            questions,
            answers: Vec::new(),
            authorities: Vec::new(),
            additionals: Vec::new(),
        };
        proof {
            assert(m@.questions =~= spec_query_message(id, domain@).questions);
            assert(m@.answers =~= Seq::<ResourceRecordView>::empty());
            assert(m@.authorities =~= Seq::<ResourceRecordView>::empty());
            assert(m@.additionals =~= Seq::<ResourceRecordView>::empty());
        }
        m
    }

    pub fn get_id(&self) -> (r: u16)
        ensures
            r == self.header.id,
    {
        self.header.id
    }

    pub fn get_ancount(&self) -> (r: u16)
        ensures
            r == self.header.ancount,
    {
        self.header.ancount
    }

    pub fn get_nscount(&self) -> (r: u16)
        ensures
            r == self.header.nscount,
    {
        self.header.nscount
    }

    pub fn get_arcount(&self) -> (r: u16)
        ensures
            r == self.header.arcount,
    {
        self.header.arcount
    }

    /// Accepts this response for `request`: the RCODE must be benign and the
    /// ids must match, in that order of checking.
    pub fn check_error_response(&self, request: &Message) -> (r: Result<(), DnsError>)
        ensures
            (match spec_rcode_check(self.header.flags) {
                Err(e) => r == Err::<(), DnsError>(DnsError::ResponseCodeError(e)),
                Ok(_) => if self.header.id == request.header.id {
                    r == Ok::<(), DnsError>(())
                } else {
                    r == Err::<(), DnsError>(DnsError::InvalidResponseID)
                },
            }),
    {
        match self.header.check_error() {
            Err(e) => Err(DnsError::ResponseCodeError(e)),
            Ok(_) => {
                if self.header.id == request.header.id {
                    Ok(())
                } else {
                    Err(DnsError::InvalidResponseID)
                }
            },
        }
    }

    /// Replaces the query id with a fresh random one; nothing else moves.
    pub fn new_id(&mut self)
        ensures
            final(self)@ == (MessageView {
                header: Header { id: final(self).header.id, ..old(self).header },
                ..old(self)@
            }),
    {
        self.header.id = fresh_id();
    }

    /// Steps the query id by one, wrapping around at the top; nothing else
    /// moves.
    pub fn inc(&mut self)
        ensures
            final(self)@ == (MessageView {
                header: Header {
                    id: ((old(self).header.id + 1) % 0x1_0000) as u16,
                    ..old(self).header
                },
                ..old(self)@
            }),
    {
        if self.header.id == 0xFFFF {
            self.header.id = 0;
        } else {
            self.header.id = self.header.id + 1;
        }
    }

    /// Classifies by the count fields: any answer wins, else any authority
    /// makes a delegation, else the response is unusable.
    pub fn get_type(&self) -> (r: ResponseType)
        ensures
            r == ResponseType::Answer <==> self.header.ancount > 0,
            r == ResponseType::Delegation <==> (self.header.ancount == 0 && self.header.nscount
                > 0),
            r == ResponseType::Error <==> (self.header.ancount == 0 && self.header.nscount == 0),
    {
        if self.header.ancount > 0 {
            return ResponseType::Answer;
        }
        if self.header.nscount > 0 {
            return ResponseType::Delegation;
        }
        ResponseType::Error
    }

    /// Whether any answer record is a CNAME.
    pub fn is_cname(&self) -> (r: bool)
        ensures
            r == exists|i: int| 0 <= i < self@.answers.len() && self@.answers[i].rtype == 5,
    {
        let mut i: usize = 0;
        while i < self.answers.len()
            invariant
                i <= self@.answers.len(),
                self@.answers.len() == self.answers@.len(),
                forall|k: int| 0 <= k < i ==> self@.answers[k].rtype != 5,
            decreases self.answers@.len() - i,
        {
            if self.answers[i].rtype == 5 {
                proof {
                    assert(self@.answers[i as int].rtype == 5);
                }
                return true;
            }
            i = i + 1;
        }
        false
    }

    /// Parses a whole message: header, questions, then the three record
    /// sections back to back.
    pub fn from_bytes(bytes: &[u8]) -> (r: Result<Message, ParseError>)
        ensures
            (match r {
                Ok(m) => spec_parse_message(bytes@) == Ok::<MessageView, ParseError>(m@),
                Err(e) => spec_parse_message(bytes@) == Err::<MessageView, ParseError>(e),
            }),
    {
        let header = match Header::from_bytes(bytes) {
            Ok(h) => h,
            Err(e) => {
                return Err(e);
            },
        };
        let (questions, o1) = match parse_question_list(bytes, 12, header.qdcount) {
            Ok(p) => p,
            Err(e) => {
                return Err(e);
            },
        };
        let (answers, o2) = match parse_rr_list(bytes, o1, header.ancount) {
            Ok(p) => p,
            Err(e) => {
                return Err(e);
            },
        };
        let (authorities, o3) = match parse_rr_list(bytes, o2, header.nscount) {
            Ok(p) => p,
            Err(e) => {
                return Err(e);
            },
        };
        let (additionals, _) = match parse_rr_list(bytes, o3, header.arcount) {
            Ok(p) => p,
            Err(e) => {
                return Err(e);
            },
        };
        Ok(Message { header, questions, answers, authorities, additionals })
    }
}

// ---------------------------------------------------------------------------
// Extraction over a parsed message and the original bytes. Record data may
// hold compression pointers, so names are resolved against the whole
// message.
// ---------------------------------------------------------------------------

/// The decoded targets of the CNAME records among `rrs`, in order; the first
/// name that fails to decode fails the whole extraction.
pub open spec fn spec_cname_list(rrs: Seq<ResourceRecordView>, msg: Seq<u8>) -> Result<
    Seq<Seq<Seq<u8>>>,
    ParseError,
>
    decreases rrs.len(),
{
    if rrs.len() == 0 {
        Ok(Seq::empty())
    } else if rrs[0].rtype != 5 {
        spec_cname_list(rrs.drop_first(), msg)
    } else {
        match spec_decompress(rrs[0].rdata, msg, MAX_POINTER_HOPS as nat) {
            Err(e) => Err(e),
            Ok(name) => match spec_cname_list(rrs.drop_first(), msg) {
                Err(e) => Err(e),
                Ok(rest) => Ok(seq![name] + rest),
            },
        }
    }
}

/// A server per record: the decoded owner name paired with the address its
/// data holds, when it holds one.
pub open spec fn spec_server_list(rrs: Seq<ResourceRecordView>, msg: Seq<u8>) -> Result<
    Seq<ServerInfoView>,
    ParseError,
>
    decreases rrs.len(),
{
    if rrs.len() == 0 {
        Ok(Seq::empty())
    } else {
        match spec_decompress(rrs[0].rname, msg, MAX_POINTER_HOPS as nat) {
            Err(e) => Err(e),
            Ok(nm) => match spec_server_list(rrs.drop_first(), msg) {
                Err(e) => Err(e),
                Ok(rest) => Ok(
                    seq![ServerInfoView { name: nm, ip: spec_bytes_to_ip(rrs[0].rdata) }] + rest,
                ),
            },
        }
    }
}

/// The nameserver names decoded from the data of each record.
pub open spec fn spec_authority_list(rrs: Seq<ResourceRecordView>, msg: Seq<u8>) -> Result<
    Seq<Seq<Seq<u8>>>,
    ParseError,
>
    decreases rrs.len(),
{
    if rrs.len() == 0 {
        Ok(Seq::empty())
    } else {
        match spec_decompress(rrs[0].rdata, msg, MAX_POINTER_HOPS as nat) {
            Err(e) => Err(e),
            Ok(nm) => match spec_authority_list(rrs.drop_first(), msg) {
                Err(e) => Err(e),
                Ok(rest) => Ok(seq![nm] + rest),
            },
        }
    }
}

/// The addresses held by the A and AAAA records among `rrs`, in order;
/// record data of any other length is passed over.
pub open spec fn spec_answer_ip_list(rrs: Seq<ResourceRecordView>) -> Seq<IpAddress>
    decreases rrs.len(),
{
    if rrs.len() == 0 {
        Seq::empty()
    } else {
        let rest = spec_answer_ip_list(rrs.drop_first());
        if (rrs[0].rtype == 1 || rrs[0].rtype == 28) && spec_bytes_to_ip(rrs[0].rdata) is Some {
            seq![spec_bytes_to_ip(rrs[0].rdata)->Some_0] + rest
        } else {
            rest
        }
    }
}

impl Message {
    /// The decoded targets of the CNAME answers, in answer order.
    pub fn get_cnames(&self, bytes: &[u8]) -> (r: Result<Vec<CompressedName>, ParseError>)
        ensures
            (match spec_cname_list(self@.answers, bytes@) {
                Ok(l) => r matches Ok(v) && v@.map_values(|c: CompressedName| c@) == l,
                Err(e) => r matches Err(e2) && e2 == e,
            }),
    {
        let mut out: Vec<CompressedName> = Vec::new();
        let mut i: usize = 0;
        proof {
            assert(self@.answers.skip(0) =~= self@.answers);
            match spec_cname_list(self@.answers, bytes@) {
                Ok(rest) => {
                    assert(out@.map_values(|c: CompressedName| c@) + rest =~= rest);
                },
                Err(_) => {},
            }
        }
        while i < self.answers.len()
            invariant
                i <= self.answers@.len(),
                self@.answers.len() == self.answers@.len(),
                (match spec_cname_list(self@.answers.skip(i as int), bytes@) {
                    Ok(rest) => spec_cname_list(self@.answers, bytes@) == Ok::<
                        Seq<Seq<Seq<u8>>>,
                        ParseError,
                    >(out@.map_values(|c: CompressedName| c@) + rest),
                    Err(e) => spec_cname_list(self@.answers, bytes@) == Err::<
                        Seq<Seq<Seq<u8>>>,
                        ParseError,
                    >(e),
                }),
            decreases self.answers@.len() - i,
        {
            let ghost out0 = out@.map_values(|c: CompressedName| c@);
            proof {
                assert(self@.answers.skip(i as int).drop_first() =~= self@.answers.skip(i + 1));
                assert(self@.answers.skip(i as int)[0] == self@.answers[i as int]);
            }
            let rr = &self.answers[i];
            if rr.rtype == 5 {
                match decompress(rr.rdata.as_slice(), bytes) {
                    Ok(name) => {
                        proof {
                            match spec_cname_list(self@.answers.skip(i + 1), bytes@) {
                                Ok(rest2) => {
                                    assert(out0 + (seq![name@] + rest2) =~= out0.push(name@)
                                        + rest2);
                                },
                                Err(_) => {},
                            }
                        }
                        out.push(name);
                        proof {
                            assert(out@.map_values(|c: CompressedName| c@) =~= out0.push(name@));
                        }
                    },
                    Err(e) => {
                        return Err(e);
                    },
                }
            }
            i = i + 1;
        }
        proof {
            assert(self@.answers.skip(i as int) =~= Seq::<ResourceRecordView>::empty());
            assert(out@.map_values(|c: CompressedName| c@) + Seq::<Seq<Seq<u8>>>::empty()
                =~= out@.map_values(|c: CompressedName| c@));
        }
        Ok(out)
    }

    /// The glue servers of the additional section: each record's decoded
    /// owner name with the address read from its data.
    pub fn get_additional_info(&self, bytes: &[u8]) -> (r: Result<Vec<ServerInfo>, ParseError>)
        ensures
            (match spec_server_list(self@.additionals, bytes@) {
                Ok(l) => r matches Ok(v) && v@.map_values(|s: ServerInfo| s@) == l,
                Err(e) => r matches Err(e2) && e2 == e,
            }),
    {
        let mut out: Vec<ServerInfo> = Vec::new();
        let mut i: usize = 0;
        proof {
            assert(self@.additionals.skip(0) =~= self@.additionals);
            match spec_server_list(self@.additionals, bytes@) {
                Ok(rest) => {
                    assert(out@.map_values(|s: ServerInfo| s@) + rest =~= rest);
                },
                Err(_) => {},
            }
        }
        while i < self.additionals.len()
            invariant
                i <= self.additionals@.len(),
                self@.additionals.len() == self.additionals@.len(),
                (match spec_server_list(self@.additionals.skip(i as int), bytes@) {
                    Ok(rest) => spec_server_list(self@.additionals, bytes@) == Ok::<
                        Seq<ServerInfoView>,
                        ParseError,
                    >(out@.map_values(|s: ServerInfo| s@) + rest),
                    Err(e) => spec_server_list(self@.additionals, bytes@) == Err::<
                        Seq<ServerInfoView>,
                        ParseError,
                    >(e),
                }),
            decreases self.additionals@.len() - i,
        {
            let ghost out0 = out@.map_values(|s: ServerInfo| s@);
            proof {
                assert(self@.additionals.skip(i as int).drop_first() =~= self@.additionals.skip(
                    i + 1,
                ));
                assert(self@.additionals.skip(i as int)[0] == self@.additionals[i as int]);
            }
            let rr = &self.additionals[i];
            match decompress(rr.rname.as_slice(), bytes) {
                Ok(name) => {
                    let ip = bytes_to_ip(rr.rdata.as_slice());
                    let info = ServerInfo { name, ip };
                    proof {
                        match spec_server_list(self@.additionals.skip(i + 1), bytes@) {
                            Ok(rest2) => {
                                assert(out0 + (seq![info@] + rest2) =~= out0.push(info@) + rest2);
                            },
                            Err(_) => {},
                        }
                    }
                    out.push(info);
                    proof {
                        assert(out@.map_values(|s: ServerInfo| s@) =~= out0.push(info@));
                    }
                },
                Err(e) => {
                    return Err(e);
                },
            }
            i = i + 1;
        }
        proof {
            assert(self@.additionals.skip(i as int) =~= Seq::<ResourceRecordView>::empty());
            assert(out@.map_values(|s: ServerInfo| s@) + Seq::<ServerInfoView>::empty()
                =~= out@.map_values(|s: ServerInfo| s@));
        }
        Ok(out)
    }

    /// The nameserver names decoded from the authority records' data.
    pub fn get_authorities_info(&self, bytes: &[u8]) -> (r: Result<Vec<CompressedName>, ParseError>)
        ensures
            (match spec_authority_list(self@.authorities, bytes@) {
                Ok(l) => r matches Ok(v) && v@.map_values(|c: CompressedName| c@) == l,
                Err(e) => r matches Err(e2) && e2 == e,
            }),
    {
        let mut out: Vec<CompressedName> = Vec::new();
        let mut i: usize = 0;
        proof {
            assert(self@.authorities.skip(0) =~= self@.authorities);
            match spec_authority_list(self@.authorities, bytes@) {
                Ok(rest) => {
                    assert(out@.map_values(|c: CompressedName| c@) + rest =~= rest);
                },
                Err(_) => {},
            }
        }
        while i < self.authorities.len()
            invariant
                i <= self.authorities@.len(),
                self@.authorities.len() == self.authorities@.len(),
                (match spec_authority_list(self@.authorities.skip(i as int), bytes@) {
                    Ok(rest) => spec_authority_list(self@.authorities, bytes@) == Ok::<
                        Seq<Seq<Seq<u8>>>,
                        ParseError,
                    >(out@.map_values(|c: CompressedName| c@) + rest),
                    Err(e) => spec_authority_list(self@.authorities, bytes@) == Err::<
                        Seq<Seq<Seq<u8>>>,
                        ParseError,
                    >(e),
                }),
            decreases self.authorities@.len() - i,
        {
            let ghost out0 = out@.map_values(|c: CompressedName| c@);
            proof {
                assert(self@.authorities.skip(i as int).drop_first() =~= self@.authorities.skip(
                    i + 1,
                ));
                assert(self@.authorities.skip(i as int)[0] == self@.authorities[i as int]);
            }
            let rr = &self.authorities[i];
            match decompress(rr.rdata.as_slice(), bytes) {
                Ok(name) => {
                    proof {
                        match spec_authority_list(self@.authorities.skip(i + 1), bytes@) {
                            Ok(rest2) => {
                                assert(out0 + (seq![name@] + rest2) =~= out0.push(name@) + rest2);
                            },
                            Err(_) => {},
                        }
                    }
                    out.push(name);
                    proof {
                        assert(out@.map_values(|c: CompressedName| c@) =~= out0.push(name@));
                    }
                },
                Err(e) => {
                    return Err(e);
                },
            }
            i = i + 1;
        }
        proof {
            assert(self@.authorities.skip(i as int) =~= Seq::<ResourceRecordView>::empty());
            assert(out@.map_values(|c: CompressedName| c@) + Seq::<Seq<Seq<u8>>>::empty()
                =~= out@.map_values(|c: CompressedName| c@));
        }
        Ok(out)
    }

    /// The addresses in the answer section's A and AAAA records, in order.
    pub fn get_answer_ips(&self) -> (r: Vec<IpAddress>)
        ensures
            r@ == spec_answer_ip_list(self@.answers),
    {
        let mut out: Vec<IpAddress> = Vec::new();
        let mut i: usize = 0;
        proof {
            assert(self@.answers.skip(0) =~= self@.answers);
            assert(out@ + spec_answer_ip_list(self@.answers) =~= spec_answer_ip_list(
                self@.answers,
            ));
        }
        while i < self.answers.len()
            invariant
                i <= self.answers@.len(),
                self@.answers.len() == self.answers@.len(),
                spec_answer_ip_list(self@.answers) == out@ + spec_answer_ip_list(
                    self@.answers.skip(i as int),
                ),
            decreases self.answers@.len() - i,
        {
            let ghost out0 = out@;
            proof {
                assert(self@.answers.skip(i as int).drop_first() =~= self@.answers.skip(i + 1));
                assert(self@.answers.skip(i as int)[0] == self@.answers[i as int]);
            }
            let rr = &self.answers[i];
            if rr.rtype == 1 || rr.rtype == 28 {
                if let Some(ip) = bytes_to_ip(rr.rdata.as_slice()) {
                    proof {
                        assert(out0 + (seq![ip] + spec_answer_ip_list(self@.answers.skip(i + 1)))
                            =~= out0.push(ip) + spec_answer_ip_list(self@.answers.skip(i + 1)));
                    }
                    out.push(ip);
                }
            }
            i = i + 1;
        }
        proof {
            assert(self@.answers.skip(i as int) =~= Seq::<ResourceRecordView>::empty());
            assert(out@ + Seq::<IpAddress>::empty() =~= out@);
        }
        out
    }
}

/// Draws a random query id.
///
/// Relies on `rand::random`: an id sampled from the thread-local generator.
/// Nothing is promised of the value.
#[verifier::external_body]
fn fresh_id() -> u16 {
    rand::random::<u16>()
}

// ---------------------------------------------------------------------------
// Serialization. Outgoing messages never use name compression: queries are
// small and save nothing by it.
// ---------------------------------------------------------------------------

/// The 12 bytes of a header on the wire.
pub open spec fn spec_header_wire(h: Header) -> Seq<u8> {
    spec_u16_bytes(h.id) + spec_u16_bytes(h.flags) + spec_u16_bytes(h.qdcount) + spec_u16_bytes(
        h.ancount,
    ) + spec_u16_bytes(h.nscount) + spec_u16_bytes(h.arcount)
}

/// A question on the wire: the name bytes as held, then type and class.
pub open spec fn spec_question_wire(q: QuestionView) -> Seq<u8> {
    q.qname + spec_u16_bytes(q.qtype) + spec_u16_bytes(q.qclass)
}

/// A record on the wire: the name bytes as held, the fixed fields, then the
/// data.
pub open spec fn spec_rr_wire(rr: ResourceRecordView) -> Seq<u8> {
    rr.rname + spec_u16_bytes(rr.rtype) + spec_u16_bytes(rr.rclass) + spec_u32_bytes(rr.ttl)
        + spec_u16_bytes(rr.rdlength) + rr.rdata
}

/// All questions laid end to end.
pub open spec fn spec_questions_wire(qs: Seq<QuestionView>) -> Seq<u8>
    decreases qs.len(),
{
    if qs.len() == 0 {
        Seq::empty()
    } else {
        spec_question_wire(qs[0]) + spec_questions_wire(qs.drop_first())
    }
}

/// All records of one section laid end to end.
pub open spec fn spec_rrs_wire(rrs: Seq<ResourceRecordView>) -> Seq<u8>
    decreases rrs.len(),
{
    if rrs.len() == 0 {
        Seq::empty()
    } else {
        spec_rr_wire(rrs[0]) + spec_rrs_wire(rrs.drop_first())
    }
}

/// A whole message on the wire: header, then the four sections in order.
pub open spec fn spec_message_wire(m: MessageView) -> Seq<u8> {
    spec_header_wire(m.header) + spec_questions_wire(m.questions) + spec_rrs_wire(m.answers)
        + spec_rrs_wire(m.authorities) + spec_rrs_wire(m.additionals)
}

proof fn lemma_questions_wire_push(qs: Seq<QuestionView>, q: QuestionView)
    ensures
        spec_questions_wire(qs.push(q)) == spec_questions_wire(qs) + spec_question_wire(q),
    decreases qs.len(),
{
    if qs.len() == 0 {
        assert(qs.push(q)[0] == q);
        assert(qs.push(q).drop_first() =~= Seq::<QuestionView>::empty());
        assert(spec_questions_wire(qs.push(q).drop_first()) == spec_questions_wire(
            Seq::<QuestionView>::empty(),
        ));
        assert(spec_questions_wire(Seq::<QuestionView>::empty()) == Seq::<u8>::empty());
        assert(spec_questions_wire(qs.push(q)) == spec_question_wire(q) + Seq::<u8>::empty());
        assert(spec_questions_wire(qs.push(q)) =~= spec_questions_wire(qs) + spec_question_wire(
            q,
        ));
    } else {
        assert(qs.push(q)[0] == qs[0]);
        assert(qs.push(q).drop_first() =~= qs.drop_first().push(q));
        lemma_questions_wire_push(qs.drop_first(), q);
        assert(spec_questions_wire(qs.push(q)) =~= spec_questions_wire(qs) + spec_question_wire(
            q,
        ));
    }
}

proof fn lemma_rrs_wire_push(rrs: Seq<ResourceRecordView>, rr: ResourceRecordView)
    ensures
        spec_rrs_wire(rrs.push(rr)) == spec_rrs_wire(rrs) + spec_rr_wire(rr),
    decreases rrs.len(),
{
    if rrs.len() == 0 {
        assert(rrs.push(rr)[0] == rr);
        assert(rrs.push(rr).drop_first() =~= Seq::<ResourceRecordView>::empty());
        assert(spec_rrs_wire(rrs.push(rr).drop_first()) == spec_rrs_wire(
            Seq::<ResourceRecordView>::empty(),
        ));
        assert(spec_rrs_wire(Seq::<ResourceRecordView>::empty()) == Seq::<u8>::empty());
        assert(spec_rrs_wire(rrs.push(rr)) == spec_rr_wire(rr) + Seq::<u8>::empty());
        assert(spec_rrs_wire(rrs.push(rr)) =~= spec_rrs_wire(rrs) + spec_rr_wire(rr));
    } else {
        assert(rrs.push(rr)[0] == rrs[0]);
        assert(rrs.push(rr).drop_first() =~= rrs.drop_first().push(rr));
        lemma_rrs_wire_push(rrs.drop_first(), rr);
        assert(spec_rrs_wire(rrs.push(rr)) =~= spec_rrs_wire(rrs) + spec_rr_wire(rr));
    }
}

/// Anything that can append its wire form to a buffer.
pub trait Encodable {
    /// The bytes this value puts on the wire.
    spec fn wire(&self) -> Seq<u8>;

    /// Appends exactly those bytes to `buf`.
    fn encode(&self, buf: &mut Vec<u8>)
        ensures
            final(buf)@ == old(buf)@ + self.wire(),
    ;
}

impl Encodable for Header {
    open spec fn wire(&self) -> Seq<u8> {
        spec_header_wire(*self)
    }

    fn encode(&self, buf: &mut Vec<u8>) {
        push_u16(buf, self.id);
        push_u16(buf, self.flags);
        push_u16(buf, self.qdcount);
        push_u16(buf, self.ancount);
        push_u16(buf, self.nscount);
        push_u16(buf, self.arcount);
        proof {
            assert(buf@ =~= old(buf)@ + spec_header_wire(*self));
        }
    }
}

impl Encodable for Question {
    open spec fn wire(&self) -> Seq<u8> {
        spec_question_wire(self@)
    }

    fn encode(&self, buf: &mut Vec<u8>) {
        buf.extend_from_slice(self.qname.as_slice());
        push_u16(buf, self.qtype);
        push_u16(buf, self.qclass);
        proof {
            assert(buf@ =~= old(buf)@ + spec_question_wire(self@));
        }
    }
}

impl Encodable for ResourceRecord {
    open spec fn wire(&self) -> Seq<u8> {
        spec_rr_wire(self@)
    }

    fn encode(&self, buf: &mut Vec<u8>) {
        buf.extend_from_slice(self.rname.as_slice());
        push_u16(buf, self.rtype);
        push_u16(buf, self.rclass);
        push_u32(buf, self.ttl);
        push_u16(buf, self.rdlength);
        buf.extend_from_slice(self.rdata.as_slice());
        proof {
            assert(buf@ =~= old(buf)@ + spec_rr_wire(self@));
        }
    }
}

fn encode_rr_section(rrs: &Vec<ResourceRecord>, buf: &mut Vec<u8>)
    ensures
        final(buf)@ == old(buf)@ + spec_rrs_wire(rrs@.map_values(|rr: ResourceRecord| rr@)),
{
    let ghost buf0 = buf@;
    let mut i: usize = 0;
    proof {
        assert(rrs@.subrange(0, 0).map_values(|rr: ResourceRecord| rr@)
            =~= Seq::<ResourceRecordView>::empty());
        assert(buf@ =~= buf0 + spec_rrs_wire(Seq::<ResourceRecordView>::empty()));
    }
    while i < rrs.len()
        invariant
            i <= rrs@.len(),
            buf@ == buf0 + spec_rrs_wire(rrs@.subrange(0, i as int).map_values(
                |rr: ResourceRecord| rr@,
            )),
        decreases rrs@.len() - i,
    {
        rrs[i].encode(buf);
        i = i + 1;
        proof {
            let pre = rrs@.subrange(0, i - 1).map_values(|rr: ResourceRecord| rr@);
            assert(rrs@.subrange(0, i as int).map_values(|rr: ResourceRecord| rr@) =~= pre.push(
                rrs@[i - 1]@,
            ));
            lemma_rrs_wire_push(pre, rrs@[i - 1]@);
            assert(buf@ =~= buf0 + spec_rrs_wire(rrs@.subrange(0, i as int).map_values(
                |rr: ResourceRecord| rr@,
            )));
        }
    }
    proof {
        assert(rrs@.subrange(0, rrs@.len() as int) =~= rrs@);
    }
}

impl Encodable for Message {
    open spec fn wire(&self) -> Seq<u8> {
        spec_message_wire(self@)
    }

    fn encode(&self, buf: &mut Vec<u8>) {
        let ghost buf0 = buf@;
        self.header.encode(buf);
        let ghost buf1 = buf@;
        let mut i: usize = 0;
        proof {
            assert(self.questions@.subrange(0, 0).map_values(|q: Question| q@)
                =~= Seq::<QuestionView>::empty());
            assert(buf@ =~= buf1 + spec_questions_wire(Seq::<QuestionView>::empty()));
        }
        while i < self.questions.len()
            invariant
                i <= self.questions@.len(),
                buf@ == buf1 + spec_questions_wire(self.questions@.subrange(0, i as int).map_values(
                    |q: Question| q@,
                )),
            decreases self.questions@.len() - i,
        {
            self.questions[i].encode(buf);
            i = i + 1;
            proof {
                let pre = self.questions@.subrange(0, i - 1).map_values(|q: Question| q@);
                assert(self.questions@.subrange(0, i as int).map_values(|q: Question| q@)
                    =~= pre.push(self.questions@[i - 1]@));
                lemma_questions_wire_push(pre, self.questions@[i - 1]@);
                assert(buf@ =~= buf1 + spec_questions_wire(
                    self.questions@.subrange(0, i as int).map_values(|q: Question| q@),
                ));
            }
        }
        proof {
            assert(self.questions@.subrange(0, self.questions@.len() as int)
                =~= self.questions@);
        }
        encode_rr_section(&self.answers, buf);
        encode_rr_section(&self.authorities, buf);
        encode_rr_section(&self.additionals, buf);
        proof {
            assert(buf@ =~= buf0 + spec_message_wire(self@));
        }
    }
}

// ---------------------------------------------------------------------------
// Response validation over raw bytes.
// ---------------------------------------------------------------------------

/// What `error_in_message` decides, in order: enough bytes for a header, the
/// id matches, the RCODE is benign, and at least one answer or authority
/// record is announced.
pub open spec fn spec_check_response(id: u16, bytes: Seq<u8>) -> Result<(), DnsError> {
    if bytes.len() < 12 {
        Err(DnsError::ParsingError(ParseError::InvalidHeader))
    } else {
        let resp_id = spec_u16_of(bytes[0], bytes[1]);
        let flags = spec_u16_of(bytes[2], bytes[3]);
        let ancount = spec_u16_of(bytes[6], bytes[7]);
        let nscount = spec_u16_of(bytes[8], bytes[9]);
        if id != resp_id {
            Err(DnsError::InvalidResponseID)
        } else {
            match spec_rcode_check(flags) {
                Err(e) => Err(DnsError::ResponseCodeError(e)),
                Ok(_) => if ancount == 0 && nscount == 0 {
                    Err(DnsError::InvalidFormat)
                } else {
                    Ok(())
                },
            }
        }
    }
}

/// Judges raw response bytes for the query with `id`, without a full parse:
/// header length, id match, RCODE, and non-empty answer or authority counts.
pub fn error_in_message(id: u16, bytes: &[u8]) -> (r: Result<(), DnsError>)
    ensures
        r == spec_check_response(id, bytes@),
{
    if bytes.len() < 12 {
        return Err(DnsError::ParsingError(ParseError::InvalidHeader));
    }
    let resp_id = read_u16(bytes, 0);
    let flags = read_u16(bytes, 2);
    let ancount = read_u16(bytes, 6);
    let nscount = read_u16(bytes, 8);

    if id != resp_id {
        return Err(DnsError::InvalidResponseID);
    }
    let rc = flags & 0xf;
    if rc == 1 {
        return Err(DnsError::ResponseCodeError(ResponseCodeError::FormatError));
    }
    if rc == 2 {
        return Err(DnsError::ResponseCodeError(ResponseCodeError::ServerFailure));
    }
    if rc == 3 {
        return Err(DnsError::ResponseCodeError(ResponseCodeError::NameError));
    }
    if rc == 4 {
        return Err(DnsError::ResponseCodeError(ResponseCodeError::NotImplemented));
    }
    if rc == 5 {
        return Err(DnsError::ResponseCodeError(ResponseCodeError::Refused));
    }
    if ancount == 0 && nscount == 0 {
        return Err(DnsError::InvalidFormat);
    }
    Ok(())
}

/// Parsing what the encoder wrote gives the query back: for any id and any
/// well-formed wire-form name, the serialized query message parses to the
/// very message that was built.
pub proof fn lemma_query_round_trip(id: u16, qname: Seq<u8>)
    requires
        wf_name(qname),
    ensures
        spec_parse_message(spec_message_wire(spec_query_message(id, qname))) == Ok::<
            MessageView,
            ParseError,
        >(spec_query_message(id, qname)),
{
    let m = spec_query_message(id, qname);
    let h = m.header;
    let qv = QuestionView { qname, qtype: 1, qclass: 1 };
    let hw = spec_header_wire(h);
    let qw = spec_question_wire(qv);
    let w = spec_message_wire(m);

    // The wire form is just the header and the single question.
    assert(m.questions[0] == qv);
    assert(m.questions.drop_first() =~= Seq::<QuestionView>::empty());
    assert(spec_questions_wire(m.questions) =~= qw) by {
        assert(spec_questions_wire(Seq::<QuestionView>::empty()) == Seq::<u8>::empty());
        assert(qw + Seq::<u8>::empty() =~= qw);
    }
    assert(spec_rrs_wire(Seq::<ResourceRecordView>::empty()) == Seq::<u8>::empty());
    assert(w =~= hw + qw);
    assert(hw.len() == 12);
    assert(qw.len() == qname.len() + 4);
    let n = qname.len() as int;

    // The twelve header bytes read back as the header that was written.
    assert(w[0] == spec_u16_bytes(h.id)[0] && w[1] == spec_u16_bytes(h.id)[1]);
    assert(w[2] == spec_u16_bytes(h.flags)[0] && w[3] == spec_u16_bytes(h.flags)[1]);
    assert(w[4] == spec_u16_bytes(h.qdcount)[0] && w[5] == spec_u16_bytes(h.qdcount)[1]);
    assert(w[6] == spec_u16_bytes(h.ancount)[0] && w[7] == spec_u16_bytes(h.ancount)[1]);
    assert(w[8] == spec_u16_bytes(h.nscount)[0] && w[9] == spec_u16_bytes(h.nscount)[1]);
    assert(w[10] == spec_u16_bytes(h.arcount)[0] && w[11] == spec_u16_bytes(h.arcount)[1]);
    lemma_u16_round_trip(h.id);
    lemma_u16_round_trip(h.flags);
    lemma_u16_round_trip(h.qdcount);
    lemma_u16_round_trip(h.ancount);
    lemma_u16_round_trip(h.nscount);
    lemma_u16_round_trip(h.arcount);
    assert(spec_parse_header(w) == h);

    // The question name sits right after the header, and the label walk
    // stops on its terminator.
    assert(w.subrange(12, 12 + n) =~= qname);
    lemma_walk_wf_name(w, 12, qname);
    let wend: int = 12 + n - 1;
    assert(name_walk(w, 12) == wend);
    assert(wend + 5 == w.len());

    // Type and class read back as written.
    assert(w[wend + 1] == qw[n] && w[wend + 2] == qw[n + 1]) by {
        assert(qw[n] == spec_u16_bytes(1u16)[0] && qw[n + 1] == spec_u16_bytes(1u16)[1]);
    }
    assert(w[wend + 3] == qw[n + 2] && w[wend + 4] == qw[n + 3]) by {
        assert(qw[n + 2] == spec_u16_bytes(1u16)[0] && qw[n + 3] == spec_u16_bytes(1u16)[1]);
    }
    assert(qw[n] == spec_u16_bytes(1u16)[0] && qw[n + 1] == spec_u16_bytes(1u16)[1]);
    assert(qw[n + 2] == spec_u16_bytes(1u16)[0] && qw[n + 3] == spec_u16_bytes(1u16)[1]);
    lemma_u16_round_trip(1u16);
    assert(w.subrange(12, wend + 1) =~= qname);
    assert(spec_parse_question(w, 12) == Some((qv, w.len() as int)));

    // One question, then three empty record sections.
    assert(spec_parse_questions(w, w.len() as int, 0) == Some(
        (Seq::<QuestionView>::empty(), w.len() as int),
    ));
    assert(seq![qv] + Seq::<QuestionView>::empty() =~= m.questions);
    assert(spec_parse_questions(w, 12, 1) == Some((m.questions, w.len() as int)));
    assert(spec_parse_rrs(w, w.len() as int, 0) == Some(
        (Seq::<ResourceRecordView>::empty(), w.len() as int),
    ));
    assert(spec_parse_message(w) == Ok::<MessageView, ParseError>(m));
}

/// A response at least 12 bytes long whose id matches, whose RCODE is zero,
/// and which announces an answer or an authority record, is accepted.
pub proof fn lemma_valid_response_accepted(id: u16, bytes: Seq<u8>)
    requires
        bytes.len() >= 12,
        spec_u16_of(bytes[0], bytes[1]) == id,
        spec_u16_of(bytes[2], bytes[3]) & 0xf == 0,
        spec_u16_of(bytes[6], bytes[7]) + spec_u16_of(bytes[8], bytes[9]) > 0,
    ensures
        spec_check_response(id, bytes) == Ok::<(), DnsError>(()),
{
}

} // verus!
