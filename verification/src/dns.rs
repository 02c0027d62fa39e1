//! A small codec for DNS over TCP: enough to ask for the A records of a host
//! name and to read the answer.
//!
//! On the wire a message is preceded by two bytes that give its length; the
//! header that follows is six 16-bit fields, all in network byte order.

use crate::numerals::{numeral, push_decimal, push_hex};
use crate::text::{append_chars, first_at, from_chars, lemma_first_at, to_chars, utf8_text};
use vstd::prelude::*;
use vstd::slice::{slice_subrange, slice_to_vec};
use vstd::string::StringSliceAdditionalSpecFns;
use vstd::utf8::{decode_utf8, encode_utf8_decode_utf8, valid_utf8};

verus! {

/// The 16-bit value whose bytes in network order are `upper`, `lower`.
pub open spec fn be16(upper: u8, lower: u8) -> int {
    upper * 256 + lower
}

/// The two bytes of `x` in network order.
pub open spec fn be16_bytes(x: u16) -> Seq<u8> {
    seq![(x / 256) as u8, (x % 256) as u8]
}

/// The 32-bit value whose bytes in network order are those of `bytes`,
/// followed by as many zero bytes as are missing to four.
pub open spec fn be32_padded(bytes: Seq<u8>) -> int {
    let b0: int = if bytes.len() > 0 { bytes[0] as int } else { 0 };
    let b1: int = if bytes.len() > 1 { bytes[1] as int } else { 0 };
    let b2: int = if bytes.len() > 2 { bytes[2] as int } else { 0 };
    let b3: int = if bytes.len() > 3 { bytes[3] as int } else { 0 };
    b0 * 0x100_0000 + b1 * 0x1_0000 + b2 * 0x100 + b3
}

/// Reads two bytes in network order as a 16-bit value.
pub fn u8_to_u16(upper: u8, lower: u8) -> (x: u16)
    ensures
        x == be16(upper, lower),
{
    (upper as u16) * 256 + (lower as u16)
}

/// Reads up to four bytes in network order as a 32-bit value; bytes that are
/// missing to four count as zero bytes at the end.
pub fn u8_to_u32(bytes_slice: &[u8]) -> (x: u32)
    requires
        bytes_slice@.len() <= 4,
    ensures
        x == be32_padded(bytes_slice@),
{
    let n = bytes_slice.len();
    let b0: u32 = if n > 0 { bytes_slice[0] as u32 } else { 0 };
    let b1: u32 = if n > 1 { bytes_slice[1] as u32 } else { 0 };
    let b2: u32 = if n > 2 { bytes_slice[2] as u32 } else { 0 };
    let b3: u32 = if n > 3 { bytes_slice[3] as u32 } else { 0 };
    b0 * 0x100_0000 + b1 * 0x1_0000 + b2 * 0x100 + b3
}

/// Appends the two bytes of `x`, in network order.
fn push_be16(v: &mut Vec<u8>, x: u16)
    ensures
        final(v)@ == old(v)@ + be16_bytes(x),
{
    v.push((x / 256) as u8);
    v.push((x % 256) as u8);
    proof {
        assert(final(v)@ =~= old(v)@ + be16_bytes(x));
    }
}

/// The header of a DNS message.
#[derive(Clone, Copy, Debug, PartialEq, Eq, Structural)]
pub struct Header {
    /// Identifies the request; the answer repeats it.
    pub identification: u16,
    /// The flags and codes of the second row of the header, packed.
    pub packed_second_row: u16,
    /// Number of questions.
    pub qdcount: u16,
    /// Number of answers.
    pub ancount: u16,
    /// Number of name server records.
    pub nscount: u16,
    /// Number of additional records.
    pub arcount: u16,
}

/// The second row of the header of an answer that can be used: a response to
/// a standard query, recursion desired and available, no error.
pub const GOOD_RESPONSE_FLAGS: u16 = 0x8180;

/// Number of bytes of a header on the wire, without the length prefix.
pub const HEADER_LEN: usize = 12;

impl Header {
    /// The header on the wire, after a length prefix that says 51: whoever
    /// completes the message sets the prefix to its true length.
    pub open spec fn wire(self) -> Seq<u8> {
        seq![0x00u8, 0x33u8] + be16_bytes(self.identification) + be16_bytes(
            self.packed_second_row,
        ) + be16_bytes(self.qdcount) + be16_bytes(self.ancount) + be16_bytes(self.nscount)
            + be16_bytes(self.arcount)
    }

    /// `bytes` begins with the header of a usable answer.
    pub open spec fn readable(bytes: Seq<u8>) -> bool {
        bytes.len() >= HEADER_LEN && be16(bytes[2], bytes[3]) == GOOD_RESPONSE_FLAGS
    }

    /// The header that `bytes` begins with.
    pub open spec fn read(bytes: Seq<u8>) -> Header {
        Header {
            identification: be16(bytes[0], bytes[1]) as u16,
            packed_second_row: be16(bytes[2], bytes[3]) as u16,
            qdcount: be16(bytes[4], bytes[5]) as u16,
            ancount: be16(bytes[6], bytes[7]) as u16,
            nscount: be16(bytes[8], bytes[9]) as u16,
            arcount: be16(bytes[10], bytes[11]) as u16,
        }
    }

    /// The header as bytes to send: a length prefix of two bytes, then the
    /// six fields.
    pub fn as_bytes(&self) -> (v: Vec<u8>)
        ensures
            v@ == self.wire(),
            v@.len() == 14,
    {
        let mut v: Vec<u8> = Vec::with_capacity(14);
        v.push(0x00);
        v.push(0x33);
        assert(v@ =~= seq![0x00u8, 0x33u8]);
        push_be16(&mut v, self.identification);
        push_be16(&mut v, self.packed_second_row);
        push_be16(&mut v, self.qdcount);
        push_be16(&mut v, self.ancount);
        push_be16(&mut v, self.nscount);
        push_be16(&mut v, self.arcount);
        v
    }

    /// Reads the header that `bytes` begins with. There is none if `bytes` is
    /// shorter than a header or the second row is not that of a usable answer.
    pub fn from_bytes(bytes: &[u8]) -> (header: Option<Box<Header>>)
        ensures
            header is Some <==> Header::readable(bytes@),
            header matches Some(h) ==> *h == Header::read(bytes@),
    {
        if bytes.len() < HEADER_LEN {
            return None;
        }
        let packed_second_row = u8_to_u16(bytes[2], bytes[3]);
        if packed_second_row != GOOD_RESPONSE_FLAGS {
            return None;
        }
        Some(
            Box::new(
                Header {
                    identification: u8_to_u16(bytes[0], bytes[1]),
                    packed_second_row,
                    qdcount: u8_to_u16(bytes[4], bytes[5]),
                    ancount: u8_to_u16(bytes[6], bytes[7]),
                    nscount: u8_to_u16(bytes[8], bytes[9]),
                    arcount: u8_to_u16(bytes[10], bytes[11]),
                },
            ),
        )
    }
}

/// What a [`Query`] holds, as a mathematical value.
pub struct QueryView {
    pub header: Header,
    pub qname: Seq<u8>,
    pub qtype: u16,
    pub qclass: u16,
}

/// A question for the records of one host name.
#[derive(Debug)]
pub struct Query {
    /// The header of the message.
    pub header: Header,
    /// The host name: as length-prefixed labels in a query that is to be
    /// sent, as dotted text in a query that was read.
    pub qname: Vec<u8>,
    /// The type of record asked for; 1 asks for an IPv4 address.
    pub qtype: u16,
    /// The class of record asked for; 1 is the Internet.
    pub qclass: u16,
}

impl View for Query {
    type V = QueryView;

    open spec fn view(&self) -> QueryView {
        QueryView {
            header: self.header,
            qname: self.qname@,
            qtype: self.qtype,
            qclass: self.qclass,
        }
    }
}

/// A byte that may stand in a host name: a letter, a digit or a hyphen.
pub open spec fn is_name_byte(b: u8) -> bool {
    (0x30 <= b <= 0x39) || (0x41 <= b <= 0x5a) || (0x61 <= b <= 0x7a) || b == 45
}

/// Whether a byte may stand in a host name.
pub fn name_byte(b: u8) -> (r: bool)
    ensures
        r == is_name_byte(b),
{
    (0x30 <= b && b <= 0x39) || (0x41 <= b && b <= 0x5a) || (0x61 <= b && b <= 0x7a) || b == 45
}

/// The host name that the bytes `bytes[12..to]` of a message spell, as dotted
/// text: letters, digits and hyphens stand for themselves, and every other
/// byte, being the length of the label that follows, for a dot, but for the
/// first byte of the name, which stands for nothing.
pub open spec fn dotted_name(bytes: Seq<u8>, to: int) -> Seq<u8>
    decreases to,
{
    if to <= HEADER_LEN {
        Seq::empty()
    } else {
        let front = dotted_name(bytes, to - 1);
        let b = bytes[to - 1];
        if is_name_byte(b) {
            front.push(b)
        } else if to - 1 != HEADER_LEN {
            front.push(46u8)
        } else {
            front
        }
    }
}

impl QueryView {
    /// Number of bytes that the question takes on the wire, without the
    /// length prefix, where `qname` is dotted text.
    pub open spec fn wire_len(self) -> int {
        12 + 1 + self.qname.len() as int + 2 + 2
    }

    /// The question as bytes to send: the header, the name, type and class,
    /// and in front the length of all that follows the first two bytes.
    pub open spec fn wire(self) -> Seq<u8> {
        let body = self.header.wire() + self.qname + be16_bytes(self.qtype) + be16_bytes(
            self.qclass,
        );
        be16_bytes(((body.len() - 2) % 0x1_0000) as u16) + body.subrange(2, body.len() as int)
    }

    /// Where the name in `bytes` ends: the index of the zero byte that closes
    /// it, or the length of `bytes` where no zero byte follows the header.
    pub open spec fn name_end(bytes: Seq<u8>) -> int {
        first_at(bytes, HEADER_LEN as int, 0u8)
    }

    /// Where type and class are read from: right after the zero byte that
    /// closes the name, or, where the name is not closed, from the start.
    pub open spec fn fields_at(bytes: Seq<u8>) -> int {
        if QueryView::name_end(bytes) < bytes.len() {
            QueryView::name_end(bytes) + 1
        } else {
            0
        }
    }

    /// `bytes` begins with a question that can be read: a readable header,
    /// and four bytes for type and class where they are looked for.
    pub open spec fn readable(bytes: Seq<u8>) -> bool {
        Header::readable(bytes) && QueryView::fields_at(bytes) + 4 <= bytes.len()
    }

    /// The question that `bytes` begins with.
    pub open spec fn read(bytes: Seq<u8>) -> QueryView {
        let at = QueryView::fields_at(bytes);
        QueryView {
            header: Header::read(bytes),
            qname: dotted_name(bytes, QueryView::name_end(bytes)),
            qtype: be16(bytes[at], bytes[at + 1]) as u16,
            qclass: be16(bytes[at + 2], bytes[at + 3]) as u16,
        }
    }
}

impl Query {
    /// The question as bytes to send.
    pub fn as_bytes(&self) -> (v: Vec<u8>)
        ensures
            v@ == self@.wire(),
    {
        let mut v: Vec<u8> = self.header.as_bytes();
        let mut i: usize = 0;
        while i < self.qname.len()
            invariant
                i <= self.qname.len(),
                v@ == self.header.wire() + self.qname@.subrange(0, i as int),
            decreases self.qname.len() - i,
        {
            v.push(self.qname[i]);
            i += 1;
        }
        assert(self.qname@.subrange(0, i as int) =~= self.qname@);
        push_be16(&mut v, self.qtype);
        push_be16(&mut v, self.qclass);
        let ghost body = v@;
        let len = ((v.len() - 2) % 0x1_0000) as u16;
        v.set(0, (len / 256) as u8);
        v.set(1, (len % 256) as u8);
        assert(v@ =~= be16_bytes(len) + body.subrange(2, body.len() as int));
        v
    }

    /// Number of bytes that the question takes on the wire, without the
    /// length prefix, where `qname` is dotted text.
    pub fn len(&self) -> (n: usize)
        requires
            self.qname@.len() + 17 <= usize::MAX,
        ensures
            n == self@.wire_len(),
    {
        12 + 1 + self.qname.len() + 2 + 2
    }

    /// Reads the question that `bytes` begins with. There is none if the
    /// header cannot be read or `bytes` ends before type and class.
    pub fn from_bytes(bytes: &[u8]) -> (query: Option<Box<Query>>)
        ensures
            query is Some <==> QueryView::readable(bytes@),
            query matches Some(q) ==> q@ == QueryView::read(bytes@),
    {
        let l = bytes.len();
        let header = match Header::from_bytes(bytes) {
            Some(h) => *h,
            None => {
                return None;
            },
        };
        let mut name: Vec<u8> = Vec::new();
        let mut i: usize = HEADER_LEN;
        while i < l && bytes[i] != 0
            invariant
                HEADER_LEN <= i <= l,
                l == bytes@.len(),
                first_at(bytes@, HEADER_LEN as int, 0u8) == first_at(bytes@, i as int, 0u8),
                name@ == dotted_name(bytes@, i as int),
            decreases l - i,
        {
            let byte = bytes[i];
            if name_byte(byte) {
                name.push(byte);
            } else if i != HEADER_LEN {
                name.push(46u8);
            }
            i += 1;
        }
        let lastnamebyte: usize = if i < l {
            i + 1
        } else {
            0
        };
        if l - lastnamebyte < 4 {
            return None;
        }
        Some(
            Box::new(
                Query {
                    header,
                    qname: name,
                    qtype: u8_to_u16(bytes[lastnamebyte], bytes[lastnamebyte + 1]),
                    qclass: u8_to_u16(bytes[lastnamebyte + 2], bytes[lastnamebyte + 3]),
                },
            ),
        )
    }
}

/// Number of bytes by which reading moves on after one resource record: two
/// for the name, given as a pointer, and fourteen for the fields.
pub const RECORD_LEN: usize = 16;

/// One resource record of an answer: an IPv4 address.
#[derive(Debug)]
pub struct ResourceRecord {
    /// The type of the record.
    pub rtype: u16,
    /// The class of the record.
    pub class: u16,
    /// For how many seconds the record may be kept.
    pub ttl: u32,
    /// The length of the data.
    pub rdlength: u16,
    /// The data: the four bytes of the address.
    pub rdata: [u8; 4],
}

/// What a [`ResourceRecord`] holds, as a mathematical value.
pub struct RecordView {
    pub rtype: u16,
    pub class: u16,
    pub ttl: u32,
    pub rdlength: u16,
    pub rdata: Seq<u8>,
}

impl View for ResourceRecord {
    type V = RecordView;

    open spec fn view(&self) -> RecordView {
        RecordView {
            rtype: self.rtype,
            class: self.class,
            ttl: self.ttl,
            rdlength: self.rdlength,
            rdata: self.rdata@,
        }
    }
}

impl RecordView {
    /// `bytes` holds a record: it is at least fifteen bytes long.
    pub open spec fn readable(bytes: Seq<u8>) -> bool {
        bytes.len() >= 15
    }

    /// The record that `bytes` holds, read from its second byte on.
    pub open spec fn read(bytes: Seq<u8>) -> RecordView {
        RecordView {
            rtype: be16(bytes[1], bytes[2]) as u16,
            class: be16(bytes[3], bytes[4]) as u16,
            ttl: be32_padded(bytes.subrange(5, 9)) as u32,
            rdlength: be16(bytes[9], bytes[10]) as u16,
            rdata: bytes.subrange(11, 15),
        }
    }
}

impl ResourceRecord {
    /// Number of bytes that the record takes on the wire.
    pub fn len(&self) -> (n: usize)
        ensures
            n == RECORD_LEN,
    {
        let mut size: usize = 0;
        size += 2;
        size += 2;
        size += 2;
        size += 4;
        size += 2;
        size += 4;
        size
    }

    /// Reads the record that `bytes` holds. There is none if `bytes` is
    /// shorter than fifteen bytes.
    pub fn from_bytes(bytes: &[u8]) -> (record: Option<Box<ResourceRecord>>)
        ensures
            record is Some <==> RecordView::readable(bytes@),
            record matches Some(r) ==> r@ == RecordView::read(bytes@),
    {
        let lastnamebyte: usize = 1;
        if bytes.len() < 15 {
            return None;
        }
        let rdata: [u8; 4] = [
            bytes[lastnamebyte + 10],
            bytes[lastnamebyte + 11],
            bytes[lastnamebyte + 12],
            bytes[lastnamebyte + 13],
        ];
        let ttl_bytes = slice_subrange(bytes, lastnamebyte + 4, lastnamebyte + 8);
        let record = ResourceRecord {
            rtype: u8_to_u16(bytes[lastnamebyte], bytes[lastnamebyte + 1]),
            class: u8_to_u16(bytes[lastnamebyte + 2], bytes[lastnamebyte + 3]),
            ttl: u8_to_u32(ttl_bytes),
            rdlength: u8_to_u16(bytes[lastnamebyte + 8], bytes[lastnamebyte + 9]),
            rdata,
        };
        proof {
            assert(record.rdata@ =~= bytes@.subrange(11, 15));
        }
        Some(Box::new(record))
    }
}

/// What a [`Response`] holds, as a mathematical value.
pub struct ResponseView {
    pub query: QueryView,
    pub rr: Seq<RecordView>,
}

/// An answer: the question repeated, and the records that answer it.
#[derive(Debug)]
pub struct Response {
    /// The question that is answered.
    pub query: Query,
    /// The records of the answer.
    pub rr: Vec<ResourceRecord>,
}

impl View for Response {
    type V = ResponseView;

    open spec fn view(&self) -> ResponseView {
        ResponseView { query: self.query@, rr: Seq::new(self.rr@.len(), |i: int| self.rr@[i]@) }
    }
}

/// The records that `bytes` holds from index `at` on: one every sixteen
/// bytes, for as long as fifteen bytes are left.
pub open spec fn records_from(bytes: Seq<u8>, at: int) -> Seq<RecordView>
    decreases bytes.len() + 16 - at,
{
    if 0 <= at && at + 15 <= bytes.len() {
        seq![RecordView::read(bytes.subrange(at, bytes.len() as int))] + records_from(
            bytes,
            at + 16,
        )
    } else {
        Seq::empty()
    }
}

impl ResponseView {
    /// `bytes` is an answer that can be read: a length prefix of two bytes
    /// and then a readable question.
    pub open spec fn readable(bytes: Seq<u8>) -> bool {
        bytes.len() >= 2 && QueryView::readable(bytes.subrange(2, bytes.len() as int))
    }

    /// Where the records begin: after the length prefix, the question taken
    /// at its length as dotted text, and two bytes more.
    pub open spec fn records_at(bytes: Seq<u8>) -> int {
        2 + QueryView::read(bytes.subrange(2, bytes.len() as int)).wire_len() + 2
    }

    /// The answer that `bytes` holds.
    pub open spec fn read(bytes: Seq<u8>) -> ResponseView {
        ResponseView {
            query: QueryView::read(bytes.subrange(2, bytes.len() as int)),
            rr: records_from(bytes, ResponseView::records_at(bytes)),
        }
    }
}

impl Response {
    /// Reads the answer that `bytes` holds. There is none if `bytes` ends
    /// before the question does or the question cannot be read. The length
    /// prefix is not held against the true length.
    pub fn from_bytes(bytes: &[u8]) -> (response: Option<Box<Response>>)
        ensures
            response is Some <==> ResponseView::readable(bytes@),
            response matches Some(r) ==> r@ == ResponseView::read(bytes@),
    {
        let l = bytes.len();
        if l < 2 {
            return None;
        }
        let query = match Query::from_bytes(slice_subrange(bytes, 2, l)) {
            Some(q) => *q,
            None => {
                return None;
            },
        };
        let mut rrvec: Vec<ResourceRecord> = Vec::new();
        let ghost start = ResponseView::records_at(bytes@);
        proof {
            lemma_dotted_name_len(
                bytes@.subrange(2, l as int),
                QueryView::name_end(bytes@.subrange(2, l as int)),
            );
            lemma_first_at(bytes@.subrange(2, l as int), HEADER_LEN as int, 0u8);
        }
        if l < 21 || query.qname.len() >= l - 21 {
            let response = Response { query, rr: rrvec };
            proof {
                assert(start + 15 > l);
                assert(response@.rr =~= records_from(bytes@, start));
            }
            return Some(Box::new(response));
        }
        let mut index: usize = 21 + query.qname.len();
        let mut more = true;
        while more && index < l && l - index >= 15
            invariant
                l == bytes@.len(),
                start <= index <= l,
                more ==> records_from(bytes@, start) == Seq::new(rrvec@.len(), |i: int| rrvec@[i]@)
                    + records_from(bytes@, index as int),
                !more ==> records_from(bytes@, start) == Seq::new(
                    rrvec@.len(),
                    |i: int| rrvec@[i]@,
                ),
            decreases l - index, if more { 1int } else { 0int },
        {
            match ResourceRecord::from_bytes(slice_subrange(bytes, index, l)) {
                Some(rr) => {
                    let ghost before = Seq::new(rrvec@.len(), |i: int| rrvec@[i]@);
                    let step = rr.len();
                    rrvec.push(*rr);
                    proof {
                        assert(Seq::new(rrvec@.len(), |i: int| rrvec@[i]@) =~= before.push(rr@));
                        assert(before + (seq![rr@] + records_from(bytes@, index + 16))
                            =~= before.push(rr@) + records_from(bytes@, index + 16));
                    }
                    if l - index >= step {
                        index += step;
                    } else {
                        proof {
                            assert(records_from(bytes@, index + 16) =~= Seq::<RecordView>::empty());
                            assert(before.push(rr@) + Seq::<RecordView>::empty() =~= before.push(
                                rr@,
                            ));
                        }
                        more = false;
                    }
                },
                None => {
                    more = false;
                },
            }
        }
        let response = Response { query, rr: rrvec };
        proof {
            if more {
                assert(records_from(bytes@, index as int) =~= Seq::<RecordView>::empty());
            }
            assert(records_from(bytes@, start) =~= response@.rr);
        }
        Some(Box::new(response))
    }
}

/// A dotted name is no longer than the bytes it was read from.
pub proof fn lemma_dotted_name_len(bytes: Seq<u8>, to: int)
    ensures
        dotted_name(bytes, to).len() <= if to <= HEADER_LEN {
            0
        } else {
            to - HEADER_LEN
        },
    decreases to,
{
    if to > HEADER_LEN {
        lemma_dotted_name_len(bytes, to - 1);
    }
}

/// The byte that separates the labels of a host name in text: a dot.
pub const LABEL_SEPARATOR: u8 = 0x2e;

/// The labels of the host name `name[from..]` as they go on the wire: each
/// label, from one dot to the next, preceded by its length in one byte (the
/// length modulo 256 where a label is longer than a byte can say).
pub open spec fn wire_labels(name: Seq<u8>, from: int) -> Seq<u8>
    decreases name.len() - from,
{
    if from < 0 || from > name.len() {
        Seq::empty()
    } else {
        let end = first_at(name, from, LABEL_SEPARATOR);
        let label = seq![((end - from) % 256) as u8] + name.subrange(from, end);
        if from <= end < name.len() {
            label + wire_labels(name, end + 1)
        } else {
            label
        }
    }
}

/// The header of a question: one question, recursion desired.
pub open spec fn question_header() -> Header {
    Header {
        identification: 0x304e,
        packed_second_row: 0x0100,
        qdcount: 1,
        ancount: 0,
        nscount: 0,
        arcount: 0,
    }
}

/// The question that asks for the IPv4 addresses of `domain`: its labels as
/// they go on the wire, closed by a zero byte; type A, class Internet.
pub fn craft_query(domain: &str) -> (query: Query)
    ensures
        query@ == (QueryView {
            header: question_header(),
            qname: wire_labels(domain.spec_bytes(), 0) + seq![0u8],
            qtype: 1,
            qclass: 1,
        }),
{
    let header = Header {
        identification: 0x304e,
        packed_second_row: 0x0100,
        qdcount: 0x0001,
        ancount: 0x0000,
        nscount: 0x0000,
        arcount: 0x0000,
    };
    let name = domain.as_bytes();
    let n = name.len();
    let mut qname: Vec<u8> = Vec::new();
    let mut start: usize = 0;
    let mut done = false;
    while !done
        invariant
            n == name@.len(),
            start <= n,
            !done ==> wire_labels(name@, 0) == qname@ + wire_labels(name@, start as int),
            done ==> wire_labels(name@, 0) == qname@,
        decreases n - start, if done { 0int } else { 1int },
    {
        let mut end: usize = start;
        while end < n && name[end] != LABEL_SEPARATOR
            invariant
                start <= end <= n,
                n == name@.len(),
                first_at(name@, start as int, LABEL_SEPARATOR) == first_at(
                    name@,
                    end as int,
                    LABEL_SEPARATOR,
                ),
            decreases n - end,
        {
            end += 1;
        }
        let ghost before = qname@;
        qname.push(((end - start) % 256) as u8);
        let mut i: usize = start;
        while i < end
            invariant
                start <= i <= end <= n,
                n == name@.len(),
                qname@ == before.push(((end - start) % 256) as u8) + name@.subrange(
                    start as int,
                    i as int,
                ),
            decreases end - i,
        {
            qname.push(name[i]);
            i += 1;
        }
        proof {
            let label = seq![((end - start) % 256) as u8] + name@.subrange(
                start as int,
                end as int,
            );
            assert(qname@ =~= before + label);
            if end < n {
                assert(before + (label + wire_labels(name@, end + 1)) =~= (before + label)
                    + wire_labels(name@, end + 1));
            }
        }
        if end < n {
            start = end + 1;
        } else {
            done = true;
        }
    }
    let ghost labels = qname@;
    qname.push(0x00);
    proof {
        assert(qname@ =~= labels + seq![0u8]);
    }
    Query { header, qname, qtype: 0x0001, qclass: 0x0001 }
}

/// Appends the characters of `piece`.
fn push_str(out: &mut Vec<char>, piece: &str)
    ensures
        final(out)@ == old(out)@ + piece@,
{
    let chars = to_chars(piece);
    append_chars(out, &chars);
}

/// Appends one line of a description: a label, a hexadecimal number, a line
/// feed.
fn push_hex_line(out: &mut Vec<char>, label: &str, value: u16)
    ensures
        final(out)@ == old(out)@ + hex_line(label@, value),
{
    push_str(out, label);
    push_hex(out, value as u64);
    push_str(out, "\n");
    proof {
        assert(final(out)@ =~= old(out)@ + hex_line(label@, value));
    }
}

/// One line of a description: a label, a hexadecimal number, a line feed.
pub open spec fn hex_line(label: Seq<char>, value: u16) -> Seq<char> {
    label + numeral(value as int, 16) + "\n"@
}

impl Header {
    /// The header described line by line, each field in hexadecimal.
    pub open spec fn text(self) -> Seq<char> {
        hex_line("ID: 0x"@, self.identification) + hex_line("Flags: 0x"@, self.packed_second_row)
            + hex_line("QDCOUNT: 0x"@, self.qdcount) + hex_line("ANCOUNT: 0x"@, self.ancount)
            + hex_line("NSCOUNT: 0x"@, self.nscount) + hex_line("ARCOUNT: 0x"@, self.arcount)
    }

    /// Appends the description of the header.
    fn push_text(&self, out: &mut Vec<char>)
        ensures
            final(out)@ == old(out)@ + self.text(),
    {
        push_hex_line(out, "ID: 0x", self.identification);
        push_hex_line(out, "Flags: 0x", self.packed_second_row);
        push_hex_line(out, "QDCOUNT: 0x", self.qdcount);
        push_hex_line(out, "ANCOUNT: 0x", self.ancount);
        push_hex_line(out, "NSCOUNT: 0x", self.nscount);
        push_hex_line(out, "ARCOUNT: 0x", self.arcount);
        proof {
            assert(final(out)@ =~= old(out)@ + self.text());
        }
    }

    /// The header described line by line, each field in hexadecimal.
    pub fn to_text(&self) -> (out: String)
        ensures
            out@ == self.text(),
    {
        let mut chars: Vec<char> = Vec::new();
        self.push_text(&mut chars);
        let out = from_chars(&chars, 0, chars.len());
        proof {
            assert(chars@.subrange(0, chars@.len() as int) =~= chars@);
            assert(Seq::<char>::empty() + self.text() =~= self.text());
        }
        out
    }
}

impl RecordView {
    /// The record described line by line: type, class and data length in
    /// hexadecimal, the time to live in decimal, the address in dotted
    /// decimal.
    pub open spec fn text(self) -> Seq<char> {
        hex_line("RR record type: 0x"@, self.rtype) + hex_line("RR class: 0x"@, self.class)
            + "TTL: "@ + numeral(self.ttl as int, 10) + "\n"@ + hex_line(
            "RDLENGTH: 0x"@,
            self.rdlength,
        ) + "IP address: "@ + numeral(self.rdata[0] as int, 10) + "."@ + numeral(
            self.rdata[1] as int,
            10,
        ) + "."@ + numeral(self.rdata[2] as int, 10) + "."@ + numeral(self.rdata[3] as int, 10)
            + "\n"@
    }
}

impl ResourceRecord {
    /// Appends the description of the record.
    fn push_text(&self, out: &mut Vec<char>)
        ensures
            final(out)@ == old(out)@ + self@.text(),
    {
        push_hex_line(out, "RR record type: 0x", self.rtype);
        push_hex_line(out, "RR class: 0x", self.class);
        push_str(out, "TTL: ");
        push_decimal(out, self.ttl as u64);
        push_str(out, "\n");
        push_hex_line(out, "RDLENGTH: 0x", self.rdlength);
        push_str(out, "IP address: ");
        push_decimal(out, self.rdata[0] as u64);
        push_str(out, ".");
        push_decimal(out, self.rdata[1] as u64);
        push_str(out, ".");
        push_decimal(out, self.rdata[2] as u64);
        push_str(out, ".");
        push_decimal(out, self.rdata[3] as u64);
        push_str(out, "\n");
        proof {
            assert(final(out)@ =~= old(out)@ + self@.text());
        }
    }

    /// The record described line by line.
    pub fn to_text(&self) -> (out: String)
        ensures
            out@ == self@.text(),
    {
        let mut chars: Vec<char> = Vec::new();
        self.push_text(&mut chars);
        let out = from_chars(&chars, 0, chars.len());
        proof {
            assert(chars@.subrange(0, chars@.len() as int) =~= chars@);
            assert(Seq::<char>::empty() + self@.text() =~= self@.text());
        }
        out
    }
}

/// The records of an answer described one after the other, each after an
/// empty line and followed by a line feed.
pub open spec fn records_text(rr: Seq<RecordView>) -> Seq<char>
    decreases rr.len(),
{
    if rr.len() == 0 {
        Seq::empty()
    } else {
        records_text(rr.drop_last()) + "\n"@ + rr.last().text() + "\n"@
    }
}

impl ResponseView {
    /// The answer described: the header, the name as text, type and class,
    /// and the records.
    pub open spec fn text(self) -> Seq<char> {
        self.query.header.text() + "\n"@ + "Name: "@ + decode_utf8(self.query.qname) + "\n"@
            + hex_line("Res type: 0x"@, self.query.qtype) + hex_line(
            "Class: 0x"@,
            self.query.qclass,
        ) + records_text(self.rr)
    }
}

impl Response {
    /// The answer described line by line. There is no description where the
    /// name is not valid UTF-8.
    pub fn to_text(&self) -> (out: Option<String>)
        ensures
            out is Some <==> valid_utf8(self@.query.qname),
            out matches Some(text) ==> text@ == self@.text(),
    {
        let name = match utf8_text(slice_to_vec(self.query.qname.as_slice())) {
            Some(name) => name,
            None => {
                return None;
            },
        };
        proof {
            encode_utf8_decode_utf8(name@);
        }
        let mut chars: Vec<char> = Vec::new();
        self.query.header.push_text(&mut chars);
        push_str(&mut chars, "\n");
        push_str(&mut chars, "Name: ");
        push_str(&mut chars, name.as_str());
        push_str(&mut chars, "\n");
        push_hex_line(&mut chars, "Res type: 0x", self.query.qtype);
        push_hex_line(&mut chars, "Class: 0x", self.query.qclass);
        let ghost head = chars@;
        let ghost views = self@.rr;
        let mut i: usize = 0;
        proof {
            assert(views.take(0) =~= Seq::<RecordView>::empty());
            assert(chars@ =~= head + records_text(views.take(0)));
        }
        while i < self.rr.len()
            invariant
                i <= self.rr@.len(),
                views == self@.rr,
                chars@ == head + records_text(views.take(i as int)),
            decreases self.rr.len() - i,
        {
            let ghost before = chars@;
            push_str(&mut chars, "\n");
            self.rr[i].push_text(&mut chars);
            push_str(&mut chars, "\n");
            proof {
                assert(views.take(i + 1).drop_last() =~= views.take(i as int));
                assert(views.take(i + 1).last() == self.rr@[i as int]@);
                assert(chars@ =~= head + records_text(views.take(i + 1)));
            }
            i += 1;
        }
        let out = from_chars(&chars, 0, chars.len());
        proof {
            assert(views.take(self.rr@.len() as int) =~= views);
            assert(chars@.subrange(0, chars@.len() as int) =~= chars@);
            assert(head =~= self@.query.header.text() + "\n"@ + "Name: "@ + decode_utf8(
                self@.query.qname,
            ) + "\n"@ + hex_line("Res type: 0x"@, self@.query.qtype) + hex_line(
                "Class: 0x"@,
                self@.query.qclass,
            ));
        }
        Some(out)
    }
}

} // verus!
