//! Data model of the DNS subsystem: record types with their IANA codes,
//! address values, records, questions, decoded messages, and the error
//! taxonomy of the resolver.

use vstd::prelude::*;
use crate::ip::{IpV4Address, IpV6Address};

verus! {

/// The closed set of record types the resolver understands.
#[allow(non_camel_case_types)]
#[derive(Debug, Clone, Copy, PartialEq, Eq, Structural)]
pub enum DnsRecordType {
    A,
    AAAA,
    CNAME,
    NS,
    MX,
}

/// The IANA numeric code of a record type.
pub open spec fn spec_type_code(t: DnsRecordType) -> u16 {
    match t {
        DnsRecordType::A => 1,
        DnsRecordType::AAAA => 28,
        DnsRecordType::CNAME => 5,
        DnsRecordType::NS => 2,
        DnsRecordType::MX => 15,
    }
}

/// The record type a numeric code stands for, if any.
pub open spec fn spec_type_of_code(value: u16) -> Option<DnsRecordType> {
    match value {
        1u16 => Some(DnsRecordType::A),
        28u16 => Some(DnsRecordType::AAAA),
        5u16 => Some(DnsRecordType::CNAME),
        2u16 => Some(DnsRecordType::NS),
        15u16 => Some(DnsRecordType::MX),
        _ => None,
    }
}

impl DnsRecordType {
    /// The IANA numeric code of this record type.
    pub fn to_u16(&self) -> (r: u16)
        ensures
            r == spec_type_code(*self),
    {
        match self {
            DnsRecordType::A => 1,
            DnsRecordType::AAAA => 28,
            DnsRecordType::CNAME => 5,
            DnsRecordType::NS => 2,
            DnsRecordType::MX => 15,
        }
    }

    /// The record type with a given IANA code; `None` for a code outside
    /// the supported set.
    pub fn from_u16(value: u16) -> (r: Option<DnsRecordType>)
        ensures
            r == spec_type_of_code(value),
    {
        match value {
            1 => Some(DnsRecordType::A),
            28 => Some(DnsRecordType::AAAA),
            5 => Some(DnsRecordType::CNAME),
            2 => Some(DnsRecordType::NS),
            15 => Some(DnsRecordType::MX),
            _ => None,
        }
    }
}

/// Codes and types correspond one to one.
pub proof fn lemma_type_code_round_trip(t: DnsRecordType)
    ensures
        spec_type_of_code(spec_type_code(t)) == Some(t),
{
}

/// The payload of a resource record, tagged by record type.
#[allow(non_camel_case_types)]
#[derive(Debug, Clone, PartialEq, Eq)]
pub enum DnsRecordData {
    A(IpV4Address),
    AAAA(IpV6Address),
    CNAME(String),
    NS(String),
    MX { preference: u16, exchange: String },
}

/// One resource record of a response.
#[derive(Debug, Clone, PartialEq, Eq)]
pub struct DnsRecord {
    pub name: String,
    pub record_type: DnsRecordType,
    pub ttl: u32,
    pub data: DnsRecordData,
}

/// One entry of the question section.
#[derive(Debug, Clone, PartialEq, Eq)]
pub struct DnsQuestion {
    pub name: String,
    pub record_type: DnsRecordType,
    pub class: u16,
}

/// A decoded DNS message: the fixed header fields and the four sections.
#[derive(Debug, Clone, PartialEq, Eq)]
pub struct DnsResponse {
    pub id: u16,
    pub qr: bool,
    pub opcode: u8,
    pub aa: bool,
    pub tc: bool,
    pub rd: bool,
    pub ra: bool,
    pub rcode: u8,
    pub questions: Vec<DnsQuestion>,
    pub answers: Vec<DnsRecord>,
    pub authority: Vec<DnsRecord>,
    pub additional: Vec<DnsRecord>,
}

/// The mathematical value of a record payload.
#[allow(non_camel_case_types)]
pub enum SpecDnsRecordData {
    A(Seq<u8>),
    AAAA(Seq<u16>),
    CNAME(Seq<char>),
    NS(Seq<char>),
    MX { preference: u16, exchange: Seq<char> },
}

/// The mathematical value of a resource record.
pub struct SpecDnsRecord {
    pub name: Seq<char>,
    pub record_type: DnsRecordType,
    pub ttl: u32,
    pub data: SpecDnsRecordData,
}

/// The mathematical value of a question.
pub struct SpecDnsQuestion {
    pub name: Seq<char>,
    pub record_type: DnsRecordType,
    pub class: u16,
}

/// The mathematical value of a decoded message.
pub struct SpecDnsResponse {
    pub id: u16,
    pub qr: bool,
    pub opcode: u8,
    pub aa: bool,
    pub tc: bool,
    pub rd: bool,
    pub ra: bool,
    pub rcode: u8,
    pub questions: Seq<SpecDnsQuestion>,
    pub answers: Seq<SpecDnsRecord>,
    pub authority: Seq<SpecDnsRecord>,
    pub additional: Seq<SpecDnsRecord>,
}

impl View for DnsRecordData {
    type V = SpecDnsRecordData;

    open spec fn view(&self) -> SpecDnsRecordData {
        match self {
            DnsRecordData::A(ip) => SpecDnsRecordData::A(ip.octets@),
            DnsRecordData::AAAA(ip) => SpecDnsRecordData::AAAA(ip.groups@),
            DnsRecordData::CNAME(n) => SpecDnsRecordData::CNAME(n@),
            DnsRecordData::NS(n) => SpecDnsRecordData::NS(n@),
            DnsRecordData::MX { preference, exchange } => SpecDnsRecordData::MX {
                preference: *preference,
                exchange: exchange@,
            },
        }
    }
}

impl View for DnsRecord {
    type V = SpecDnsRecord;

    open spec fn view(&self) -> SpecDnsRecord {
        SpecDnsRecord {
            name: self.name@,
            record_type: self.record_type,
            ttl: self.ttl,
            data: self.data@,
        }
    }
}

impl View for DnsQuestion {
    type V = SpecDnsQuestion;

    open spec fn view(&self) -> SpecDnsQuestion {
        SpecDnsQuestion { name: self.name@, record_type: self.record_type, class: self.class }
    }
}

/// The values of a sequence of records.
pub open spec fn records_view(rs: Seq<DnsRecord>) -> Seq<SpecDnsRecord> {
    rs.map_values(|r: DnsRecord| r@)
}

/// The values of a sequence of questions.
pub open spec fn questions_view(qs: Seq<DnsQuestion>) -> Seq<SpecDnsQuestion> {
    qs.map_values(|q: DnsQuestion| q@)
}

impl View for DnsResponse {
    type V = SpecDnsResponse;

    open spec fn view(&self) -> SpecDnsResponse {
        SpecDnsResponse {
            id: self.id,
            qr: self.qr,
            opcode: self.opcode,
            aa: self.aa,
            tc: self.tc,
            rd: self.rd,
            ra: self.ra,
            rcode: self.rcode,
            questions: questions_view(self.questions@),
            answers: records_view(self.answers@),
            authority: records_view(self.authority@),
            additional: records_view(self.additional@),
        }
    }
}

/// Why a resolution attempt failed.
#[derive(Debug, Clone, Copy, PartialEq, Eq, Structural)]
pub enum DnsError {
    /// The reply was malformed: too short, a read past the end of the
    /// buffer, an ill-formed compression pointer, or an unknown record
    /// type.
    ProtocolError,
    /// The server answered with a non-zero response code.
    ServerError(u8),
    /// No record of the requested type was returned.
    NotFound,
    /// No reply arrived within the read timeout.
    Timeout,
}

} // verus!
