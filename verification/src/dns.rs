//! The record model: domain names, record types with their payload, classes,
//! and the wildcard matching rules of queries.

use vstd::prelude::*;

verus! {

/// A domain name as the sequence of its labels. Two names are the same name
/// exactly when their label sequences are equal.
#[derive(Debug, PartialEq, Eq, Hash)]
pub struct DomainName {
    pub labels: Vec<Vec<u8>>,
}

impl View for DomainName {
    type V = Seq<Seq<u8>>;

    open spec fn view(&self) -> Seq<Seq<u8>> {
        self.labels@.map_values(|label: Vec<u8>| label@)
    }
}

/// Whether two byte strings hold the same bytes.
pub fn bytes_equal(a: &Vec<u8>, b: &Vec<u8>) -> (same: bool)
    ensures
        same == (a@ == b@),
{
    if a.len() != b.len() {
        return false;
    }
    let mut i: usize = 0;
    while i < a.len()
        invariant
            i <= a.len(),
            a.len() == b.len(),
            forall|k: int| 0 <= k < i ==> a@[k] == b@[k],
        decreases a.len() - i,
    {
        if a[i] != b[i] {
            return false;
        }
        i += 1;
    }
    assert(a@ =~= b@);
    true
}

/// A fresh byte string with the same bytes.
pub fn bytes_copy(a: &Vec<u8>) -> (copy: Vec<u8>)
    ensures
        copy@ == a@,
{
    let mut copy: Vec<u8> = Vec::new();
    let mut i: usize = 0;
    while i < a.len()
        invariant
            i <= a.len(),
            copy@ == a@.take(i as int),
        decreases a.len() - i,
    {
        copy.push(a[i]);
        assert(a@.take(i + 1) =~= a@.take(i as int).push(a@[i as int]));
        i += 1;
    }
    assert(a@.take(a.len() as int) =~= a@);
    copy
}

impl DomainName {
    /// Structural equality: the same labels in the same order.
    pub fn same_as(&self, other: &DomainName) -> (same: bool)
        ensures
            same == (self@ == other@),
    {
        if self.labels.len() != other.labels.len() {
            assert(self@.len() != other@.len());
            return false;
        }
        let mut i: usize = 0;
        while i < self.labels.len()
            invariant
                i <= self.labels.len(),
                self.labels.len() == other.labels.len(),
                forall|k: int| 0 <= k < i ==> self@[k] == other@[k],
            decreases self.labels.len() - i,
        {
            if !bytes_equal(&self.labels[i], &other.labels[i]) {
                assert(self@[i as int] != other@[i as int]);
                return false;
            }
            i += 1;
        }
        assert(self@ =~= other@);
        true
    }
}

impl Clone for DomainName {
    fn clone(&self) -> (copy: DomainName)
        ensures
            copy@ == self@,
    {
        let mut labels: Vec<Vec<u8>> = Vec::new();
        let mut i: usize = 0;
        while i < self.labels.len()
            invariant
                i <= self.labels.len(),
                labels@.len() == i,
                forall|k: int| 0 <= k < i ==> labels@[k]@ == self.labels@[k]@,
            decreases self.labels.len() - i,
        {
            labels.push(bytes_copy(&self.labels[i]));
            i += 1;
        }
        let copy = DomainName { labels };
        assert(copy@ =~= self@);
        copy
    }
}

/// The closed set of record type tags.
#[derive(Debug, Clone, Copy, PartialEq, Eq, Hash, Structural)]
pub enum RecordType {
    A,
    CNAME,
}

/// A record type together with the data a record of that type carries.
#[derive(Debug, PartialEq, Eq)]
pub enum RecordTypeWithData {
    /// An IPv4 address, as the 32-bit number whose big-endian bytes are its octets.
    A { address: u32 },
    /// The canonical name that the owner name is an alias of.
    CNAME { cname: DomainName },
}

/// The mathematical value of a [`RecordTypeWithData`].
pub enum RecordData {
    A { address: u32 },
    CNAME { cname: Seq<Seq<u8>> },
}

impl RecordData {
    /// The tag of this payload.
    pub open spec fn rtype(self) -> RecordType {
        match self {
            RecordData::A { .. } => RecordType::A,
            RecordData::CNAME { .. } => RecordType::CNAME,
        }
    }
}

impl View for RecordTypeWithData {
    type V = RecordData;

    open spec fn view(&self) -> RecordData {
        match self {
            RecordTypeWithData::A { address } => RecordData::A { address: *address },
            RecordTypeWithData::CNAME { cname } => RecordData::CNAME { cname: cname@ },
        }
    }
}

impl RecordTypeWithData {
    /// The tag of this payload.
    pub fn rtype(&self) -> (tag: RecordType)
        ensures
            tag == self@.rtype(),
    {
        match self {
            RecordTypeWithData::A { .. } => RecordType::A,
            RecordTypeWithData::CNAME { .. } => RecordType::CNAME,
        }
    }

    /// Equality of payloads: the same tag and the same data.
    pub fn same_as(&self, other: &RecordTypeWithData) -> (same: bool)
        ensures
            same == (self@ == other@),
    {
        match (self, other) {
            (RecordTypeWithData::A { address: a }, RecordTypeWithData::A { address: b }) => *a == *b,
            (RecordTypeWithData::CNAME { cname: a }, RecordTypeWithData::CNAME { cname: b }) => {
                a.same_as(b)
            },
            _ => false,
        }
    }
}

impl Clone for RecordTypeWithData {
    fn clone(&self) -> (copy: RecordTypeWithData)
        ensures
            copy@ == self@,
    {
        match self {
            RecordTypeWithData::A { address } => RecordTypeWithData::A { address: *address },
            RecordTypeWithData::CNAME { cname } => RecordTypeWithData::CNAME { cname: cname.clone() },
        }
    }
}

/// The closed set of record classes.
#[derive(Debug, Clone, Copy, PartialEq, Eq, Structural)]
pub enum RecordClass {
    IN,
}

/// The type a query asks for: one record type, or any.
#[derive(Debug, Clone, Copy)]
pub enum QueryType {
    Record(RecordType),
    Wildcard,
}

/// The class a query asks for: one record class, or any.
#[derive(Debug, Clone, Copy)]
pub enum QueryClass {
    Record(RecordClass),
    Wildcard,
}

impl QueryType {
    /// A record type answers this query if the query is a wildcard or names
    /// that very type.
    pub open spec fn admits(self, rtype: RecordType) -> bool {
        match self {
            QueryType::Wildcard => true,
            QueryType::Record(wanted) => rtype == wanted,
        }
    }
}

impl QueryClass {
    /// A record class answers this query if the query is a wildcard or names
    /// that very class.
    pub open spec fn admits(self, rclass: RecordClass) -> bool {
        match self {
            QueryClass::Wildcard => true,
            QueryClass::Record(wanted) => rclass == wanted,
        }
    }
}

impl RecordType {
    /// Whether a record of this type answers a query for `qtype`.
    pub fn matches(&self, qtype: &QueryType) -> (hit: bool)
        ensures
            hit == qtype.admits(*self),
    {
        match qtype {
            QueryType::Wildcard => true,
            QueryType::Record(rtype) => *self == *rtype,
        }
    }
}

impl RecordClass {
    /// Whether a record of this class answers a query for `qclass`.
    pub fn matches(&self, qclass: &QueryClass) -> (hit: bool)
        ensures
            hit == qclass.admits(*self),
    {
        match qclass {
            QueryClass::Wildcard => true,
            QueryClass::Record(rclass) => *self == *rclass,
        }
    }
}

/// A resource record as it enters and leaves a cache. `ttl` is the time the
/// record stays valid, in nanoseconds.
#[derive(Debug, PartialEq, Eq)]
pub struct ResourceRecord {
    pub name: DomainName,
    pub rtype: RecordTypeWithData,
    pub rclass: RecordClass,
    pub ttl: u64,
}

/// The mathematical value of a [`ResourceRecord`].
pub struct Record {
    pub name: Seq<Seq<u8>>,
    pub rtype: RecordData,
    pub rclass: RecordClass,
    pub ttl: u64,
}

impl View for ResourceRecord {
    type V = Record;

    open spec fn view(&self) -> Record {
        Record { name: self.name@, rtype: self.rtype@, rclass: self.rclass, ttl: self.ttl }
    }
}

impl Clone for ResourceRecord {
    fn clone(&self) -> (copy: ResourceRecord)
        ensures
            copy@ == self@,
    {
        ResourceRecord {
            name: self.name.clone(),
            rtype: self.rtype.clone(),
            rclass: self.rclass,
            ttl: self.ttl,
        }
    }
}

/// The values of a sequence of resource records.
pub open spec fn records_of(records: Seq<ResourceRecord>) -> Seq<Record> {
    records.map_values(|r: ResourceRecord| r@)
}

} // verus!
