use dns_cache::dns::{
    bytes_copy, bytes_equal, DomainName, QueryClass, QueryType, RecordClass, RecordType,
    RecordTypeWithData, ResourceRecord,
};

fn domain(text: &str) -> DomainName {
    DomainName { labels: text.split('.').map(|label| label.as_bytes().to_vec()).collect() }
}

#[test]
fn record_type_matches_wildcard_and_itself() {
    assert!(RecordType::A.matches(&QueryType::Wildcard));
    assert!(RecordType::CNAME.matches(&QueryType::Wildcard));
    assert!(RecordType::A.matches(&QueryType::Record(RecordType::A)));
    assert!(RecordType::CNAME.matches(&QueryType::Record(RecordType::CNAME)));
    assert!(!RecordType::A.matches(&QueryType::Record(RecordType::CNAME)));
    assert!(!RecordType::CNAME.matches(&QueryType::Record(RecordType::A)));
}

#[test]
fn record_class_matches_wildcard_and_itself() {
    assert!(RecordClass::IN.matches(&QueryClass::Wildcard));
    assert!(RecordClass::IN.matches(&QueryClass::Record(RecordClass::IN)));
}

#[test]
fn payload_reports_its_type() {
    assert_eq!(RecordTypeWithData::A { address: 0x7f00_0001 }.rtype(), RecordType::A);
    assert_eq!(RecordTypeWithData::CNAME { cname: domain("example.com") }.rtype(), RecordType::CNAME);
}

#[test]
fn names_are_equal_label_by_label() {
    assert!(domain("example.com").same_as(&domain("example.com")));
    assert!(!domain("example.com").same_as(&domain("example.org")));
    assert!(!domain("example.com").same_as(&domain("com")));
    assert!(!domain("example.com").same_as(&domain("www.example.com")));
    assert!(!domain("example.com").same_as(&domain("com.example")));
    assert!(!domain("example.com").same_as(&domain("Example.com")));
    let empty = DomainName { labels: Vec::new() };
    assert!(empty.same_as(&DomainName { labels: Vec::new() }));
    assert!(!empty.same_as(&DomainName { labels: vec![Vec::new()] }));
    assert_eq!(domain("a.b"), domain("a.b"));
    assert_ne!(domain("a.b"), domain("ab"));
}

#[test]
fn payloads_are_equal_by_type_and_data() {
    let a = RecordTypeWithData::A { address: 1 };
    let b = RecordTypeWithData::A { address: 2 };
    let c = RecordTypeWithData::CNAME { cname: domain("x.com") };
    let d = RecordTypeWithData::CNAME { cname: domain("y.com") };
    assert!(a.same_as(&RecordTypeWithData::A { address: 1 }));
    assert!(!a.same_as(&b));
    assert!(!a.same_as(&c));
    assert!(!c.same_as(&a));
    assert!(c.same_as(&RecordTypeWithData::CNAME { cname: domain("x.com") }));
    assert!(!c.same_as(&d));
}

#[test]
fn clones_are_equal_to_their_source() {
    let name = domain("www.example.com");
    assert_eq!(name.clone(), name);
    let payload = RecordTypeWithData::CNAME { cname: domain("x.com") };
    assert_eq!(payload.clone(), payload);
    let record = ResourceRecord {
        name: domain("example.com"),
        rtype: RecordTypeWithData::A { address: 9 },
        rclass: RecordClass::IN,
        ttl: 77,
    };
    assert_eq!(record.clone(), record);
}

#[test]
fn byte_strings_compare_and_copy() {
    assert!(bytes_equal(&vec![1, 2, 3], &vec![1, 2, 3]));
    assert!(!bytes_equal(&vec![1, 2, 3], &vec![1, 2]));
    assert!(!bytes_equal(&vec![1, 2, 3], &vec![1, 2, 4]));
    assert!(bytes_equal(&Vec::new(), &Vec::new()));
    assert_eq!(bytes_copy(&vec![5, 6, 7]), vec![5, 6, 7]);
    assert_eq!(bytes_copy(&Vec::new()), Vec::<u8>::new());
}
