use phenoboard::pmid::{canonical_pmid_number, PmidDto, PubmedRetriever};

#[test]
fn test_pmid_conversion() {
    let pmid = "PMID: 20802478";
    let retr = PubmedRetriever::new(pmid).unwrap();
    assert_eq!("20802478", retr.numerical_pmid());
}

#[test]
fn pmid_forms_are_accepted() {
    for input in ["PMID: 20802478", "PMID:20802478", "20802478", "  pmid:20802478  ", "Pmid: 20802478\n"] {
        assert_eq!(PubmedRetriever::extract_pmid(input), Some("20802478".to_string()), "{}", input);
    }
}

#[test]
fn pmid_without_number_is_rejected() {
    assert_eq!(PubmedRetriever::extract_pmid("PMID:"), None);
    assert_eq!(PubmedRetriever::extract_pmid("PMID: 12a"), None);
    assert_eq!(PubmedRetriever::extract_pmid("-5"), None);
    assert_eq!(PubmedRetriever::extract_pmid("4294967296"), None);
    let err = PubmedRetriever::new("abc").unwrap_err();
    assert_eq!(err, "Could not extract PMID from abc");
}

#[test]
fn pmid_number_is_canonical() {
    assert_eq!(canonical_pmid_number("+0042"), Some("42".to_string()));
    assert_eq!(canonical_pmid_number("0"), Some("0".to_string()));
    assert_eq!(canonical_pmid_number("4294967295"), Some("4294967295".to_string()));
    assert_eq!(canonical_pmid_number("4294967296"), None);
    assert_eq!(canonical_pmid_number("+"), None);
    assert_eq!(canonical_pmid_number(""), None);
    assert_eq!(canonical_pmid_number(" 1"), None);
}

#[test]
fn pmid_record_has_prefixed_identifier() {
    let dto = PmidDto::from_numerical_pmid("20802478", "PIGV mutations");
    assert_eq!(dto.pmid, "PMID:20802478");
    assert_eq!(dto.title, "PIGV mutations");
    let plain = PmidDto::new("PMID:1", "t");
    assert_eq!(plain.pmid, "PMID:1");
}
