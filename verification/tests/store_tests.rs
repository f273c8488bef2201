use acronyms::acronym::Acronym;
use acronyms::store::{AcronymStore, StoreError};

fn seeded() -> AcronymStore {
    let mut s = AcronymStore::new();
    let id = s
        .insert(
            "TLS".to_string(),
            "Transport Layer Security".to_string(),
        )
        .unwrap();
    assert_eq!(id, 1);
    s
}

#[test]
fn insert_then_get_round_trip() {
    let mut s = AcronymStore::new();
    let id = s.insert("DNS".to_string(), "Domain Name System".to_string()).unwrap();
    let a = s.get_by_id(id).unwrap();
    assert_eq!(a.id, id);
    assert_eq!(a.acronym, "DNS");
    assert_eq!(a.definition, "Domain Name System");
}

#[test]
fn insert_tls_assigns_id_one() {
    let mut s = AcronymStore::new();
    let id = s
        .insert("TLS".to_string(), "Transport Layer Security".to_string())
        .unwrap();
    assert_eq!(id, 1);
    let a = s.get_by_id(1).unwrap();
    assert_eq!(a.id, 1);
    assert_eq!(a.acronym, "TLS");
    assert_eq!(a.definition, "Transport Layer Security");
}

#[test]
fn list_contains_all_inserted() {
    let mut s = AcronymStore::new();
    let id1 = s.insert("A".to_string(), "first".to_string()).unwrap();
    let id2 = s.insert("B".to_string(), "second".to_string()).unwrap();
    let id3 = s.insert("C".to_string(), "third".to_string()).unwrap();
    let rows = s.list();
    assert_eq!(rows.len(), 3);
    for (id, acr) in [(id1, "A"), (id2, "B"), (id3, "C")] {
        assert!(rows.iter().any(|r| r.id == id && r.acronym == acr));
    }
}

#[test]
fn delete_then_get_is_not_found() {
    let mut s = seeded();
    s.delete(1).unwrap();
    assert!(matches!(s.get_by_id(1), Err(StoreError::NotFound)));
    assert_eq!(s.list().len(), 0);
}

#[test]
fn delete_absent_id_succeeds_and_changes_nothing() {
    let mut s = seeded();
    assert!(s.delete(999).is_ok());
    let rows = s.list();
    assert_eq!(rows.len(), 1);
    assert_eq!(rows[0].acronym, "TLS");
}

#[test]
fn update_then_get_returns_new_fields_exactly() {
    let mut s = seeded();
    let a = Acronym {
        id: 1,
        acronym: "TLS2".to_string(),
        definition: "A newer definition".to_string(),
    };
    s.update(&a).unwrap();
    let got = s.get_by_id(1).unwrap();
    assert_eq!(got.id, 1);
    assert_eq!(got.acronym, "TLS2");
    assert_eq!(got.definition, "A newer definition");
    // Repeating the update leaves the same stored state.
    s.update(&a).unwrap();
    let again = s.get_by_id(1).unwrap();
    assert_eq!(again.acronym, "TLS2");
    assert_eq!(again.definition, "A newer definition");
}

#[test]
fn update_missing_id_is_not_found() {
    let mut s = seeded();
    let a = Acronym {
        id: 7,
        acronym: "X".to_string(),
        definition: "Y".to_string(),
    };
    assert_eq!(s.update(&a), Err(StoreError::NotFound));
    let rows = s.list();
    assert_eq!(rows.len(), 1);
    assert_eq!(rows[0].acronym, "TLS");
}

#[test]
fn get_on_empty_store_is_not_found_never_a_default() {
    let s = AcronymStore::new();
    assert!(matches!(s.get_by_id(999), Err(StoreError::NotFound)));
}

#[test]
fn search_returns_exactly_the_matching_rows() {
    let mut s = AcronymStore::new();
    s.insert("TLS".to_string(), "Transport Layer Security".to_string()).unwrap();
    s.insert("DNS".to_string(), "Domain Name System".to_string()).unwrap();
    s.insert("OSI".to_string(), "Open Systems Interconnection layers".to_string()).unwrap();
    let hits = s.search("Layer");
    assert_eq!(hits.len(), 1);
    assert_eq!(hits[0].acronym, "TLS");
    let hits = s.search("S");
    assert_eq!(hits.len(), 3);
    let hits = s.search("nothing like this");
    assert_eq!(hits.len(), 0);
}

#[test]
fn search_matches_on_acronym_column_too() {
    let mut s = AcronymStore::new();
    s.insert("TLS".to_string(), "Transport Layer Security".to_string()).unwrap();
    s.insert("DNS".to_string(), "Domain Name System".to_string()).unwrap();
    let hits = s.search("DN");
    assert_eq!(hits.len(), 1);
    assert_eq!(hits[0].acronym, "DNS");
}

#[test]
fn search_with_empty_term_returns_everything() {
    let mut s = seeded();
    s.insert("DNS".to_string(), "Domain Name System".to_string()).unwrap();
    assert_eq!(s.search("").len(), 2);
}

#[test]
fn hundred_inserts_all_succeed_with_unique_ids() {
    let mut s = AcronymStore::new();
    let mut ids: Vec<i32> = Vec::new();
    for n in 0..100 {
        let id = s
            .insert(format!("ACR{}", n), format!("definition {}", n))
            .unwrap();
        assert!(!ids.contains(&id));
        ids.push(id);
    }
    assert_eq!(s.list().len(), 100);
}

#[test]
fn new_acronym_is_empty() {
    let a = Acronym::new();
    assert_eq!(a.id, 0);
    assert_eq!(a.acronym, "");
    assert_eq!(a.definition, "");
    let d = Acronym::default();
    assert_eq!(d.id, 0);
    assert_eq!(d.acronym, "");
    assert_eq!(d.definition, "");
}
