use pdfmerge::keys::{
    catalog_name, count_key, kids_key, outline_name, outlines_name, page_name, pages_name, parent_key, role_for,
    root_key, same_bytes,
};
use pdfmerge::label::{page_label, push_decimal};
use pdfmerge::model::Role;
use pdfmerge::rules::MergeError;

#[test]
fn labels_are_page_and_a_number() {
    assert_eq!(page_label(1), "Page_1");
    assert_eq!(page_label(2), "Page_2");
    assert_eq!(page_label(10), "Page_10");
    assert_eq!(page_label(0), "Page_0");
    assert_eq!(page_label(4294967295), "Page_4294967295");
}

#[test]
fn decimal_is_appended() {
    let mut text = String::from("n=");
    push_decimal(&mut text, 907);
    assert_eq!(text, "n=907");
    push_decimal(&mut text, 0);
    assert_eq!(text, "n=9070");
}

#[test]
fn decimal_agrees_with_the_standard_one() {
    for n in [0u32, 7, 9, 10, 11, 99, 100, 101, 999, 1000, 65535, 1234567890, u32::MAX] {
        let mut text = String::new();
        push_decimal(&mut text, n);
        assert_eq!(text, n.to_string());
    }
}

#[test]
fn keys_are_what_they_are_called() {
    assert_eq!(catalog_name(), b"Catalog");
    assert_eq!(pages_name(), b"Pages");
    assert_eq!(page_name(), b"Page");
    assert_eq!(outlines_name(), b"Outlines");
    assert_eq!(outline_name(), b"Outline");
    assert_eq!(parent_key(), b"Parent");
    assert_eq!(count_key(), b"Count");
    assert_eq!(kids_key(), b"Kids");
    assert_eq!(root_key(), b"Root");
}

#[test]
fn bytes_are_compared() {
    assert!(same_bytes(&b"Page".to_vec(), &b"Page".to_vec()));
    assert!(!same_bytes(&b"Page".to_vec(), &b"Pages".to_vec()));
    assert!(!same_bytes(&b"Page".to_vec(), &b"Pagf".to_vec()));
    assert!(same_bytes(&Vec::new(), &Vec::new()));
}

#[test]
fn type_names_have_their_roles() {
    assert_eq!(role_for(&Some(b"Catalog".to_vec())), Role::Catalog);
    assert_eq!(role_for(&Some(b"Pages".to_vec())), Role::Pages);
    assert_eq!(role_for(&Some(b"Page".to_vec())), Role::Page);
    assert_eq!(role_for(&Some(b"Outlines".to_vec())), Role::Outline);
    assert_eq!(role_for(&Some(b"Outline".to_vec())), Role::Outline);
    assert_eq!(role_for(&Some(b"Font".to_vec())), Role::Other);
    assert_eq!(role_for(&Some(b"catalog".to_vec())), Role::Other);
    assert_eq!(role_for(&Some(b"Linearized".to_vec())), Role::Other);
    assert_eq!(role_for(&Some(Vec::new())), Role::Other);
    assert_eq!(role_for(&None), Role::Other);
}

#[test]
fn errors_have_messages() {
    assert_eq!(MergeError::MissingPages.message(), "Pages root not found");
    assert_eq!(MergeError::MissingCatalog.message(), "Catalog root not found.");
    assert_eq!(MergeError::IdSpaceExhausted.message(), "Too many objects");
}
