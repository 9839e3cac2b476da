use pdfmerge::names::{is_input_name, name_lt, sort_by_name};

fn bytes(text: &str) -> Vec<u8> {
    text.as_bytes().to_vec()
}

#[test]
fn names_ending_in_pdf_are_inputs() {
    assert!(is_input_name(&bytes("a.pdf")));
    assert!(is_input_name(&bytes("report 2024.pdf")));
    assert!(is_input_name(&bytes(".pdf")));
}

#[test]
fn other_names_are_no_inputs() {
    assert!(!is_input_name(&bytes("a.txt")));
    assert!(!is_input_name(&bytes("pdf")));
    assert!(!is_input_name(&bytes("a.PDF")));
    assert!(!is_input_name(&bytes("a.pdf.bak")));
    assert!(!is_input_name(&bytes("")));
    assert!(!is_input_name(&bytes("apdf")));
}

#[test]
fn the_reserved_name_is_no_input() {
    assert!(!is_input_name(&bytes("merged.pdf")));
    assert!(is_input_name(&bytes("merged2.pdf")));
    assert!(is_input_name(&bytes("Merged.pdf")));
    assert!(is_input_name(&bytes("xmerged.pdf")));
}

#[test]
fn names_are_ordered_byte_by_byte() {
    assert!(name_lt(&bytes("a.pdf"), &bytes("b.pdf")));
    assert!(!name_lt(&bytes("b.pdf"), &bytes("a.pdf")));
    assert!(name_lt(&bytes("B.pdf"), &bytes("a.pdf")));
    assert!(name_lt(&bytes("10.pdf"), &bytes("9.pdf")));
    assert!(name_lt(&vec![0x7f], &vec![0x80]));
}

#[test]
fn a_prefix_comes_first() {
    assert!(name_lt(&bytes("a"), &bytes("ab")));
    assert!(!name_lt(&bytes("ab"), &bytes("a")));
    assert!(name_lt(&bytes(""), &bytes("a")));
}

#[test]
fn no_name_comes_before_itself() {
    assert!(!name_lt(&bytes("a.pdf"), &bytes("a.pdf")));
    assert!(!name_lt(&bytes(""), &bytes("")));
}

#[test]
fn byte_order_is_the_order_of_strings() {
    let names = ["", "a", "ab", "b", "B", "é", "z", "10", "9", "a.pdf", "a b.pdf"];
    for one in names {
        for other in names {
            assert_eq!(name_lt(&bytes(one), &bytes(other)), one < other, "{one:?} {other:?}");
        }
    }
}

#[test]
fn sorting_puts_names_in_order() {
    let sorted = sort_by_name(vec![(1, bytes("c")), (2, bytes("a")), (3, bytes("b")), (4, bytes("ab"))]);
    assert_eq!(sorted, vec![(2, bytes("a")), (4, bytes("ab")), (3, bytes("b")), (1, bytes("c"))]);
}

#[test]
fn sorting_keeps_the_order_of_equal_names() {
    let sorted = sort_by_name(vec![(1, bytes("b")), (2, bytes("a")), (3, bytes("b")), (4, bytes("a"))]);
    assert_eq!(sorted, vec![(2, bytes("a")), (4, bytes("a")), (1, bytes("b")), (3, bytes("b"))]);
}

#[test]
fn sorting_nothing_gives_nothing() {
    let sorted = sort_by_name(Vec::<(u8, Vec<u8>)>::new());
    assert!(sorted.is_empty());
}

#[test]
fn sorting_ignores_the_order_of_arrival() {
    let one = sort_by_name(vec![(1, bytes("x")), (2, bytes("y")), (3, bytes("z"))]);
    let other = sort_by_name(vec![(3, bytes("z")), (1, bytes("x")), (2, bytes("y"))]);
    let third = sort_by_name(vec![(2, bytes("y")), (3, bytes("z")), (1, bytes("x"))]);
    assert_eq!(one, other);
    assert_eq!(one, third);
}

#[test]
fn sorting_agrees_with_the_standard_sort() {
    let names = ["q", "a", "zz", "", "m", "a", "ab", "Z", "é", "0"];
    let items: Vec<(usize, Vec<u8>)> = names.iter().enumerate().map(|(i, n)| (i, bytes(n))).collect();
    let mut expected = items.clone();
    expected.sort_by(|a, b| a.1.cmp(&b.1));
    assert_eq!(sort_by_name(items), expected);
}
