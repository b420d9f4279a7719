use skript_parser::text::TextRange;

#[test]
fn validates_utf8_byte_boundaries() {
    let source = "a日本語🙂z";
    assert!(TextRange::new(1, 10).is_valid_for(source));
    assert_eq!(TextRange::new(1, 10).slice(source), Some("日本語"));
    assert!(!TextRange::new(2, 10).is_valid_for(source));
    assert!(!TextRange::new(10, 9).is_valid_for(source));
}

#[test]
fn ranges_report_length_emptiness_and_containment() {
    let range = TextRange::new(2, 7);
    assert_eq!(range.len(), 5);
    assert!(!range.is_empty());
    assert!(TextRange::empty(4).is_empty());
    assert_eq!(TextRange::new(7, 2).len(), 0);
    assert!(range.contains(TextRange::new(3, 7)));
    assert!(!range.contains(TextRange::new(1, 3)));
    assert_eq!(range.intersection(TextRange::new(5, 9)), Some(TextRange::new(5, 7)));
    assert_eq!(range.intersection(TextRange::new(7, 9)), None);
}

#[test]
fn slices_only_valid_ranges() {
    let source = "héllo";
    assert_eq!(TextRange::new(0, 1).slice(source), Some("h"));
    assert_eq!(TextRange::new(1, 3).slice(source), Some("é"));
    assert_eq!(TextRange::new(2, 3).slice(source), None);
    assert_eq!(TextRange::new(0, 99).slice(source), None);
    assert!(TextRange::empty(source.len()).is_valid_for(source));
}

#[test]
fn ranges_order_by_start_then_end() {
    assert!(TextRange::new(1, 9) < TextRange::new(2, 3));
    assert!(TextRange::new(2, 3) < TextRange::new(2, 4));
    assert!(TextRange::new(2, 4) <= TextRange::new(2, 4));
    assert!(!(TextRange::new(5, 5) < TextRange::new(4, 9)));
    let mut ranges = vec![TextRange::new(3, 4), TextRange::new(1, 2), TextRange::new(1, 1)];
    ranges.sort();
    assert_eq!(ranges, vec![TextRange::new(1, 1), TextRange::new(1, 2), TextRange::new(3, 4)]);
}
