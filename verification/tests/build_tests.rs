use trait_tables::builder::{Attribute, BuildError, Builder, EncodedItem, ItemRecord};
use trait_tables::dataset::finalize;
use trait_tables::sanitize;

fn rec(dna: &str, pairs: &[(&str, &str)]) -> ItemRecord {
    let mut attributes = Vec::new();
    for (n, v) in pairs {
        attributes.push(Attribute { trait_type: n.to_string(), value: v.to_string() });
    }
    ItemRecord { dna: dna.to_string(), attributes }
}

#[test]
fn sanitize_special_case() {
    assert_eq!(sanitize("1:1"), "Unique");
}

#[test]
fn sanitize_digit_prefix() {
    assert_eq!(sanitize("9Lives"), "_9Lives");
}

#[test]
fn sanitize_replacements_left_to_right() {
    assert_eq!(sanitize("a b:c-d$e=f\u{221E}g+h"), "ab_c_dSeisfInfinitygPlush");
}

#[test]
fn sanitize_each_rule() {
    assert_eq!(sanitize("X Y"), "XY");
    assert_eq!(sanitize("it's"), "its");
    assert_eq!(sanitize("a:b"), "a_b");
    assert_eq!(sanitize("a-b"), "a_b");
    assert_eq!(sanitize("$"), "S");
    assert_eq!(sanitize("a=b"), "aisb");
    assert_eq!(sanitize("\u{221E}"), "Infinity");
    assert_eq!(sanitize("a+b"), "aPlusb");
}

#[test]
fn sanitize_empty() {
    assert_eq!(sanitize(""), "");
}

#[test]
fn sanitize_idempotent_on_safe_input() {
    let once = sanitize("Background");
    let twice = sanitize(&once);
    assert_eq!(once, twice);
    assert_eq!(once, "Background");
}

#[test]
fn sanitize_digit_rule_after_replacement() {
    // the digit check runs on the replaced text, not the original
    assert_eq!(sanitize(" 5x"), "_5x");
}

#[test]
fn three_records_one_attribute() {
    let mut b = Builder::new();
    let mut items: Vec<EncodedItem> = Vec::new();
    for r in [
        rec("d1", &[("Background", "Blue")]),
        rec("d2", &[("Background", "Blue")]),
        rec("d3", &[("Background", "Red")]),
    ] {
        items.push(b.ingest(&r).unwrap());
    }
    let d = finalize(b, items).unwrap();
    assert_eq!(d.attributes.len(), 1);
    assert_eq!(d.attributes[0].name, "Background");
    assert_eq!(d.attributes[0].values, vec!["Blue".to_string(), "Red".to_string()]);
    assert_eq!(d.dnas, vec!["d1".to_string(), "d2".to_string(), "d3".to_string()]);
    assert_eq!(d.rows, vec![vec![0u8], vec![0u8], vec![1u8]]);
}

#[test]
fn unique_attribute_scenario() {
    let mut b = Builder::new();
    let item = b.ingest(&rec("d1", &[("1:1", "True")])).unwrap();
    assert_eq!(item.indices, vec![0u8]);
    let d = finalize(b, vec![item]).unwrap();
    assert_eq!(d.attributes[0].symbol, "Unique");
    assert_eq!(d.attributes[0].values, vec!["True".to_string()]);
    assert_eq!(d.rows, vec![vec![0u8]]);
}

#[test]
fn dedup_same_value_same_index() {
    let mut b = Builder::new();
    let i1 = b.ingest(&rec("d1", &[("Fur", "Gold")])).unwrap();
    let i2 = b.ingest(&rec("d2", &[("Fur", "Silver")])).unwrap();
    let i3 = b.ingest(&rec("d3", &[("Fur", "Gold")])).unwrap();
    assert_eq!(i1.indices, vec![0u8]);
    assert_eq!(i2.indices, vec![1u8]);
    assert_eq!(i3.indices, vec![0u8]);
}

#[test]
fn first_seen_order_and_stability() {
    let mut b = Builder::new();
    let mut items = Vec::new();
    items.push(b.ingest(&rec("d1", &[("Eyes", "Blue"), ("Hat", "None")])).unwrap());
    items.push(b.ingest(&rec("d2", &[("Eyes", "Green"), ("Hat", "Cap")])).unwrap());
    items.push(b.ingest(&rec("d3", &[("Eyes", "Blue"), ("Hat", "Cap")])).unwrap());
    assert_eq!(items[0].indices, vec![0u8, 0u8]);
    assert_eq!(items[1].indices, vec![1u8, 1u8]);
    assert_eq!(items[2].indices, vec![0u8, 1u8]);
    let d = finalize(b, items).unwrap();
    assert_eq!(d.attributes[0].name, "Eyes");
    assert_eq!(d.attributes[1].name, "Hat");
    assert_eq!(d.attributes[0].values, vec!["Blue".to_string(), "Green".to_string()]);
    assert_eq!(d.attributes[1].values, vec!["None".to_string(), "Cap".to_string()]);
}

#[test]
fn encoded_lengths_match_attribute_order() {
    let mut b = Builder::new();
    let mut items = Vec::new();
    items.push(b.ingest(&rec("d1", &[("A", "x"), ("B", "y"), ("C", "z")])).unwrap());
    items.push(b.ingest(&rec("d2", &[("A", "q"), ("B", "y"), ("C", "w")])).unwrap());
    let d = finalize(b, items).unwrap();
    assert_eq!(d.attributes.len(), 3);
    for row in &d.rows {
        assert_eq!(row.len(), d.attributes.len());
    }
}

#[test]
fn round_trip_reconstructs_records() {
    let mut b = Builder::new();
    let recs = vec![
        rec("d1", &[("Background", "Blue"), ("Fur", "Gold")]),
        rec("d2", &[("Background", "Red"), ("Fur", "Gold")]),
        rec("d3", &[("Background", "Blue"), ("Fur", "Silver")]),
    ];
    let mut items = Vec::new();
    for r in &recs {
        items.push(b.ingest(r).unwrap());
    }
    let d = finalize(b, items).unwrap();
    for (i, r) in recs.iter().enumerate() {
        let (dna, attrs) = d.read_item(i);
        assert_eq!(dna, r.dna);
        assert_eq!(attrs.len(), r.attributes.len());
        for (got, want) in attrs.iter().zip(r.attributes.iter()) {
            assert_eq!(got.trait_type, want.trait_type);
            assert_eq!(got.value, want.value);
        }
    }
}

#[test]
fn attribute_overflow_aborts() {
    let mut b = Builder::new();
    let mut items = Vec::new();
    for i in 0..256 {
        let r = rec(&format!("dna{i}"), &[("Serial", &format!("v{i}"))]);
        items.push(b.ingest(&r).unwrap());
    }
    let r = rec("dna256", &[("Serial", "v256")]);
    assert!(matches!(b.ingest(&r), Err(BuildError::AttributeOverflow)));
    assert!(!items.is_empty());
}

#[test]
fn overflow_only_on_new_values() {
    let mut b = Builder::new();
    for i in 0..256 {
        b.ingest(&rec(&format!("dna{i}"), &[("Serial", &format!("v{i}"))])).unwrap();
    }
    // a value seen before keeps its index; only a 257th distinct value fails
    let again = b.ingest(&rec("again", &[("Serial", "v17")])).unwrap();
    assert_eq!(again.indices, vec![17u8]);
}

#[test]
fn schema_inconsistency_detected() {
    let mut b = Builder::new();
    let mut items = Vec::new();
    items.push(b.ingest(&rec("d1", &[("A", "x"), ("B", "y")])).unwrap());
    items.push(b.ingest(&rec("d2", &[("A", "z")])).unwrap());
    assert!(matches!(finalize(b, items), Err(BuildError::SchemaInconsistency)));
}
