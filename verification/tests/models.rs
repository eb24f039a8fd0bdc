use optiq::text::to_decimal;
use optiq::db::postgres::get_explain_output;
use optiq::plansense::caching::wok_cache::WokKVStore;
use optiq::plansense::fingerprint::fingerprint::{plan_hash, to_lower_hex};
use optiq::wok::wokcore::design::DataStructure;
use optiq::wokeval::cost::{cloud_tier, CloudTier, CostModel};
use optiq::wokeval::io_model::{DistributionAwareIOModel, LayoutClass};

#[test]
fn cloud_tiers() {
    assert_eq!(cloud_tier("aws"), CloudTier::Aws);
    assert_eq!(cloud_tier("azure"), CloudTier::Azure);
    assert_eq!(cloud_tier("gcp"), CloudTier::Other);
    assert_eq!(cloud_tier("AWS"), CloudTier::Other);
    assert_eq!(CostModel::new("azure").tier(), CloudTier::Azure);
}

#[test]
fn layout_classes() {
    let model = DistributionAwareIOModel::new();
    let cleared = vec![
        DataStructure::Classical { kind: "LSMTree".to_string() },
        DataStructure::Cleared { kind: "PGM+LSMTree".to_string() },
    ];
    assert_eq!(model.classify(&cleared), LayoutClass::Cleared);
    let both = vec![
        DataStructure::Cleared { kind: "PGM+LSMTree".to_string() },
        DataStructure::Learned { kind: "PGM".to_string() },
    ];
    assert_eq!(model.classify(&both), LayoutClass::Learned);
    assert_eq!(model.classify(&vec![]), LayoutClass::Classical);
    let classical = vec![DataStructure::Classical { kind: "BTree".to_string() }];
    assert_eq!(model.classify(&classical), LayoutClass::Classical);
}

#[test]
fn hex_encoding() {
    assert_eq!(to_lower_hex(&[]), "");
    assert_eq!(to_lower_hex(&[0x00, 0x0f, 0xa0, 0xff]), "000fa0ff");
}

#[test]
fn plan_hash_is_md5_hex() {
    assert_eq!(plan_hash(""), "d41d8cd98f00b204e9800998ecf8427e");
    assert_eq!(plan_hash("abc"), "900150983cd24fb0d6963f7d28e17f72");
    assert_eq!(plan_hash("abc").len(), 32);
}

#[test]
fn explain_output_is_a_seq_scan() {
    let out = get_explain_output("q0");
    assert_eq!(
        out,
        r#"{"Plan": {"Node Type": "Seq Scan", "Total Cost": 100.0, "Plan Rows": 1000}}"#
    );
    assert_eq!(get_explain_output("another"), out);
}

#[test]
fn store_reads_back_writes() {
    let mut store = WokKVStore::new();
    assert_eq!(store.get("a"), None);
    store.put("a", b"one");
    store.put("b", b"two");
    assert_eq!(store.get("a"), Some(b"one".to_vec()));
    store.put("a", b"three");
    assert_eq!(store.get("a"), Some(b"three".to_vec()));
    assert_eq!(store.get("b"), Some(b"two".to_vec()));
    assert_eq!(store.get("c"), None);
}

#[test]
fn decimal_numerals() {
    assert_eq!(to_decimal(0), "0");
    assert_eq!(to_decimal(7), "7");
    assert_eq!(to_decimal(10), "10");
    assert_eq!(to_decimal(5_000_000), "5000000");
    assert_eq!(to_decimal(u64::MAX), u64::MAX.to_string());
}
