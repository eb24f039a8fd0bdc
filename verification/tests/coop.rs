use optiq::wok::wokcore::coop::LearnedIndex;
use optiq::wok::wokcore::design::DataStructure;
use optiq::wokeval::io_model::{DistributionAwareIOModel, LayoutClass};

#[test]
fn new_index_has_empty_buffer() {
    let index = LearnedIndex::new("PGM", 8);
    assert_eq!(index.model(), "PGM");
    assert_eq!(index.buffer_capacity(), 8);
    assert!(index.buffered_bytes().is_empty());
}

#[test]
fn writes_accumulate_until_full() {
    let mut index = LearnedIndex::new("PGM", 5);
    assert_eq!(index.write(&[1, 2]), Ok(()));
    assert_eq!(index.write(&[3, 4, 5]), Ok(()));
    assert_eq!(index.buffered_bytes(), &vec![1, 2, 3, 4, 5]);
}

#[test]
fn overflowing_write_flushes() {
    let mut index = LearnedIndex::new("PGM", 5);
    assert_eq!(index.write(&[1, 2, 3]), Ok(()));
    assert_eq!(index.write(&[4, 5, 6]), Err("COOP buffer full, flushed".to_string()));
    assert!(index.buffered_bytes().is_empty());
    // after the flush the whole capacity is free again
    assert_eq!(index.write(&[7, 8, 9, 10, 11]), Ok(()));
    assert_eq!(index.buffered_bytes(), &vec![7, 8, 9, 10, 11]);
}

#[test]
fn zero_capacity_accepts_only_empty_writes() {
    let mut index = LearnedIndex::new("FITing-Tree", 0);
    assert_eq!(index.write(&[]), Ok(()));
    assert!(index.write(&[0]).is_err());
}

#[test]
fn layout_of_learned_index_is_learned() {
    let index = LearnedIndex::new("PGM", 5_000_000);
    let layout = index.get_layout();
    assert_eq!(layout.len(), 1);
    match &layout[0] {
        DataStructure::Learned { kind } => assert_eq!(kind, "PGM"),
        _ => panic!("expected a learned structure"),
    }
    assert_eq!(DistributionAwareIOModel::new().classify(&layout), LayoutClass::Learned);
}

#[test]
fn compose_puts_the_buffer_in_front_of_an_lsm_tree() {
    let index = LearnedIndex::new("PGM", 5_000_000);
    let combined = index.compose();
    assert_eq!(combined.learned, "PGM");
    assert_eq!(combined.classical, "LSMTree");
    assert_eq!(combined.accelerators.len(), 1);
    assert_eq!(combined.accelerators[0].kind, "Buffer");
    assert_eq!(
        combined.accelerators[0].config,
        vec![("size".to_string(), "5000000".to_string())]
    );
}
