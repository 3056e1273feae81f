use ingodb::compaction::{
    CompactionAction, CompactionFilter, SizeTieredCompaction, SstMeta, TombstoneFilter,
    UcsCompaction,
};
use ingodb::document_id::DocumentId;
use ingodb::iblob::IBlob;
use ingodb::value::Value;

#[test]
fn test_no_compaction_needed() {
    let compaction = SizeTieredCompaction::new(4);
    let paths = vec![("a.sst".to_string(), None), ("b.sst".to_string(), None)];
    assert!(compaction.pick_compaction(&paths).is_none());
}

#[test]
fn test_ucs_level_computation() {
    // W=0: f=2, flush_size=1000
    let ucs = UcsCompaction::new(0, 1000);
    assert_eq!(ucs.fanout() as f64, 2.0);
    assert_eq!(ucs.threshold(), 2);

    assert_eq!(ucs.level_for_size(500), 0); // below flush size
    assert_eq!(ucs.level_for_size(1000), 0); // exactly flush size
    assert_eq!(ucs.level_for_size(1999), 0); // < 2 * flush
    assert_eq!(ucs.level_for_size(2000), 1); // 2x = L1
    assert_eq!(ucs.level_for_size(4000), 2); // 4x = L2
    assert_eq!(ucs.level_for_size(8000), 3); // 8x = L3
}

#[test]
fn test_ucs_tiered_mode() {
    // W=2: f=4, t=4
    let ucs = UcsCompaction::new(2, 1000);
    assert_eq!(ucs.fanout() as f64, 4.0);
    assert_eq!(ucs.threshold(), 4);

    assert_eq!(ucs.level_for_size(1000), 0);
    assert_eq!(ucs.level_for_size(4000), 1);
    assert_eq!(ucs.level_for_size(16000), 2);
}

#[test]
fn test_ucs_leveled_mode() {
    // W=-2: f=4, t=2
    let ucs = UcsCompaction::new(-2, 1000);
    assert_eq!(ucs.fanout() as f64, 4.0);
    assert_eq!(ucs.threshold(), 2);
}

fn make_meta(path: &str, min: u8, max: u8, size: u64, seq: u64) -> SstMeta {
    SstMeta {
        path: path.to_string(),
        min_id: DocumentId::from_bytes([min; 16]),
        max_id: DocumentId::from_bytes([max; 16]),
        file_size: size,
        seq,
    }
}

#[test]
fn test_ucs_overlap_detection() {
    // W=0: f=2, t=2, flush_size=1000
    let ucs = UcsCompaction::new(0, 1000);

    // Two L0 SSTables that overlap
    let metas = vec![
        make_meta("a.sst", 0x10, 0x50, 800, 1),
        make_meta("b.sst", 0x30, 0x80, 900, 2),
    ];

    let pick = ucs.pick_compaction(&metas);
    assert!(pick.is_some());
    let pick = pick.unwrap();
    assert_eq!(pick.inputs.len(), 2);
    assert_eq!(pick.output_level, 1);
}

#[test]
fn test_ucs_no_overlap_no_compaction() {
    let ucs = UcsCompaction::new(0, 1000);

    // Two L0 SSTables that don't overlap
    let metas = vec![
        make_meta("a.sst", 0x10, 0x20, 800, 1),
        make_meta("b.sst", 0x30, 0x40, 900, 2),
    ];

    assert!(ucs.pick_compaction(&metas).is_none());
}

#[test]
fn test_ucs_prefers_lowest_level() {
    // W=0: f=2, t=2
    let ucs = UcsCompaction::new(0, 1000);

    // Two overlapping L0 and two overlapping L1
    let metas = vec![
        make_meta("a.sst", 0x10, 0x50, 800, 1),  // L0
        make_meta("b.sst", 0x30, 0x80, 900, 2),  // L0
        make_meta("c.sst", 0x10, 0x50, 2500, 3), // L1
        make_meta("d.sst", 0x30, 0x80, 3000, 4), // L1
    ];

    let pick = ucs.pick_compaction(&metas).unwrap();
    // Should pick L0 (lowest level)
    assert!(pick.inputs.contains(&"a.sst".to_string()));
    assert!(pick.inputs.contains(&"b.sst".to_string()));
    assert_eq!(pick.output_level, 1);
}

#[test]
fn test_tombstone_filter_purges_at_max_level() {
    let id = DocumentId::new();
    let tomb = IBlob::tombstone(id);
    let live = IBlob::from_pairs(vec![("x", Value::U64(1))]);

    // output_level > max_level: purge
    let mut filter = TombstoneFilter::new(3, 2, false);
    assert!(matches!(filter.filter(&id, &tomb), CompactionAction::Drop));
    assert!(matches!(filter.filter(&id, &live), CompactionAction::Keep));

    // output_level <= max_level: keep tombstone
    let mut filter = TombstoneFilter::new(1, 2, false);
    assert!(matches!(filter.filter(&id, &tomb), CompactionAction::Keep));
}

#[test]
fn snapshots_keep_tombstones() {
    let id = DocumentId::new();
    let mut filter = TombstoneFilter::new(3, 2, true);
    assert!(matches!(
        filter.filter(&id, &IBlob::tombstone(id)),
        CompactionAction::Keep
    ));
    assert!(!TombstoneFilter::new(2, 2, false).purge);
}

#[test]
fn levels_are_exact_at_powers_of_the_fanout() {
    let ten = UcsCompaction::new(8, 1);
    assert_eq!(ten.fanout(), 10);
    assert_eq!(ten.level_for_size(999), 2);
    assert_eq!(ten.level_for_size(1000), 3);
    assert_eq!(ten.level_for_size(0), 0);
    let two = UcsCompaction::new(0, 0);
    assert_eq!(two.level_for_size(u64::MAX), 63);
    assert_eq!(two.level_for_size(1 << 63), 63);
    assert_eq!(UcsCompaction::new(i32::MAX, 1).threshold(), 2_147_483_649);
    assert_eq!(UcsCompaction::new(i32::MIN, 1).fanout(), 2_147_483_650);
}

#[test]
fn the_longest_chain_of_a_level_is_picked_first() {
    let ucs = UcsCompaction::new(0, 1000);
    let metas = vec![
        make_meta("p.sst", 0x10, 0x20, 800, 1),
        make_meta("q.sst", 0x20, 0x28, 800, 2),
        make_meta("z.sst", 0xF0, 0xF1, 800, 3),
        make_meta("c.sst", 0x60, 0x70, 800, 4),
        make_meta("a.sst", 0x40, 0x90, 800, 5),
        make_meta("b.sst", 0x80, 0xA0, 800, 6),
        make_meta("big.sst", 0x00, 0xFF, 5000, 7),
    ];
    let pick = ucs.pick_compaction(&metas).unwrap();
    assert_eq!(pick.inputs, vec!["a.sst", "c.sst", "b.sst"]);
    assert_eq!(pick.max_level, 2);

    let picks = ucs.pick_all_compactions(&metas);
    assert_eq!(picks.len(), 2);
    assert_eq!(picks[0].inputs, pick.inputs);
    assert_eq!(picks[1].inputs, vec!["p.sst", "q.sst"]);
    for p in &picks {
        assert_eq!(p.output_level, 1);
        assert_eq!(p.max_level, 2);
    }
}

#[test]
fn all_levels_give_jobs_without_common_inputs() {
    let ucs = UcsCompaction::new(0, 1000);
    let metas = vec![
        make_meta("a.sst", 0x10, 0x50, 800, 1),
        make_meta("b.sst", 0x30, 0x80, 900, 2),
        make_meta("c.sst", 0x10, 0x50, 2500, 3),
        make_meta("d.sst", 0x30, 0x80, 3000, 4),
    ];
    let picks = ucs.pick_all_compactions(&metas);
    assert_eq!(picks.len(), 2);
    assert_eq!(picks[0].inputs, vec!["a.sst", "b.sst"]);
    assert_eq!(picks[0].output_level, 1);
    assert_eq!(picks[1].inputs, vec!["c.sst", "d.sst"]);
    assert_eq!(picks[1].output_level, 2);
    assert!(ucs.pick_all_compactions(&[]).is_empty());
    assert!(ucs.pick_compaction(&[]).is_none());
}

#[test]
fn tiers_hold_files_within_a_factor_of_two() {
    let compaction = SizeTieredCompaction::new(3);
    let sized = |name: &str, size: u64| (name.to_string(), Some(size));
    let files = vec![
        sized("big1", 1000),
        sized("s2", 20),
        sized("big2", 1900),
        ("gone".to_string(), None),
        sized("s1", 10),
        sized("big3", 2000),
        sized("s3", 21),
    ];
    assert_eq!(
        compaction.pick_compaction(&files),
        Some(vec![
            "big1".to_string(),
            "big2".to_string(),
            "big3".to_string()
        ])
    );
    // Sizes that do not double within the range of the integers.
    let huge = vec![
        sized("a", u64::MAX),
        sized("b", u64::MAX / 2 + 1),
        sized("c", u64::MAX - 1),
    ];
    assert_eq!(
        compaction.pick_compaction(&huge),
        Some(vec!["b".to_string(), "c".to_string(), "a".to_string()])
    );
    assert_eq!(SizeTieredCompaction::new(0).pick_compaction(&[]), Some(vec![]));
}

#[test]
fn no_group_is_left_after_all_picks() {
    let ucs = UcsCompaction::new(0, 1000);
    // Three chains at the lowest level, of three, two and one tables, and one pair above.
    let metas = vec![
        make_meta("a.sst", 0, 10, 500, 1),
        make_meta("b.sst", 5, 20, 500, 2),
        make_meta("c.sst", 20, 30, 500, 3),
        make_meta("d.sst", 40, 50, 500, 4),
        make_meta("e.sst", 45, 60, 500, 5),
        make_meta("f.sst", 70, 80, 500, 6),
        make_meta("g.sst", 0, 50, 2000, 7),
        make_meta("h.sst", 50, 90, 2000, 8),
    ];
    let picks = ucs.pick_all_compactions(&metas);
    let inputs: Vec<Vec<&str>> = picks
        .iter()
        .map(|pick| pick.inputs.iter().map(|path| path.as_str()).collect())
        .collect();
    assert_eq!(
        inputs,
        vec![
            vec!["a.sst", "b.sst", "c.sst"],
            vec!["d.sst", "e.sst"],
            vec!["g.sst", "h.sst"],
        ]
    );
    let left: Vec<SstMeta> = metas
        .into_iter()
        .filter(|meta| !inputs.iter().any(|paths| paths.contains(&meta.path.as_str())))
        .collect();
    assert_eq!(left.len(), 1);
    assert!(ucs.pick_all_compactions(&left).is_empty());
}

#[test]
fn jobs_are_the_chains_with_enough_tables() {
    let ucs = UcsCompaction::new(1, 1000);
    assert_eq!(ucs.threshold(), 3);
    let metas = vec![
        make_meta("e.sst", 60, 75, 500, 5),
        make_meta("c.sst", 20, 30, 500, 3),
        make_meta("x.sst", 0, 90, 4000, 9),
        make_meta("a.sst", 0, 10, 500, 1),
        make_meta("f.sst", 70, 80, 500, 6),
        make_meta("b.sst", 10, 20, 500, 2),
        make_meta("d.sst", 40, 50, 500, 4),
        make_meta("g.sst", 75, 78, 500, 7),
        make_meta("h.sst", 5, 6, 500, 8),
    ];
    let picks = ucs.pick_all_compactions(&metas);
    let inputs: Vec<Vec<&str>> = picks
        .iter()
        .map(|pick| pick.inputs.iter().map(|path| path.as_str()).collect())
        .collect();
    assert_eq!(
        inputs,
        vec![
            vec!["a.sst", "h.sst", "b.sst", "c.sst"],
            vec!["e.sst", "f.sst", "g.sst"],
        ]
    );
    for pick in &picks {
        assert_eq!(pick.output_level, 1);
        assert_eq!(pick.max_level, 1);
    }
    let first = ucs.pick_compaction(&metas).unwrap();
    assert_eq!(first.inputs, picks[0].inputs);
    assert_eq!(first.output_level, picks[0].output_level);
}
