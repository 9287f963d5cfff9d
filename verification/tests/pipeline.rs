use mathom::ntfs::fixture::{RecordBuilder, image, root_dir};
use mathom::ntfs::pipeline::{ChunkCounts, Sweep, Table};

fn sweep_image(mut img: Vec<u8>, record_size: usize) -> (Table, ChunkCounts) {
    let total = img.len() / record_size;
    let mut sweep = Sweep::new(total, record_size);
    let counts = sweep.consume(0, &mut img);
    (sweep.finish(), counts)
}

#[test]
fn sweep_places_base_records_and_counts() {
    let img = image(
        1024,
        vec![
            (5, root_dir()),
            (16, RecordBuilder::dir().name(5, 5, 1, "docs")),
            (
                17,
                RecordBuilder::file()
                    .name(16, 1, 1, "a.txt")
                    .data_nonresident(1000, 4096),
            ),
        ],
    );
    let (table, counts) = sweep_image(img, 1024);
    assert_eq!(counts.dirs, 2); // root + docs
    assert_eq!(counts.files, 1);
    assert_eq!(counts.bytes, 1000);
    let a = &table.records[17];
    assert_eq!(table.name(a), "a.txt");
    assert_eq!(a.logical, 1000);
    assert_eq!(a.alloc, 4096);
    assert_eq!(table.torn, 0);
}

#[test]
fn extension_record_data_lands_on_base() {
    // A "big fragmented file": name in the base record, $DATA header in
    // an extension record (the $ATTRIBUTE_LIST shape, without parsing it).
    let img = image(
        1024,
        vec![
            (5, root_dir()),
            (
                18,
                RecordBuilder::file()
                    .seq(2)
                    .attribute_list_stub()
                    .name(5, 5, 1, "big.mkv"),
            ),
            (
                19,
                RecordBuilder::file()
                    .extension_of(18, 2)
                    .data_nonresident(2 << 30, 2 << 30),
            ),
        ],
    );
    let (table, _) = sweep_image(img, 1024);
    let big = &table.records[18];
    assert_eq!(table.name(big), "big.mkv");
    assert_eq!(big.logical, 2 << 30);
    assert_eq!(big.alloc, 2 << 30);
    assert_eq!(table.dropped_patches, 0);
}

#[test]
fn chunked_consume_matches_single_shot() {
    let records = vec![
        (5, root_dir()),
        (16, RecordBuilder::dir().name(5, 5, 1, "sub")),
        (
            40,
            RecordBuilder::file()
                .name(16, 1, 1, "tail.bin")
                .data_nonresident(777, 4096),
        ),
    ];
    let img = image(1024, records);
    let total = img.len() / 1024;

    let (single, _) = sweep_image(img.clone(), 1024);

    let mut sweep = Sweep::new(total, 1024);
    let split = 20 * 1024; // record boundary in the middle
    let mut a = img[..split].to_vec();
    let mut b = img[split..].to_vec();
    sweep.consume(0, &mut a);
    sweep.consume(20, &mut b);
    let chunked = sweep.finish();

    for i in [5usize, 16, 40] {
        assert_eq!(chunked.records[i].logical, single.records[i].logical);
        assert_eq!(
            chunked.name(&chunked.records[i]),
            single.name(&single.records[i])
        );
    }
}

#[test]
fn torn_records_are_counted_not_fatal() {
    let mut img = image(
        1024,
        vec![
            (5, root_dir()),
            (
                16,
                RecordBuilder::file()
                    .name(5, 5, 1, "fine.txt")
                    .data_nonresident(10, 4096),
            ),
            (
                17,
                RecordBuilder::file()
                    .name(5, 5, 1, "torn.txt")
                    .data_nonresident(10, 4096),
            ),
        ],
    );
    img[17 * 1024 + 1022] ^= 0xFF; // tear record 17's second sector
    let (table, counts) = sweep_image(img, 1024);
    assert_eq!(table.torn, 1);
    assert_eq!(counts.files, 1, "the healthy file still lands");
    assert!(!table.records[17].is_base());
}

#[test]
fn patch_for_missing_base_is_dropped_and_counted() {
    let img = image(
        1024,
        vec![
            (5, root_dir()),
            (19, RecordBuilder::file().extension_of(42, 1)), // base 42 absent
        ],
    );
    let (table, _) = sweep_image(img, 1024);
    assert_eq!(table.dropped_patches, 1);
}
