use shoju::log::InitError;
use shoju::names::format_base_offset;
use shoju::partition::{Partition, SegmentImage};
use shoju::record::Record;
use shoju::segment::SegmentError;

const LOG_MAX_SIZE: usize = 4096;
const OFFSET_INTERVAL: usize = 16;

fn fresh_partition() -> Partition {
    Partition::init(vec![], LOG_MAX_SIZE, OFFSET_INTERVAL).unwrap()
}

/// Copies the partition's state as the bytes its directory would hold.
fn images_of(p: &Partition) -> Vec<SegmentImage> {
    let mut images = vec![];
    let mut j = 0;
    while j < p.segment_count() {
        images.push(SegmentImage {
            name: format_base_offset(p.base_offset_of(j)),
            log_bytes: p.log_image_of(j).clone(),
            index_bytes: p.index_bytes_of(j),
        });
        j += 1;
    }
    images
}

#[test]
fn log_test_new() {
    let log = shoju::log::Log::new(0, 10);
    assert_eq!(log.base_offset, 0);
    assert_eq!(log.current_offset, 0);
    assert_eq!(log.size, 0);
}

#[test]
fn test_can_fit() {
    let log = shoju::log::Log::new(0, 10);
    assert!(log.can_fit(10));
    assert!(log.can_fit(11) == false);
}

#[test]
fn index_test_new_empty() {
    let index = shoju::index::Index::new(0, 10);
    assert_eq!(index.base_offset, 0);
    assert_eq!(index.offset_interval, 10);
    assert_eq!(index.size, 0);
}

#[test]
fn tiny_roundtrip() {
    let mut partition = fresh_partition();
    partition.append_record(Some(b"k".to_vec()), &[0x01, 0x02]);
    let record = partition.find_record(0).unwrap();
    assert_eq!(record.offset, 0);
    assert_eq!(record.key, Some(b"k".to_vec()));
    assert_eq!(record.value, vec![0x01, 0x02]);
}

#[test]
fn offsets_are_assigned_in_order() {
    let mut partition = fresh_partition();
    let mut k: u64 = 0;
    while k < 40 {
        partition.append_record(None, &[k as u8]);
        k += 1;
    }
    let mut o: u64 = 0;
    while o < 40 {
        let record = partition.find_record(o).unwrap();
        assert_eq!(record.offset, o);
        assert_eq!(record.value, vec![o as u8]);
        o += 1;
    }
    assert_eq!(
        partition.find_record(40),
        Err(SegmentError::OffsetOutOfRange)
    );
}

#[test]
fn sparse_index_sampling() {
    let mut partition = fresh_partition();
    for _ in 0..17 {
        partition.append_record(None, &[0, 0, 1, 0]);
    }
    // One sample: relative offset 16, at byte position 16 frames of 36 bytes.
    let index_bytes = partition.index_bytes_of(0);
    assert_eq!(index_bytes.len(), 8);
    assert_eq!(index_bytes, vec![0, 0, 0, 16, 0, 0, 2, 64]);
}

#[test]
fn in_bucket_scan() {
    let mut partition = fresh_partition();
    for _ in 0..48 {
        partition.append_record(None, &[0, 0, 1, 0]);
    }
    let record = partition.find_record(5).unwrap();
    assert_eq!(record.offset, 5);
    assert_eq!(record.value, vec![0, 0, 1, 0]);
}

#[test]
fn across_bucket_scan() {
    let mut partition = fresh_partition();
    for _ in 0..48 {
        partition.append_record(None, &[0, 0, 1, 0]);
    }
    let record = partition.find_record(37).unwrap();
    assert_eq!(record.offset, 37);
    assert_eq!(record.value, vec![0, 0, 1, 0]);
}

#[test]
fn segment_roll() {
    // Room for exactly 60 frames of 36 bytes per segment.
    let mut partition = Partition::init(vec![], 60 * 36, OFFSET_INTERVAL).unwrap();
    for _ in 0..120 {
        partition.append_record(None, &[0, 0, 1, 0]);
    }
    assert_eq!(partition.segment_count(), 2);
    assert_eq!(partition.base_offset_of(0), 0);
    assert_eq!(partition.base_offset_of(1), 60);
    assert_eq!(
        format_base_offset(partition.base_offset_of(0)),
        "00000000000000000000"
    );
    assert_eq!(
        format_base_offset(partition.base_offset_of(1)),
        "00000000000000000060"
    );
    for o in [0u64, 59, 60, 61, 119] {
        assert_eq!(partition.find_record(o).unwrap().offset, o);
    }
    assert_eq!(
        partition.find_record(120),
        Err(SegmentError::OffsetOutOfRange)
    );
}

#[test]
fn capacity_and_roll_point() {
    let max = 60 * 36;
    let mut partition = Partition::init(vec![], max, OFFSET_INTERVAL).unwrap();
    for _ in 0..60 {
        partition.append_record(None, &[0, 0, 1, 0]);
    }
    assert_eq!(partition.segment_count(), 1);
    assert_eq!(partition.log_size_of(0), max);
    // The 61st record no longer fits: a new segment starts at the latest
    // offset.
    partition.append_record(None, &[0, 0, 1, 0]);
    assert_eq!(partition.segment_count(), 2);
    assert_eq!(partition.base_offset_of(1), 60);
    assert!(partition.log_size_of(1) <= max);
}

#[test]
fn durability_one_record() {
    let mut partition = fresh_partition();
    partition.append_record(Some(b"key".to_vec()), &[7, 7, 7]);
    let before = partition.find_record(0).unwrap();
    let images = images_of(&partition);
    drop(partition);
    let reopened = Partition::init(images, LOG_MAX_SIZE, OFFSET_INTERVAL).unwrap();
    assert_eq!(reopened.find_record(0).unwrap(), before);
}

#[test]
fn restart_durability() {
    let mut partition = fresh_partition();
    let mut k: u64 = 0;
    while k < 100 {
        partition.append_record(None, &[k as u8, 0, 1, 0]);
        k += 1;
    }
    let before_0 = partition.find_record(0).unwrap();
    let before_50 = partition.find_record(50).unwrap();
    let before_99 = partition.find_record(99).unwrap();
    let images = images_of(&partition);
    drop(partition);
    let reopened = Partition::init(images, LOG_MAX_SIZE, OFFSET_INTERVAL).unwrap();
    assert_eq!(reopened.find_record(0).unwrap(), before_0);
    assert_eq!(reopened.find_record(50).unwrap(), before_50);
    assert_eq!(reopened.find_record(99).unwrap(), before_99);
    assert_eq!(
        reopened.find_record(100),
        Err(SegmentError::OffsetOutOfRange)
    );
}

#[test]
fn restart_durability_across_segments() {
    let mut partition = Partition::init(vec![], 60 * 36, OFFSET_INTERVAL).unwrap();
    let mut k: u64 = 0;
    while k < 120 {
        partition.append_record(None, &[k as u8, 0, 1, 0]);
        k += 1;
    }
    let mut before = vec![];
    for o in [0u64, 59, 60, 119] {
        before.push(partition.find_record(o).unwrap());
    }
    let images = images_of(&partition);
    drop(partition);
    let mut reopened = Partition::init(images, 60 * 36, OFFSET_INTERVAL).unwrap();
    for (i, o) in [0u64, 59, 60, 119].iter().enumerate() {
        assert_eq!(reopened.find_record(*o).unwrap(), before[i]);
    }
    // The reopened partition accepts further appends and rolls over, since
    // the recovered tail keeps its persisted length.
    reopened.append_record(None, &[9, 9, 9, 9]);
    let appended = reopened.find_record(120).unwrap();
    assert_eq!(appended.offset, 120);
    assert_eq!(appended.value, vec![9, 9, 9, 9]);
}

#[test]
fn init_rejects_bad_stem() {
    let image = SegmentImage {
        name: "not-a-stem".to_string(),
        log_bytes: vec![],
        index_bytes: vec![],
    };
    assert_eq!(
        Partition::init(vec![image], LOG_MAX_SIZE, OFFSET_INTERVAL).err(),
        Some(InitError::NameFormat)
    );
}

#[test]
fn init_rejects_oversized_log() {
    let image = SegmentImage {
        name: format_base_offset(0),
        log_bytes: vec![0; LOG_MAX_SIZE + 1],
        index_bytes: vec![],
    };
    assert_eq!(
        Partition::init(vec![image], LOG_MAX_SIZE, OFFSET_INTERVAL).err(),
        Some(InitError::CorruptLog)
    );
}

#[test]
fn init_rejects_wrong_index() {
    let mut partition = fresh_partition();
    for _ in 0..17 {
        partition.append_record(None, &[0, 0, 1, 0]);
    }
    let mut images = images_of(&partition);
    drop(partition);
    images[0].index_bytes = vec![0, 0, 0, 1, 0, 0, 0, 0];
    assert_eq!(
        Partition::init(images, LOG_MAX_SIZE, OFFSET_INTERVAL).err(),
        Some(InitError::CorruptIndex)
    );
}

#[test]
fn init_rejects_gap_in_offsets() {
    // A lone segment whose base is not zero leaves offsets uncovered.
    let mut partition = Partition::init(vec![], 60 * 36, OFFSET_INTERVAL).unwrap();
    for _ in 0..61 {
        partition.append_record(None, &[0, 0, 1, 0]);
    }
    let mut images = images_of(&partition);
    drop(partition);
    images.remove(0);
    assert_eq!(
        Partition::init(images, 60 * 36, OFFSET_INTERVAL).err(),
        Some(InitError::NonContiguous)
    );
}

#[test]
fn records_keep_their_bytes() {
    let mut partition = fresh_partition();
    partition.append_record(Some(b"alpha".to_vec()), b"first");
    partition.append_record(None, b"");
    partition.append_record(Some(b"beta".to_vec()), b"third");
    let r0: Record = partition.find_record(0).unwrap();
    assert_eq!(r0.key, Some(b"alpha".to_vec()));
    assert_eq!(r0.value, b"first".to_vec());
    let r1 = partition.find_record(1).unwrap();
    assert_eq!(r1.key, None);
    assert_eq!(r1.value, Vec::<u8>::new());
    let r2 = partition.find_record(2).unwrap();
    assert_eq!(r2.key, Some(b"beta".to_vec()));
    assert_eq!(r2.value, b"third".to_vec());
}

#[test]
fn segment_append_and_read() {
    let mut segment = shoju::segment::Segment::new(0, 16, 4096, true);
    for i in 0..15u8 {
        segment.append_record(Some(b"key".to_vec()), &[i, 0, 0]).unwrap();
    }
    assert_eq!(segment.latest_offset(), 15);
    let record = segment.read_at(0).unwrap();
    assert_eq!(record.offset, 0);
    assert_eq!(record.value, vec![0, 0, 0]);
    let record = segment.read_at(14).unwrap();
    assert_eq!(record.offset, 14);
    assert_eq!(record.value, vec![14, 0, 0]);
    assert_eq!(segment.read_at(15), Err(SegmentError::OffsetOutOfRange));
}

#[test]
fn index_entries_are_interval_multiples() {
    let mut partition = fresh_partition();
    for _ in 0..48 {
        partition.append_record(None, &[0, 0, 1, 0]);
    }
    // Two samples, at relative offsets 16 and 32, strictly increasing, each
    // at 36 bytes per frame.
    let index_bytes = partition.index_bytes_of(0);
    assert_eq!(
        index_bytes,
        vec![0, 0, 0, 16, 0, 0, 2, 64, 0, 0, 0, 32, 0, 0, 4, 128]
    );
}
