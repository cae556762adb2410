use archive_router::layout::{parse_interval, DataChunk};
use archive_router::router::dataset_height;

#[test]
fn chunk_keeps_its_bounds() {
    let c = DataChunk::new(0, 0, 1000000);
    assert_eq!(c.top(), 0);
    assert_eq!(c.first_block(), 0);
    assert_eq!(c.last_block(), 1000000);
}

#[test]
fn chunk_text_is_zero_padded() {
    assert_eq!(DataChunk::new(0, 0, 1000000).to_string(), "0000000000/0000000000-0001000000");
    assert_eq!(DataChunk::new(5, 17, 42).to_string(), "0000000005/0000000017-0000000042");
    assert_eq!(
        DataChunk::new(u32::MAX, u32::MAX, u32::MAX).to_string(),
        "4294967295/4294967295-4294967295"
    );
}

#[test]
fn try_new_accepts_ordered_bounds() {
    let c = DataChunk::try_new(10, 10, 10).unwrap();
    assert_eq!((c.top(), c.first_block(), c.last_block()), (10, 10, 10));
    let c = DataChunk::try_new(1, 2, 3).unwrap();
    assert_eq!((c.top(), c.first_block(), c.last_block()), (1, 2, 3));
}

#[test]
fn try_new_reports_first_block_below_top() {
    let e = DataChunk::try_new(10, 5, 20).unwrap_err();
    assert_eq!(e, "first_block < top in 0000000010/0000000005-0000000020");
    // checked before the order of the last block
    let e = DataChunk::try_new(10, 5, 1).unwrap_err();
    assert_eq!(e, "first_block < top in 0000000010/0000000005-0000000001");
}

#[test]
fn try_new_reports_last_block_below_first() {
    let e = DataChunk::try_new(0, 5, 4).unwrap_err();
    assert_eq!(e, "last_block < first_block in 0000000000/0000000005-0000000004");
}

#[test]
fn chunks_compare_field_by_field() {
    assert!(DataChunk::new(0, 1, 2) < DataChunk::new(0, 1, 3));
    assert!(DataChunk::new(0, 5, 9) < DataChunk::new(1, 1, 1));
    assert_eq!(DataChunk::new(1, 2, 3), DataChunk::new(1, 2, 3));
}

#[test]
fn parse_interval_never_reads_an_interval() {
    assert_eq!(parse_interval("5-10"), None);
    assert_eq!(parse_interval("0-0"), None);
    assert_eq!(parse_interval(""), None);
    assert_eq!(parse_interval("123"), None);
    assert_eq!(parse_interval("a-b"), None);
    assert_eq!(parse_interval("-"), None);
}

#[test]
fn dataset_height_is_the_last_block_of_the_last_chunk() {
    assert_eq!(dataset_height(&vec![]), None);
    let chunks = vec![DataChunk::new(0, 0, 99), DataChunk::new(0, 100, 199)];
    assert_eq!(dataset_height(&chunks), Some(199));
}

#[test]
fn chunk_text_reads_back_as_the_bounds() {
    for (t, f, l) in [(0u32, 0u32, 1000000u32), (7, 1234567, 4000000000), (u32::MAX, u32::MAX, u32::MAX)] {
        let text = DataChunk::new(t, f, l).to_string();
        assert_eq!(text.len(), 32);
        assert_eq!(&text[10..11], "/");
        assert_eq!(&text[21..22], "-");
        assert_eq!(text[0..10].parse::<u32>().unwrap(), t);
        assert_eq!(text[11..21].parse::<u32>().unwrap(), f);
        assert_eq!(text[22..32].parse::<u32>().unwrap(), l);
    }
}

#[test]
fn chunk_text_order_is_chunk_order() {
    let chunks = [
        DataChunk::new(0, 0, 0),
        DataChunk::new(0, 0, 9),
        DataChunk::new(0, 0, 10),
        DataChunk::new(0, 5, 5),
        DataChunk::new(0, 10, 11),
        DataChunk::new(2, 3, 4),
        DataChunk::new(10, 10, 10),
        DataChunk::new(99, 100, 1000000),
        DataChunk::new(100, 100, 100),
        DataChunk::new(u32::MAX, u32::MAX, u32::MAX),
    ];
    for a in chunks.iter() {
        for b in chunks.iter() {
            assert_eq!(a.cmp(b), a.to_string().cmp(&b.to_string()));
            assert_eq!(a == b, a.to_string() == b.to_string());
        }
    }
}
