use file_auth::reader::FileRevIter;

fn spans_of(filesize: u64, block_size: usize) -> Vec<(u64, usize)> {
    let mut blocks = FileRevIter::new(filesize, block_size);
    let mut spans = Vec::new();
    while let Some(span) = blocks.next() {
        spans.push(span);
    }
    spans
}

#[test]
fn walks_from_the_short_tail_to_the_head() {
    assert_eq!(
        spans_of(2500, 1024),
        vec![(2048, 452), (1024, 1024), (0, 1024)]
    );
}

#[test]
fn exact_multiple_has_only_full_blocks() {
    assert_eq!(spans_of(2048, 1024), vec![(1024, 1024), (0, 1024)]);
    assert_eq!(spans_of(1024, 1024), vec![(0, 1024)]);
    assert_eq!(spans_of(12, 4), vec![(8, 4), (4, 4), (0, 4)]);
}

#[test]
fn file_shorter_than_a_block_is_one_block() {
    assert_eq!(spans_of(500, 1024), vec![(0, 500)]);
    assert_eq!(spans_of(1, 1024), vec![(0, 1)]);
}

#[test]
fn empty_file_has_no_block() {
    assert_eq!(spans_of(0, 1024), Vec::<(u64, usize)>::new());
}

#[test]
fn stays_exhausted_after_the_head() {
    let mut blocks = FileRevIter::new(5, 4);
    assert_eq!(blocks.next(), Some((4, 1)));
    assert_eq!(blocks.next(), Some((0, 4)));
    assert_eq!(blocks.next(), None);
    assert_eq!(blocks.next(), None);
}

#[test]
fn block_size_of_one_byte() {
    assert_eq!(spans_of(3, 1), vec![(2, 1), (1, 1), (0, 1)]);
}

#[test]
fn spans_cover_the_file_without_gaps() {
    for filesize in 0u64..70 {
        for block_size in 1usize..9 {
            let spans = spans_of(filesize, block_size);
            let mut end = filesize;
            for (start, len) in spans.iter() {
                assert!(*len >= 1 && *len <= block_size);
                assert_eq!(*start + *len as u64, end);
                assert_eq!(*start % block_size as u64, 0);
                end = *start;
            }
            assert_eq!(end, 0);
            let expected = (filesize as usize + block_size - 1) / block_size;
            assert_eq!(spans.len(), expected);
        }
    }
}

#[test]
fn walks_a_file_larger_than_four_gigabytes() {
    let filesize: u64 = (1u64 << 33) + 5;
    let mut blocks = FileRevIter::new(filesize, 1024);
    assert_eq!(blocks.next(), Some((1u64 << 33, 5)));
    assert_eq!(blocks.next(), Some(((1u64 << 33) - 1024, 1024)));
}
