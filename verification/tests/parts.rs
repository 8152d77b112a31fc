use text_indexing::index::{ArrayIndex, ToIndex};
use text_indexing::index::filled;
use text_indexing::suffix_array::certify::is_suffix_array_of;
use text_indexing::suffix_array::result::{Builder, MemoryResult};
use text_indexing::suffix_array::sais::buckets::{bucket_begins, bucket_ends, histogram};
use text_indexing::suffix_array::sais::types::{classify, count_lms, lms_at};
use text_indexing::suffix_array::{sort_suffixes, suffix_less};
use text_indexing::lcp_array::extend_common_prefix;

#[test]
fn index_round_trip() {
    assert_eq!(<u8 as ArrayIndex>::from_usize(200).as_usize(), 200);
    assert_eq!(<u16 as ArrayIndex>::from_usize(60_000).as_usize(), 60_000);
    assert_eq!(<u32 as ArrayIndex>::from_usize(4_000_000_000).as_usize(), 4_000_000_000);
    assert_eq!(<u64 as ArrayIndex>::from_usize(usize::MAX).as_usize(), usize::MAX);
    assert_eq!(<usize as ArrayIndex>::from_usize(17).as_usize(), 17);
    assert_eq!(<u8 as ArrayIndex>::max_usize(), 255);
    assert_eq!(<u16 as ArrayIndex>::max_usize(), 65_535);
    assert_eq!(<u32 as ArrayIndex>::max_usize(), 4_294_967_295);
    assert_eq!(<u64 as ArrayIndex>::max_usize(), usize::MAX);
    assert_eq!(<usize as ArrayIndex>::max_usize(), usize::MAX);
    let i: u16 = 513usize.to_index();
    assert_eq!(i, 513u16);
}

#[test]
fn index_cast_truncates_above_the_limit() {
    assert_eq!(<u8 as ArrayIndex>::from_usize(300), 44u8);
    assert_eq!(<u16 as ArrayIndex>::from_usize(65_536 + 7), 7u16);
    let i: u8 = 256usize.to_index();
    assert_eq!(i, 0u8);
}

#[test]
fn types_of_mississippi() {
    let types = classify(b"mississippi");
    let s = true;
    let l = false;
    assert_eq!(types, vec![l, s, l, l, s, l, l, s, l, l, l, s]);
    let lms: Vec<usize> = (0..11).filter(|&i| lms_at(&types, i)).collect();
    assert_eq!(lms, vec![1, 4, 7]);
    assert_eq!(count_lms(b"mississippi", &types), 3);
}

#[test]
fn types_at_the_edges() {
    assert_eq!(classify::<u8>(b""), vec![true]);
    assert_eq!(classify(b"a"), vec![false, true]);
    assert_eq!(classify(b"aaa"), vec![false, false, false, true]);
    assert_eq!(classify(b"abc"), vec![true, true, false, true]);
    assert_eq!(count_lms(b"abc", &classify(b"abc")), 0);
}

#[test]
fn buckets_of_banana() {
    let hist: Vec<u32> = histogram(b"banana", 256);
    assert_eq!(hist.len(), 256);
    assert_eq!(hist[b'a' as usize], 3);
    assert_eq!(hist[b'b' as usize], 1);
    assert_eq!(hist[b'n' as usize], 2);
    assert_eq!(hist.iter().sum::<u32>(), 6);
    let mut begin = vec![0u32; 256];
    let mut end = vec![0u32; 256];
    bucket_begins(&hist, &mut begin);
    bucket_ends(&hist, &mut end);
    assert_eq!((begin[b'a' as usize], end[b'a' as usize]), (0, 3));
    assert_eq!((begin[b'b' as usize], end[b'b' as usize]), (3, 4));
    assert_eq!((begin[b'n' as usize], end[b'n' as usize]), (4, 6));
    assert_eq!((begin[0], end[0]), (0, 0));
    assert_eq!((begin[255], end[255]), (6, 6));
}

#[test]
fn account_adds_up() {
    let mut builder: Builder<u8> = MemoryResult::builder();
    assert_eq!(builder.memory, 0);
    builder.add_values::<u32>(10);
    assert_eq!(builder.memory, 40);
    builder.add_values::<bool>(3);
    assert_eq!(builder.memory, 43);
    builder.add_values::<u64>(0);
    assert_eq!(builder.memory, 43);
    let inner = MemoryResult { value: "inner", memory: 7 };
    let value = inner.add_to(&mut builder);
    assert_eq!(value, "inner");
    assert_eq!(builder.memory, 50);
    let copy = builder;
    let result = builder.build(9u8);
    assert_eq!((result.value, result.memory), (9, 50));
    assert_eq!(copy.clone().memory, 50);
}

#[test]
fn suffixes_compare_with_the_end_below_everything() {
    let text = b"banana";
    assert!(suffix_less(text, 5, 3));
    assert!(!suffix_less(text, 3, 5));
    assert!(suffix_less(text, 6, 5));
    assert!(!suffix_less(text, 5, 6));
    assert!(!suffix_less(text, 2, 2));
    assert!(!suffix_less(text, 6, 6));
    assert!(suffix_less(text, 1, 0));
    assert!(suffix_less(text, 0, 2));
}

#[test]
fn direct_sort_of_suffixes() {
    let sa: Vec<u8> = sort_suffixes(b"mississippi");
    assert_eq!(sa, vec![10, 7, 4, 1, 0, 9, 8, 6, 3, 5, 2]);
    let sa: Vec<u8> = sort_suffixes(b"");
    assert!(sa.is_empty());
}

#[test]
fn recognises_the_suffix_array_only() {
    let text = b"banana";
    assert!(is_suffix_array_of(text, &[5u32, 3, 1, 0, 4, 2]));
    assert!(!is_suffix_array_of(text, &[3u32, 5, 1, 0, 4, 2]));
    assert!(!is_suffix_array_of(text, &[5u32, 3, 1, 0, 2, 4]));
    assert!(!is_suffix_array_of(text, &[5u32, 3, 1, 0, 4]));
    assert!(!is_suffix_array_of(text, &[5u32, 3, 1, 0, 4, 4]));
    assert!(!is_suffix_array_of(text, &[5u32, 3, 1, 0, 4, 6]));
    assert!(!is_suffix_array_of(text, &[0u32, 1, 2, 3, 4, 5]));
    assert!(is_suffix_array_of::<u8, u32>(b"", &[]));
    assert!(is_suffix_array_of(b"aaaa", &[3u32, 2, 1, 0]));
    assert!(!is_suffix_array_of(b"aaaa", &[2u32, 3, 1, 0]));
}

#[test]
fn recognises_a_suffix_array_that_fills_its_index_type() {
    let text: Vec<u8> = (0..=255u8).rev().collect();
    let descending: Vec<u8> = (0..=255u8).rev().collect();
    let ascending: Vec<u8> = (0..=255u8).collect();
    assert!(is_suffix_array_of(&text, &descending));
    assert!(!is_suffix_array_of(&text, &ascending));
    let longer = vec![7u8; 300];
    let entries = vec![0u8; 300];
    assert!(!is_suffix_array_of(&longer, &entries));
}

#[test]
fn common_prefix_is_extended() {
    let text = b"abracadabra";
    assert_eq!(extend_common_prefix(text, 0, 7, 0), 4);
    assert_eq!(extend_common_prefix(text, 0, 7, 3), 4);
    assert_eq!(extend_common_prefix(text, 7, 0, 4), 4);
    assert_eq!(extend_common_prefix(text, 0, 1, 0), 0);
    assert_eq!(extend_common_prefix(text, 10, 7, 0), 1);
    assert_eq!(extend_common_prefix(text, 11, 7, 0), 0);
}

#[test]
fn filled_vector() {
    assert_eq!(filled(3, 7u16), vec![7u16, 7, 7]);
    assert!(filled(0, false).is_empty());
}
