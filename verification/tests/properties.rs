use text_indexing::lcp_array;
use text_indexing::lcp_array::is_lcp_array_of;
use text_indexing::suffix_array::certify::{is_suffix_array_of, suffixes_ascend};
use text_indexing::suffix_array::{naive, sais, SuffixArray};

fn next(state: &mut u64) -> u64 {
    *state ^= *state << 13;
    *state ^= *state >> 7;
    *state ^= *state << 17;
    *state
}

fn sample_texts() -> Vec<Vec<u8>> {
    let mut state = 0x2545F4914F6CDD1Du64;
    let mut texts = Vec::new();
    for round in 0..400u64 {
        let n = (next(&mut state) % 80) as usize;
        let sigma = [1u64, 2, 3, 4, 26, 256][(round % 6) as usize];
        texts.push((0..n).map(|_| (next(&mut state) % sigma) as u8).collect());
    }
    texts.push(b"abababababababababababab".to_vec());
    texts.push(b"zyxwvutsrqponmlkjihgfedcba".to_vec());
    texts.push(b"abcdefghijklmnopqrstuvwxyz".to_vec());
    texts.push(vec![0u8, 255, 0, 255, 0, 0, 255, 255]);
    texts
}

fn positions(sa: &SuffixArray<u8, u32>) -> Vec<usize> {
    sa.inner().iter().map(|&p| p as usize).collect()
}

#[test]
fn result_is_a_permutation() {
    for text in sample_texts() {
        let built = sais::<u32>(&text).unwrap();
        let mut seen = vec![false; text.len()];
        assert_eq!(built.value.inner().len(), text.len());
        for p in positions(&built.value) {
            assert!(p < text.len());
            assert!(!seen[p]);
            seen[p] = true;
        }
    }
}

#[test]
fn suffixes_of_the_result_ascend() {
    for text in sample_texts() {
        let built = sais::<u32>(&text).unwrap();
        let sa = positions(&built.value);
        for pair in sa.windows(2) {
            assert!(text[pair[0]..] < text[pair[1]..], "text {:?}", text);
        }
    }
}

#[test]
fn inverse_round_trip() {
    for text in sample_texts() {
        let built = sais::<u32>(&text).unwrap();
        let isa = built.value.inverse();
        let sa = built.value.inner();
        let ranks = isa.inner();
        assert_eq!(ranks.len(), sa.len());
        for i in 0..sa.len() {
            assert_eq!(ranks[sa[i] as usize] as usize, i);
            assert_eq!(sa[ranks[i] as usize] as usize, i);
        }
        assert_eq!(isa.sa().inner(), sa);
        assert_eq!(isa.clone().into_inner(), ranks.to_vec());
    }
}

#[test]
fn lcp_algorithms_agree() {
    for text in sample_texts() {
        let built = sais::<u32>(&text).unwrap();
        let a = lcp_array::naive(&built.value);
        let isa = built.value.inverse();
        let b = lcp_array::kasai(&isa);
        let c = lcp_array::phi(&built.value);
        assert_eq!(a.inner(), b.inner(), "text {:?}", text);
        assert_eq!(a.inner(), c.inner(), "text {:?}", text);
    }
}

#[test]
fn lcp_is_the_longest_common_prefix() {
    for text in sample_texts() {
        let built = sais::<u32>(&text).unwrap();
        let sa = positions(&built.value);
        for lcp in [
            lcp_array::naive(&built.value).into_inner(),
            lcp_array::kasai(&built.value.inverse()).into_inner(),
            lcp_array::phi(&built.value).into_inner(),
        ] {
            assert_eq!(lcp.len(), text.len());
            for r in 0..lcp.len() {
                let expected = if r == 0 {
                    0
                } else {
                    let (a, b) = (&text[sa[r - 1]..], &text[sa[r]..]);
                    a.iter().zip(b.iter()).take_while(|(x, y)| x == y).count()
                };
                assert_eq!(lcp[r] as usize, expected);
            }
        }
    }
}

#[test]
fn same_result_at_every_index_width() {
    for text in sample_texts() {
        let at32: Vec<usize> = sais::<u32>(&text).unwrap().value.into_inner().iter().map(|&p| p as usize).collect();
        let at8: Vec<usize> = sais::<u8>(&text).unwrap().value.into_inner().iter().map(|&p| p as usize).collect();
        let at16: Vec<usize> = sais::<u16>(&text).unwrap().value.into_inner().iter().map(|&p| p as usize).collect();
        let at64: Vec<usize> = sais::<u64>(&text).unwrap().value.into_inner().iter().map(|&p| p as usize).collect();
        let native: Vec<usize> = sais::<usize>(&text).unwrap().value.into_inner();
        let again: Vec<usize> = sais::<usize>(&text).unwrap().value.into_inner();
        assert_eq!(at8, at32);
        assert_eq!(at16, at32);
        assert_eq!(at64, at32);
        assert_eq!(native, at32);
        assert_eq!(again, native);
    }
}

#[test]
fn empty_and_singleton() {
    assert_eq!(sais::<u32>(b"").unwrap().value.into_inner(), Vec::<u32>::new());
    assert_eq!(sais::<u32>(b"a").unwrap().value.into_inner(), vec![0u32]);
    assert_eq!(sais::<u64>(b"").unwrap().value.into_inner(), Vec::<u64>::new());
    assert_eq!(sais::<u64>(b"a").unwrap().value.into_inner(), vec![0u64]);
    let direct: SuffixArray<u8, u32> = naive(b"a");
    assert_eq!(direct.into_inner(), vec![0u32]);
}

#[test]
fn memory_is_reported() {
    assert_eq!(sais::<u32>(b"").unwrap().memory, 0);
    for text in sample_texts() {
        if text.is_empty() {
            continue;
        }
        let at32 = sais::<u32>(&text).unwrap().memory;
        let at64 = sais::<u64>(&text).unwrap().memory;
        assert!(at32 > 0);
        assert!(at32 <= (3 * 256 + 9 * text.len()) * 4);
        assert!(at64 > 0);
        assert!(at64 <= (3 * 256 + 9 * text.len()) * 8);
    }
}

#[test]
fn memory_of_a_text_without_recursion() {
    // "ab": the types and three tables over the byte alphabet.
    let built = sais::<u32>(b"ab").unwrap();
    assert_eq!(built.memory, 3 + 3 * 256 * 4);
    // "a": the types.
    let built = sais::<u32>(b"a").unwrap();
    assert_eq!(built.memory, 2);
}

#[test]
fn memory_of_a_text_with_one_reduction() {
    // "banana" has two left-most S positions with different substrings:
    // the reduced text and its suffix array are allocated, nothing below.
    let built = sais::<u16>(b"banana").unwrap();
    assert_eq!(built.memory, 7 + 3 * 256 * 2 + 2 * 2 * 2);
    // "mississippi" has three, two of them with equal substrings: the
    // reduced text of three symbols over two names is sorted recursively.
    let built = sais::<u16>(b"mississippi").unwrap();
    let top = 12 + 3 * 256 * 2 + 2 * 3 * 2;
    let reduced = 4 + 3 * 2 * 2;
    assert_eq!(built.memory, top + reduced);
}

#[test]
fn texts_are_told_apart() {
    let built = sais::<u32>(b"banana").unwrap();
    let sa = built.value.inner();
    assert!(is_suffix_array_of(b"banana", sa));
    assert!(!is_suffix_array_of(b"ananab", sa));
    assert!(!is_suffix_array_of(b"banan", sa));
    assert!(!is_suffix_array_of(b"bananas", sa));
    assert!(is_suffix_array_of(b"cbobob", sa));
    assert_eq!(built.value.text(), b"banana");
    let copy = built.value.clone();
    assert_eq!(copy.inner(), built.value.inner());
}

#[test]
fn verify_passes_on_a_text_that_the_array_sorts() {
    let built = sais::<u32>(b"banana").unwrap();
    built.value.verify(b"banana");
    assert!(is_suffix_array_of(b"cbobob", built.value.inner()));
    built.value.verify(b"cbobob");
    let nothing = sais::<u8>(b"").unwrap();
    nothing.value.verify(b"");
}

#[test]
fn order_and_coverage_fail_apart() {
    let direct: SuffixArray<u8, u32> = naive(b"ab");
    let sa = direct.inner();
    // a longer text: the suffixes ascend, but a position is not listed
    assert!(suffixes_ascend(b"abc", sa));
    assert!(!is_suffix_array_of(b"abc", sa));
    // another text of the same length: the suffixes do not ascend
    assert!(!suffixes_ascend(b"ba", sa));
    assert!(!is_suffix_array_of(b"ba", sa));
    // a shorter text: the suffixes do not ascend
    assert!(!suffixes_ascend(b"a", sa));
    assert!(!is_suffix_array_of(b"a", sa));
    // a shorter text on which the suffixes ascend, but an entry lies outside
    let direct: SuffixArray<u8, u32> = naive(b"ba");
    assert!(suffixes_ascend(b"a", direct.inner()));
    assert!(!is_suffix_array_of(b"a", direct.inner()));
    assert!(suffixes_ascend(b"ba", direct.inner()));
    assert!(is_suffix_array_of(b"ba", direct.inner()));
}

#[test]
fn lcp_arrays_pass_their_test() {
    for text in sample_texts() {
        let built = sais::<u32>(&text).unwrap();
        let sa = &built.value;
        let by_comparison = lcp_array::naive(sa);
        let by_kasai = lcp_array::kasai(&sa.inverse());
        let by_phi = lcp_array::phi(sa);
        assert!(is_lcp_array_of(&text, sa.inner(), by_comparison.inner()));
        by_comparison.verify(sa);
        by_kasai.verify(sa);
        by_phi.verify(sa);
    }
}

#[test]
fn lcp_arrays_are_told_apart() {
    let text = b"banana";
    let sa = [5u32, 3, 1, 0, 4, 2];
    assert!(is_lcp_array_of(text, &sa, &[0u32, 1, 3, 0, 0, 2]));
    assert!(!is_lcp_array_of(text, &sa, &[0u32, 1, 3, 0, 0, 1]));
    assert!(!is_lcp_array_of(text, &sa, &[1u32, 1, 3, 0, 0, 2]));
    assert!(!is_lcp_array_of(text, &sa, &[0u32, 1, 3, 0, 0]));
    assert!(!is_lcp_array_of(text, &sa, &[0u32, 1, 3, 0, 0, 3]));
    assert!(!is_lcp_array_of(b"banan", &sa, &[0u32, 1, 3, 0, 0, 2]));
    assert!(!is_lcp_array_of(text, &[5u32, 3, 1, 0, 4, 7], &[0u32, 1, 3, 0, 0, 0]));
    assert!(is_lcp_array_of(text, &[0u32, 0, 6], &[0u32, 6, 0]));
    assert!(is_lcp_array_of::<u8, u32>(b"", &[], &[]));
    assert!(is_lcp_array_of(b"a", &[9u32], &[0u32]));
}

#[test]
fn naive_sorts_any_symbols() {
    let text: Vec<u32> = vec![70_000, 3, 70_000, 3, 1_000_000, 3];
    let direct: SuffixArray<u32, u16> = naive(&text);
    assert_eq!(direct.inner(), &[5u16, 1, 3, 0, 2, 4]);
    assert!(is_suffix_array_of(&text, direct.inner()));
    direct.verify(&text);
}

#[test]
fn long_run_is_sorted_in_linear_time() {
    let text = vec![b'a'; 300_000];
    let built = sais::<u32>(&text).unwrap();
    let sa = built.value.inner();
    for (i, &p) in sa.iter().enumerate() {
        assert_eq!(p as usize, text.len() - 1 - i);
    }
    let lcp = lcp_array::kasai(&built.value.inverse()).into_inner();
    let by_phi = lcp_array::phi(&built.value).into_inner();
    for (i, &l) in lcp.iter().enumerate() {
        assert_eq!(l as usize, i);
    }
    assert_eq!(lcp, by_phi);
}

#[test]
fn long_periodic_text_is_sorted_in_linear_time() {
    let text: Vec<u8> = (0..400_000usize).map(|i| b"abracadabra"[i % 11]).collect();
    let built = sais::<u32>(&text).unwrap();
    assert!(is_suffix_array_of(&text, built.value.inner()));
}
