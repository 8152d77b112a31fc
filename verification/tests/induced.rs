use text_indexing::suffix_array::sais::names::{lms_substrings_equal, sort_distinct};
use text_indexing::suffix_array::sais::types::classify;
use text_indexing::suffix_array::sais::{clear_from, induced_sort};
use text_indexing::suffix_array::{naive, SuffixArray};

fn step(state: &mut u64) -> u64 {
    *state ^= *state << 13;
    *state ^= *state >> 7;
    *state ^= *state << 17;
    *state
}

#[test]
fn induced_sort_agrees_with_direct_sorting() {
    let mut state = 0x9E3779B97F4A7C15u64;
    for round in 0..3000 {
        let n = (step(&mut state) % 60) as usize;
        let sigma = [1u64, 2, 3, 4, 26, 256][(round % 6) as usize];
        let text: Vec<u8> = (0..n).map(|_| (step(&mut state) % sigma) as u8).collect();
        let got: Vec<u32> = induced_sort::<u8, u32>(&text, 256).value;
        let want: SuffixArray<u8, u32> = naive(&text);
        assert_eq!(got, want.inner(), "text {:?}", text);
    }
}

#[test]
fn induced_sort_over_wide_symbols() {
    let mut state = 0xD1B54A32D192ED03u64;
    for _ in 0..500 {
        let n = (step(&mut state) % 200) as usize;
        let text: Vec<u32> = (0..n).map(|_| (step(&mut state) % 5) as u32).collect();
        let got: Vec<u16> = induced_sort::<u32, u16>(&text, 5).value;
        let want: SuffixArray<u32, u16> = naive(&text);
        assert_eq!(got, want.inner(), "text {:?}", text);
    }
}

#[test]
fn induced_sort_recurses_more_than_once() {
    // A text of few repeated words has few distinct substrings between its
    // left-most S positions, so that names repeat and the names are sorted
    // in turn.
    let mut text = Vec::new();
    for i in 0..4000usize {
        text.extend_from_slice(b"ba");
        if i % 3 == 0 {
            text.extend_from_slice(b"ca");
        }
        if i % 7 == 0 {
            text.extend_from_slice(b"baa");
        }
    }
    let built = induced_sort::<u8, u32>(&text, 256);
    let direct: SuffixArray<u8, u32> = naive(&text[..300]);
    let short = induced_sort::<u8, u32>(&text[..300], 256);
    assert_eq!(short.value, direct.inner());
    for pair in built.value.windows(2) {
        assert!(text[pair[0] as usize..] < text[pair[1] as usize..]);
    }
    // The reduced text was accounted for, and the account stays in bounds.
    assert!(built.memory > text.len() + 1 + 3 * 256 * 4);
    assert!(built.memory <= (3 * 256 + 9 * text.len()) * 4);
}

#[test]
fn substrings_between_left_most_s_positions() {
    // m i s s i s s i p p i: left-most S positions 1, 4 and 7
    let text = b"mississippi";
    let types = classify(text);
    assert!(lms_substrings_equal(text, &types, 1, 4));
    assert!(lms_substrings_equal(text, &types, 4, 1));
    assert!(!lms_substrings_equal(text, &types, 4, 7));
    assert!(!lms_substrings_equal(text, &types, 7, 4));
    assert!(!lms_substrings_equal(text, &types, 1, 7));
    // b a n a n a: the substring at 3 runs into the end
    let text = b"banana";
    let types = classify(text);
    assert!(!lms_substrings_equal(text, &types, 1, 3));
    assert!(!lms_substrings_equal(text, &types, 3, 1));
}

#[test]
fn text_of_distinct_symbols() {
    let text: Vec<u16> = vec![3, 0, 4, 1, 2];
    assert_eq!(sort_distinct(&text), vec![1u16, 3, 4, 0, 2]);
    let direct: SuffixArray<u16, u16> = naive(&text);
    assert_eq!(direct.inner(), &[1u16, 3, 4, 0, 2]);
    assert!(sort_distinct::<u8>(&Vec::new()).is_empty());
}

#[test]
fn slots_are_emptied() {
    let mut sa: Vec<u8> = vec![5, 3, 1, 0, 4, 2];
    clear_from(&mut sa, 2);
    assert_eq!(sa, vec![5, 3, 255, 255, 255, 255]);
    clear_from(&mut sa, 6);
    assert_eq!(sa, vec![5, 3, 255, 255, 255, 255]);
    clear_from(&mut sa, 0);
    assert_eq!(sa, vec![255; 6]);
}
