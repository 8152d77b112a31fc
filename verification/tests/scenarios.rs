use text_indexing::lcp_array;
use text_indexing::suffix_array::{naive, sais, ConstructionError, SuffixArray};

fn suffix_array_of(text: &[u8]) -> Vec<usize> {
    let built = sais::<u32>(text).expect("the text fits a 32-bit index");
    built.value.inner().iter().map(|&p| p as usize).collect()
}

fn lcp_arrays_of(text: &[u8]) -> [Vec<usize>; 3] {
    let built = sais::<u32>(text).expect("the text fits a 32-bit index");
    let sa: SuffixArray<u8, u32> = built.value;
    let by_comparison = lcp_array::naive(&sa);
    let isa = sa.inverse();
    let by_kasai = lcp_array::kasai(&isa);
    let by_phi = lcp_array::phi(&sa);
    [
        by_comparison.inner().iter().map(|&l| l as usize).collect(),
        by_kasai.inner().iter().map(|&l| l as usize).collect(),
        by_phi.inner().iter().map(|&l| l as usize).collect(),
    ]
}

fn assert_scenario(text: &[u8], sa: &[usize], lcp: &[usize]) {
    assert_eq!(suffix_array_of(text), sa);
    let [a, b, c] = lcp_arrays_of(text);
    assert_eq!(a, lcp);
    assert_eq!(b, lcp);
    assert_eq!(c, lcp);
    let built = sais::<u32>(text).unwrap();
    let isa = built.value.inverse();
    for (i, &p) in built.value.inner().iter().enumerate() {
        assert_eq!(isa.inner()[p as usize] as usize, i);
    }
}

#[test]
fn empty_text() {
    assert_scenario(b"", &[], &[]);
}

#[test]
fn single_symbol() {
    assert_scenario(b"a", &[0], &[0]);
}

#[test]
fn banana() {
    assert_scenario(b"banana", &[5, 3, 1, 0, 4, 2], &[0, 1, 3, 0, 0, 2]);
}

#[test]
fn mississippi() {
    assert_scenario(
        b"mississippi",
        &[10, 7, 4, 1, 0, 9, 8, 6, 3, 5, 2],
        &[0, 1, 1, 4, 0, 0, 1, 0, 2, 1, 3],
    );
}

#[test]
fn abracadabra() {
    assert_scenario(
        b"abracadabra",
        &[10, 7, 0, 3, 5, 8, 1, 4, 6, 9, 2],
        &[0, 1, 4, 1, 1, 0, 3, 0, 0, 0, 2],
    );
}

#[test]
fn run_of_one_symbol() {
    assert_scenario(b"aaaaaa", &[5, 4, 3, 2, 1, 0], &[0, 1, 2, 3, 4, 5]);
}

#[test]
fn naive_agrees_on_the_scenarios() {
    for text in [&b""[..], b"a", b"banana", b"mississippi", b"abracadabra", b"aaaaaa"] {
        let direct: SuffixArray<u8, u32> = naive(text);
        assert_eq!(
            direct.inner().iter().map(|&p| p as usize).collect::<Vec<_>>(),
            suffix_array_of(text)
        );
    }
}

#[test]
fn index_too_narrow() {
    let fits = vec![b'x'; 254];
    let too_long = vec![b'x'; 255];
    assert!(sais::<u8>(&fits).is_ok());
    assert_eq!(sais::<u8>(&too_long).err(), Some(ConstructionError::IndexTooNarrow));
    assert!(sais::<u16>(&too_long).is_ok());
}
