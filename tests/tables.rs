use gzip::code_length_table::CodeLengthTable;

fn lengths(t: &CodeLengthTable, n: usize) -> Vec<u8> {
    let enc = t.build_encoder();
    (0..n).map(|i| enc.encode(i).size).collect()
}

fn kraft(ls: &[u8]) -> u64 {
    ls.iter().filter(|&&l| l > 0).map(|&l| 1u64 << (15 - l)).sum()
}

#[test]
fn analyze_gives_a_complete_code() {
    let weights: Vec<u64> = vec![10, 0, 3, 3, 1, 0, 50, 7];
    let t = CodeLengthTable::analyze(&weights, 15);
    let ls = lengths(&t, weights.len());
    assert_eq!(kraft(&ls), 1 << 15);
    for (w, l) in weights.iter().zip(ls.iter()) {
        assert_eq!(*w > 0, *l > 0);
    }
    assert!(ls[6] <= ls[0] && ls[0] <= ls[4]);
}

#[test]
fn analyze_single_symbol_gets_a_neighbour() {
    let mut weights = vec![0u64; 30];
    weights[29] = 4;
    let ls = lengths(&CodeLengthTable::analyze(&weights, 15), 30);
    assert_eq!(ls[29], 1);
    assert_eq!(ls[28], 1);
    assert_eq!(ls.iter().filter(|&&l| l > 0).count(), 2);
    let mut weights = vec![0u64; 286];
    weights[256] = 1;
    let ls = lengths(&CodeLengthTable::analyze(&weights, 15), 286);
    assert_eq!((ls[256], ls[257]), (1, 1));
}

#[test]
fn analyze_all_unused() {
    let ls = lengths(&CodeLengthTable::analyze(&vec![0u64; 30], 15), 30);
    assert!(ls.iter().all(|&l| l == 0));
}

#[test]
fn analyze_respects_the_length_limit() {
    let weights: Vec<u64> = (0..19).map(|i| 1u64 << (2 * i)).collect();
    let ls = lengths(&CodeLengthTable::analyze(&weights, 7), 19);
    assert!(ls.iter().all(|&l| l >= 1 && l <= 7));
    assert_eq!(kraft(&ls), 1 << 15);
}

#[test]
fn canonical_codes_follow_length_then_index() {
    // Lengths (2, 1, 3, 3) give the codes 10, 0, 110, 111.
    let weights: Vec<u64> = vec![2, 4, 1, 1];
    let t = CodeLengthTable::analyze(&weights, 15);
    assert_eq!(lengths(&t, 4), vec![2, 1, 3, 3]);
    let enc = t.build_encoder();
    let codes: Vec<(u64, u8)> = (0..4).map(|i| (enc.encode(i).body, enc.encode(i).size)).collect();
    // Bodies hold the codes bit-reversed, as they are written out.
    assert_eq!(codes, vec![(0b01, 2), (0b0, 1), (0b011, 3), (0b111, 3)]);
}

#[test]
fn canonical_codes_are_prefix_free() {
    let weights: Vec<u64> = (0..286).map(|i| (i * 7919 % 101) as u64).collect();
    let t = CodeLengthTable::analyze(&weights, 15);
    let enc = t.build_encoder();
    let codes: Vec<(u64, u8)> = (0..286)
        .map(|i| (enc.encode(i).body, enc.encode(i).size))
        .filter(|c| c.1 > 0)
        .collect();
    for (i, a) in codes.iter().enumerate() {
        for (j, b) in codes.iter().enumerate() {
            if i != j && a.1 <= b.1 {
                let mask = (1u64 << a.1) - 1;
                assert_ne!(a.0, b.0 & mask);
            }
        }
    }
}
