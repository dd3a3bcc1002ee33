use gzip::code_length_symbol::CodeLengthSymbol;
use gzip::symbol::Symbol;
use gzip::symbolize::{duplicate_length, longest_duplicate, symbolize};
use gzip::symbolize_code_length::symbolize_code_length;

fn expand(syms: &[Symbol]) -> Vec<u8> {
    let mut out: Vec<u8> = Vec::new();
    for s in syms {
        match *s {
            Symbol::Literal(b) => out.push(b),
            Symbol::EndOfBlock => {}
            Symbol::Reference { length, distance } => {
                for _ in 0..length {
                    let b = out[out.len() - distance];
                    out.push(b);
                }
            }
        }
    }
    out
}

#[test]
fn symbolize_finds_repeats() {
    let data = b"abcabcabcabc".to_vec();
    let syms = symbolize(&data);
    assert!(matches!(syms[syms.len() - 1], Symbol::EndOfBlock));
    assert!(matches!(
        syms[3],
        Symbol::Reference {
            length: 9,
            distance: 3
        }
    ));
    assert_eq!(syms.len(), 5);
    assert_eq!(expand(&syms), data);
}

#[test]
fn symbolize_overlapping_copy() {
    let syms = symbolize(b"abcabcabc");
    assert_eq!(syms.len(), 5);
    assert!(matches!(syms[0], Symbol::Literal(b'a')));
    assert!(matches!(syms[1], Symbol::Literal(b'b')));
    assert!(matches!(syms[2], Symbol::Literal(b'c')));
    assert!(matches!(
        syms[3],
        Symbol::Reference {
            length: 6,
            distance: 3
        }
    ));
    assert!(matches!(syms[4], Symbol::EndOfBlock));
}

#[test]
fn symbolize_repeated_abc() {
    let data = "abc".repeat(1000).into_bytes();
    let syms = symbolize(&data);
    assert_eq!(syms.len(), 16);
    let mut total = 0;
    for s in syms[3..15].iter() {
        match *s {
            Symbol::Reference { length, distance } => {
                assert_eq!(distance, 3);
                total += length;
            }
            _ => panic!("expected a reference"),
        }
    }
    assert_eq!(total, 2997);
    assert_eq!(expand(&syms), data);
}

#[test]
fn symbolize_empty_and_single_byte() {
    let syms = symbolize(&[]);
    assert_eq!(syms.len(), 1);
    assert!(matches!(syms[0], Symbol::EndOfBlock));
    let syms = symbolize(&[42]);
    assert!(matches!(syms[0], Symbol::Literal(42)));
    assert_eq!(syms.len(), 2);
}

#[test]
fn symbolize_caps_references_at_258() {
    let data = vec![7u8; 1000];
    let syms = symbolize(&data);
    for s in syms.iter() {
        if let Symbol::Reference { length, distance } = *s {
            assert!(length >= 3 && length <= 258);
            assert!(distance >= 1);
        }
    }
    assert!(syms.iter().any(|s| matches!(s, Symbol::Reference { length: 258, .. })));
    assert_eq!(expand(&syms), data);
}

#[test]
fn duplicate_length_stops_at_mismatch() {
    let data = b"abcdabcx".to_vec();
    assert_eq!(duplicate_length(&data, 4, 0), 3);
    assert_eq!(duplicate_length(&data, 0, 0), 8);
    assert_eq!(longest_duplicate(&data, 4, &vec![0, 1]), (3, 4));
    assert_eq!(longest_duplicate(&data, 4, &vec![5, 6]), (0, 0));
}

#[test]
fn length_and_distance_codes() {
    let s = Symbol::Reference {
        length: 258,
        distance: 32768,
    };
    assert_eq!(s.code(), 285);
    assert_eq!(s.dist_code(), Some(29));
    let s = Symbol::Reference {
        length: 257,
        distance: 5,
    };
    assert_eq!(s.code(), 284);
    assert_eq!(s.dist_code(), Some(4));
    let s = Symbol::Reference {
        length: 11,
        distance: 4,
    };
    assert_eq!(s.code(), 265);
    assert_eq!(s.dist_code(), Some(3));
    assert_eq!(Symbol::Reference { length: 3, distance: 1 }.code(), 257);
    assert_eq!(Symbol::Literal(200).code(), 200);
    assert_eq!(Symbol::EndOfBlock.code(), 256);
    assert_eq!(Symbol::EndOfBlock.dist_code(), None);
}

#[test]
fn code_length_symbols() {
    assert_eq!(CodeLengthSymbol::Literal(9).code(), 9);
    assert_eq!(CodeLengthSymbol::CopyPrevious(5).code(), 16);
    assert_eq!(CodeLengthSymbol::RepeatZero(10).code(), 17);
    assert_eq!(CodeLengthSymbol::RepeatZero(11).code(), 18);
    let b = CodeLengthSymbol::CopyPrevious(5).additional_bits();
    assert_eq!((b.body, b.size), (2, 2));
    let b = CodeLengthSymbol::RepeatZero(10).additional_bits();
    assert_eq!((b.body, b.size), (7, 3));
    let b = CodeLengthSymbol::RepeatZero(138).additional_bits();
    assert_eq!((b.body, b.size), (127, 7));
    assert_eq!(CodeLengthSymbol::Literal(3).additional_bits().size, 0);
}

fn expand_lengths(syms: &[CodeLengthSymbol]) -> Vec<u8> {
    let mut out: Vec<u8> = Vec::new();
    for s in syms {
        match *s {
            CodeLengthSymbol::Literal(l) => out.push(l),
            CodeLengthSymbol::CopyPrevious(n) => {
                let last = out[out.len() - 1];
                for _ in 0..n {
                    out.push(last);
                }
            }
            CodeLengthSymbol::RepeatZero(n) => {
                for _ in 0..n {
                    out.push(0);
                }
            }
        }
    }
    out
}

#[test]
fn code_lengths_run_length_encode() {
    let mut lengths = vec![5u8; 10];
    lengths.extend(vec![0u8; 200]);
    lengths.extend([3, 0, 0, 4]);
    let syms = symbolize_code_length(&lengths);
    assert_eq!(expand_lengths(&syms), lengths);
    assert!(matches!(syms[0], CodeLengthSymbol::Literal(5)));
    assert!(matches!(syms[1], CodeLengthSymbol::CopyPrevious(6)));
    assert!(syms.iter().any(|s| matches!(s, CodeLengthSymbol::RepeatZero(138))));
    assert!(symbolize_code_length(&[]).is_empty());
}
