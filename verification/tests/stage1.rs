use bencodex::structural::{build_structural_index, is_structural_char, scan_structural_scalar};

#[test]
fn test_build_structural_index_empty() {
    let index = build_structural_index(b"");
    assert!(index.is_empty());
}

#[test]
fn test_build_structural_index_null() {
    let index = build_structural_index(b"n");
    assert_eq!(index.len(), 1);
    assert_eq!(index.get(0), Some(0));
}

#[test]
fn test_build_structural_index_integer() {
    // i42e - positions: i=0, 4=1, 2=2, e=3
    let index = build_structural_index(b"i42e");
    assert_eq!(index.len(), 4);
    assert_eq!(index.get(0), Some(0)); // i
    assert_eq!(index.get(1), Some(1)); // 4
    assert_eq!(index.get(2), Some(2)); // 2
    assert_eq!(index.get(3), Some(3)); // e
}

#[test]
fn test_build_structural_index_string() {
    // 5:hello - The scanner finds ALL potential structural characters:
    // Position 0: '5' (digit)
    // Position 1: ':' (colon)
    // Position 3: 'e' (matches 'e')
    // Position 4: 'l' (matches 'l')
    // Position 5: 'l' (matches 'l')
    // Note: The parser will ignore chars inside string data
    let index = build_structural_index(b"5:hello");
    assert!(index.len() >= 2);
    assert_eq!(index.get(0), Some(0)); // 5
    assert_eq!(index.get(1), Some(1)); // :
}

#[test]
fn test_build_structural_index_list() {
    // li42en5:helloe - list with integer and string
    let index = build_structural_index(b"li42en5:helloe");
    // l=0, i=1, 4=2, 2=3, e=4, n=5, 5=6, :=7, e=13
    assert!(index.len() >= 9);
}

#[test]
fn test_build_structural_index_dict() {
    // du1:ai42ee - dict with key "a" and value 42
    let index = build_structural_index(b"du1:ai42ee");
    // d=0, u=1, 1=2, :=3, i=5, 4=6, 2=7, e=8, e=9
    assert!(index.len() >= 9);
}

#[test]
fn test_build_structural_index_large_input() {
    // Create a larger input to test wider scans (> 32 bytes)
    // Using 'n' (null) which is a single structural char with no ambiguity
    let input: Vec<u8> = (0..100).map(|_| b'n').collect();
    let index = build_structural_index(&input);
    // Each 'n' is 1 structural char
    assert_eq!(index.len(), 100);
}

#[test]
fn test_is_structural_char() {
    for b in [b'n', b't', b'f', b'i', b'l', b'd', b'u', b':', b'e'] {
        assert!(is_structural_char(b));
    }
    for b in b'0'..=b'9' {
        assert!(is_structural_char(b));
    }
    for b in [b'a', b'x', b'z', 0u8, 0xFF, b'-', b' '] {
        assert!(!is_structural_char(b));
    }
}

#[test]
fn test_scan_appends_positions() {
    let mut indices: Vec<u32> = vec![7];
    scan_structural_scalar(b"xnx", &mut indices);
    assert_eq!(indices, vec![7, 1]);
}

#[test]
fn test_index_push_and_clear() {
    let mut index = bencodex::StructuralIndex::new();
    index.push(3);
    index.push(9);
    assert_eq!(index.len(), 2);
    assert_eq!(index.get(1), Some(9));
    assert_eq!(index.get(2), None);
    index.clear();
    assert!(index.is_empty());
}
