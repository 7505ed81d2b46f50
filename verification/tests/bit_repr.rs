use linear_hash::bit_string;

#[test]
fn bit_string_of_zero_is_all_zeros() {
    let w = usize::BITS as usize;
    let s = bit_string(0);
    assert_eq!(s.len(), w);
    for c in s.chars() {
        assert_eq!(c, '0');
    }
}

#[test]
fn bit_string_of_five_ends_in_101() {
    let w = usize::BITS as usize;
    let s = bit_string(5);
    assert_eq!(s.len(), w);
    let mut expected = String::new();
    for _ in 0..(w - 3) {
        expected.push('0');
    }
    expected.push('1');
    expected.push('0');
    expected.push('1');
    assert_eq!(s, expected);
}

#[test]
fn bit_string_of_max_is_all_ones() {
    let w = usize::BITS as usize;
    let s = bit_string(usize::MAX);
    assert_eq!(s.len(), w);
    for c in s.chars() {
        assert_eq!(c, '1');
    }
}

#[test]
fn bit_string_marks_single_bits() {
    let w = usize::BITS as usize;
    let s = bit_string(1);
    assert_eq!(&s[w - 1..], "1");
    assert_eq!(&s[..w - 1], "0".repeat(w - 1));
    let s2 = bit_string(1 << 7);
    assert_eq!(&s2[w - 8..w - 7], "1");
}
