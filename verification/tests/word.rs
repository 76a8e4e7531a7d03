use blinkcast::word::{
    is_readable, is_reading, pack_data_index, unpack_data_index, INDEX_MASK, LAP_SHIFT,
    STATE_AVAILABLE, STATE_EMPTY, STATE_READING, STATE_WRITING,
};
use blinkcast::MAX_LEN;

#[test]
fn half_a_word_each() {
    assert_eq!(LAP_SHIFT * 2, usize::BITS);
    assert_eq!(INDEX_MASK, (1 << LAP_SHIFT) - 1);
    assert_eq!(MAX_LEN, INDEX_MASK);
}

#[test]
fn packing_and_unpacking() {
    assert_eq!(pack_data_index(0, 0), 0);
    assert_eq!(pack_data_index(0, 5), 5);
    assert_eq!(pack_data_index(3, 5), (3 << LAP_SHIFT) + 5);
    assert_eq!(pack_data_index(INDEX_MASK, INDEX_MASK), usize::MAX);
    assert_eq!(unpack_data_index((3 << LAP_SHIFT) + 5), (3, 5));
    assert_eq!(unpack_data_index(usize::MAX), (INDEX_MASK, INDEX_MASK));
    let words = [0, 1, INDEX_MASK, INDEX_MASK + 1, usize::MAX - 1, usize::MAX];
    for &word in words.iter() {
        let (lap, index) = unpack_data_index(word);
        assert_eq!(pack_data_index(lap, index), word);
    }
}

#[test]
fn states() {
    assert!(!is_reading(STATE_EMPTY));
    assert!(!is_reading(STATE_AVAILABLE));
    assert!(!is_reading(STATE_WRITING));
    assert!(!is_reading(3));
    assert!(is_reading(STATE_READING));
    assert!(is_reading(STATE_AVAILABLE + STATE_READING));
    assert!(is_reading(usize::MAX));

    assert!(!is_readable(STATE_EMPTY));
    assert!(is_readable(STATE_AVAILABLE));
    assert!(!is_readable(STATE_WRITING));
    assert!(!is_readable(3));
    assert!(is_readable(STATE_AVAILABLE + 2 * STATE_READING));
}
