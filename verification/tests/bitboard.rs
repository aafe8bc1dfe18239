use nnue_threats::bitboard::squares;

#[test]
fn squares_lists_set_bits_in_order() {
    assert_eq!(squares(0), Vec::<usize>::new());
    assert_eq!(squares(1), vec![0]);
    assert_eq!(squares(0x8000_0000_0000_0001), vec![0, 63]);
    assert_eq!(squares(0x0000_0000_0000_ff00), vec![8, 9, 10, 11, 12, 13, 14, 15]);
    let all = squares(u64::MAX);
    assert_eq!(all.len(), 64);
    for (i, s) in all.iter().enumerate() {
        assert_eq!(*s, i);
    }
}
