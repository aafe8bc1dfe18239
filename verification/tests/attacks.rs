use nnue_threats::attacks::{Attacks, Side, Piece};
use nnue_threats::full_threats::{pawn_attacks_from, pawn_push_from, pseudo_attacks};
use nnue_threats::slider::{bishop_squares, rook_squares, queen_squares};

#[test]
fn knight_king_pawn_tables() {
    assert_eq!(Attacks::knight(0), 0x0000000000020400);
    assert_eq!(Attacks::king(0), 0x0000000000000302);
    assert_eq!(Attacks::pawn(0, Side::WHITE), 0x0000000000000200);
    assert_eq!(Attacks::pawn(0, Side::BLACK), 0x0000000000000000);
    assert_eq!(Attacks::knight(7), 0x0000000000402000);
    assert_eq!(Attacks::king(7), 0x000000000000c040);
    assert_eq!(Attacks::pawn(7, Side::WHITE), 0x0000000000004000);
    assert_eq!(Attacks::pawn(7, Side::BLACK), 0x0000000000000000);
    assert_eq!(Attacks::knight(27), 0x0000142200221400);
    assert_eq!(Attacks::king(27), 0x0000001c141c0000);
    assert_eq!(Attacks::pawn(27, Side::WHITE), 0x0000001400000000);
    assert_eq!(Attacks::pawn(27, Side::BLACK), 0x0000000000140000);
    assert_eq!(Attacks::knight(36), 0x0028440044280000);
    assert_eq!(Attacks::king(36), 0x0000382838000000);
    assert_eq!(Attacks::pawn(36, Side::WHITE), 0x0000280000000000);
    assert_eq!(Attacks::pawn(36, Side::BLACK), 0x0000000028000000);
    assert_eq!(Attacks::knight(56), 0x0004020000000000);
    assert_eq!(Attacks::king(56), 0x0203000000000000);
    assert_eq!(Attacks::pawn(56, Side::WHITE), 0x0000000000000000);
    assert_eq!(Attacks::pawn(56, Side::BLACK), 0x0002000000000000);
    assert_eq!(Attacks::knight(63), 0x0020400000000000);
    assert_eq!(Attacks::king(63), 0x40c0000000000000);
    assert_eq!(Attacks::pawn(63, Side::WHITE), 0x0000000000000000);
    assert_eq!(Attacks::pawn(63, Side::BLACK), 0x0040000000000000);
    assert_eq!(Attacks::knight(9), 0x0000000005080008);
    assert_eq!(Attacks::king(9), 0x0000000000070507);
    assert_eq!(Attacks::pawn(9, Side::WHITE), 0x0000000000050000);
    assert_eq!(Attacks::pawn(9, Side::BLACK), 0x0000000000000005);
    assert_eq!(Attacks::knight(54), 0x100010a000000000);
    assert_eq!(Attacks::king(54), 0xe0a0e00000000000);
    assert_eq!(Attacks::pawn(54, Side::WHITE), 0xa000000000000000);
    assert_eq!(Attacks::pawn(54, Side::BLACK), 0x0000a00000000000);
}

#[test]
fn sliders_match_lookup_results() {
    assert_eq!(Attacks::bishop(41, 0x2682041060030504), 0x0805000508102040);
    assert_eq!(Attacks::rook(41, 0x2682041060030504), 0x0002050202020000);
    assert_eq!(Attacks::queen(41, 0x2682041060030504), 0x080705070a122040);
    assert_eq!(Attacks::bishop(6, 0x10180800000b0023), 0x000102040810a000);
    assert_eq!(Attacks::rook(6, 0x10180800000b0023), 0x40404040404040a0);
    assert_eq!(Attacks::queen(6, 0x10180800000b0023), 0x404142444850e0a0);
    assert_eq!(Attacks::bishop(46, 0x00c1047580201814), 0x10a000a000000000);
    assert_eq!(Attacks::rook(46, 0x00c1047580201814), 0x0040bc4000000000);
    assert_eq!(Attacks::queen(46, 0x00c1047580201814), 0x10e0bce000000000);
    assert_eq!(Attacks::bishop(27, 0x0200001a09014058), 0x0001021400142241);
    assert_eq!(Attacks::rook(27, 0x0200001a09014058), 0x00000008f7080808);
    assert_eq!(Attacks::queen(27, 0x0200001a09014058), 0x0001021cf71c2a49);
    assert_eq!(Attacks::bishop(8, 0x042842000d100604), 0x0000000004020002);
    assert_eq!(Attacks::rook(8, 0x042842000d100604), 0x0000000001010201);
    assert_eq!(Attacks::queen(8, 0x042842000d100604), 0x0000000005030203);
    assert_eq!(Attacks::bishop(7, 0x9080104d13a01423), 0x0000000000204000);
    assert_eq!(Attacks::rook(7, 0x9080104d13a01423), 0x0000000000808060);
    assert_eq!(Attacks::queen(7, 0x9080104d13a01423), 0x0000000000a0c060);
    assert_eq!(Attacks::bishop(28, 0xa09d04a181300030), 0x0000042800280402);
    assert_eq!(Attacks::rook(28, 0xa09d04a181300030), 0x00101010ef100000);
    assert_eq!(Attacks::queen(28, 0xa09d04a181300030), 0x00101438ef380402);
    assert_eq!(Attacks::bishop(7, 0x04a00294018c0004), 0x0102040810204000);
    assert_eq!(Attacks::rook(7, 0x04a00294018c0004), 0x000000000080807c);
    assert_eq!(Attacks::queen(7, 0x04a00294018c0004), 0x0102040810a0c07c);
    assert_eq!(Attacks::bishop(28, 0x0201962c0bc49680), 0x0000002800284480);
    assert_eq!(Attacks::rook(28, 0x0201962c0bc49680), 0x00001010e8101000);
    assert_eq!(Attacks::queen(28, 0x0201962c0bc49680), 0x00001038e8385480);
    assert_eq!(Attacks::bishop(37, 0x0425a0800a482240), 0x0488500050880000);
    assert_eq!(Attacks::rook(37, 0x0425a0800a482240), 0x000020df20202000);
    assert_eq!(Attacks::queen(37, 0x0425a0800a482240), 0x048870df70a82000);
    assert_eq!(Attacks::bishop(39, 0x0044000b8e050010), 0x1020400040201008);
    assert_eq!(Attacks::rook(39, 0x0044000b8e050010), 0x8080807880000000);
    assert_eq!(Attacks::queen(39, 0x0044000b8e050010), 0x90a0c078c0201008);
    assert_eq!(Attacks::bishop(13, 0x1018504180839501), 0x0001020488500050);
    assert_eq!(Attacks::rook(13, 0x1018504180839501), 0x202020202020d020);
    assert_eq!(Attacks::queen(13, 0x1018504180839501), 0x20212224a870d070);
    assert_eq!(Attacks::bishop(47, 0x0010f02110402402), 0x2040004020100804);
    assert_eq!(Attacks::rook(47, 0x0010f02110402402), 0x8080408080808080);
    assert_eq!(Attacks::queen(47, 0x0010f02110402402), 0xa0c040c0a0908884);
    assert_eq!(Attacks::bishop(7, 0x2428b1541e150120), 0x0000000010204000);
    assert_eq!(Attacks::rook(7, 0x2428b1541e150120), 0x0000808080808060);
    assert_eq!(Attacks::queen(7, 0x2428b1541e150120), 0x0000808090a0c060);
    assert_eq!(Attacks::bishop(54, 0x106360c146302710), 0xa000a00000000000);
    assert_eq!(Attacks::rook(54, 0x106360c146302710), 0x40a0400000000000);
    assert_eq!(Attacks::queen(54, 0x106360c146302710), 0xe0a0e00000000000);
    assert_eq!(Attacks::bishop(58, 0x481c04251c90a050), 0x000a010000000000);
    assert_eq!(Attacks::rook(58, 0x481c04251c90a050), 0x0b04000000000000);
    assert_eq!(Attacks::queen(58, 0x481c04251c90a050), 0x0b0e010000000000);
    assert_eq!(Attacks::bishop(23, 0x04a0622032710890), 0x0000002040004020);
    assert_eq!(Attacks::rook(23, 0x04a0622032710890), 0x0080808080408080);
    assert_eq!(Attacks::queen(23, 0x04a0622032710890), 0x008080a0c040c0a0);
    assert_eq!(Attacks::bishop(38, 0x56ae000480010201), 0x0810a000a0100804);
    assert_eq!(Attacks::rook(38, 0x56ae000480010201), 0x404040bc40404040);
    assert_eq!(Attacks::queen(38, 0x56ae000480010201), 0x4850e0bce0504844);
    assert_eq!(Attacks::bishop(57, 0x12a408cc48a40808), 0x0005000000000000);
    assert_eq!(Attacks::rook(57, 0x12a408cc48a40808), 0x1d02020202020202);
    assert_eq!(Attacks::queen(57, 0x12a408cc48a40808), 0x1d07020202020202);
    assert_eq!(Attacks::bishop(15, 0x410218e8020a0494), 0x0000081020400040);
    assert_eq!(Attacks::rook(15, 0x410218e8020a0494), 0x0000008080807c80);
    assert_eq!(Attacks::queen(15, 0x410218e8020a0494), 0x00000890a0c07cc0);
    assert_eq!(Attacks::bishop(43, 0x6ae0486024282500), 0x2214001422010000);
    assert_eq!(Attacks::rook(43, 0x6ae0486024282500), 0x0808770808080000);
    assert_eq!(Attacks::queen(43, 0x6ae0486024282500), 0x2a1c771c2a090000);
    assert_eq!(Attacks::bishop(5, 0x831020901246e184), 0x0000010204085000);
    assert_eq!(Attacks::rook(5, 0x831020901246e184), 0x00000000000020dc);
    assert_eq!(Attacks::queen(5, 0x831020901246e184), 0x00000102040870dc);
    assert_eq!(Attacks::bishop(40, 0x9028808d51004242), 0x0402000204081020);
    assert_eq!(Attacks::rook(40, 0x9028808d51004242), 0x0101fe0100000000);
    assert_eq!(Attacks::queen(40, 0x9028808d51004242), 0x0503fe0304081020);
    assert_eq!(Attacks::bishop(63, 0x000010d11440030a), 0x0040201000000000);
    assert_eq!(Attacks::rook(63, 0x000010d11440030a), 0x7f80808000000000);
    assert_eq!(Attacks::queen(63, 0x000010d11440030a), 0x7fc0a09000000000);
    assert_eq!(Attacks::bishop(11, 0x0010190171568200), 0x0000000000140014);
    assert_eq!(Attacks::rook(11, 0x0010190171568200), 0x000008080808f608);
    assert_eq!(Attacks::queen(11, 0x0010190171568200), 0x00000808081cf61c);
    assert_eq!(Attacks::bishop(8, 0x0b00400b03800802), 0x0000000804020002);
    assert_eq!(Attacks::rook(8, 0x0b00400b03800802), 0x0000000001010e01);
    assert_eq!(Attacks::queen(8, 0x0b00400b03800802), 0x0000000805030e03);
    assert_eq!(Attacks::bishop(57, 0xa314020040c3000f), 0x0005000000000000);
    assert_eq!(Attacks::rook(57, 0xa314020040c3000f), 0x3d02020000000000);
    assert_eq!(Attacks::queen(57, 0xa314020040c3000f), 0x3d07020000000000);
    assert_eq!(Attacks::bishop(44, 0x50ce10210400a902), 0x4028002804000000);
    assert_eq!(Attacks::rook(44, 0x50ce10210400a902), 0x1010ef1010101010);
    assert_eq!(Attacks::queen(44, 0x50ce10210400a902), 0x5038ef3814101010);
    assert_eq!(Attacks::bishop(21, 0x0d11a1001c602808), 0x0000008050005088);
    assert_eq!(Attacks::rook(21, 0x0d11a1001c602808), 0x00002020205f2000);
    assert_eq!(Attacks::queen(21, 0x0d11a1001c602808), 0x000020a0705f7088);
    assert_eq!(Attacks::bishop(27, 0x09052180000860c1), 0x0001221400142201);
    assert_eq!(Attacks::rook(27, 0x09052180000860c1), 0x08080808f7080000);
    assert_eq!(Attacks::queen(27, 0x09052180000860c1), 0x08092a1cf71c2201);
    assert_eq!(Attacks::bishop(31, 0x4415029060941750), 0x0010204000402010);
    assert_eq!(Attacks::rook(31, 0x4415029060941750), 0x0000008040800000);
    assert_eq!(Attacks::queen(31, 0x4415029060941750), 0x001020c040c02010);
    assert_eq!(Attacks::bishop(63, 0x2292281210a0f002), 0x0040200000000000);
    assert_eq!(Attacks::rook(63, 0x2292281210a0f002), 0x6080000000000000);
    assert_eq!(Attacks::queen(63, 0x2292281210a0f002), 0x60c0200000000000);
    assert_eq!(Attacks::bishop(35, 0x22048230c0245059), 0x4122140014220100);
    assert_eq!(Attacks::rook(35, 0x22048230c0245059), 0x0808081708080808);
    assert_eq!(Attacks::queen(35, 0x22048230c0245059), 0x492a1c171c2a0908);
    assert_eq!(Attacks::bishop(35, 0x4a504d40b4800a0a), 0x4020140014000000);
    assert_eq!(Attacks::rook(35, 0x4a504d40b4800a0a), 0x0000087708080800);
    assert_eq!(Attacks::queen(35, 0x4a504d40b4800a0a), 0x40201c771c080800);
    assert_eq!(Attacks::bishop(48, 0x1112042a2420c01d), 0x0200020408102040);
    assert_eq!(Attacks::rook(48, 0x1112042a2420c01d), 0x0102010101010101);
    assert_eq!(Attacks::queen(48, 0x1112042a2420c01d), 0x0302030509112141);
    assert_eq!(Attacks::bishop(22, 0x3b21806220900c89), 0x00000000a000a010);
    assert_eq!(Attacks::rook(22, 0x3b21806220900c89), 0x0000004040b04040);
    assert_eq!(Attacks::queen(22, 0x3b21806220900c89), 0x00000040e0b0e050);
    assert_eq!(Attacks::bishop(1, 0x0482040e1400845f), 0x0000000000000500);
    assert_eq!(Attacks::rook(1, 0x0482040e1400845f), 0x0000000202020205);
    assert_eq!(Attacks::queen(1, 0x0482040e1400845f), 0x0000000202020705);
    assert_eq!(Attacks::bishop(33, 0x0100034900080c0c), 0x1008050005080000);
    assert_eq!(Attacks::rook(33, 0x0100034900080c0c), 0x0000020d02020202);
    assert_eq!(Attacks::queen(33, 0x0100034900080c0c), 0x1008070d070a0202);
    assert_eq!(Attacks::bishop(47, 0x90fa3900101088f5), 0x0040004020100000);
    assert_eq!(Attacks::rook(47, 0x90fa3900101088f5), 0x0080608080808000);
    assert_eq!(Attacks::queen(47, 0x90fa3900101088f5), 0x00c060c0a0908000);
    assert_eq!(Attacks::bishop(16, 0xd340a03280c43104), 0x2010080402000204);
    assert_eq!(Attacks::rook(16, 0xd340a03280c43104), 0x0101010101060100);
    assert_eq!(Attacks::queen(16, 0xd340a03280c43104), 0x2111090503060304);
    assert_eq!(Attacks::bishop(0, 0x0000000000000000), 0x8040201008040200);
    assert_eq!(Attacks::rook(0, 0x0000000000000000), 0x01010101010101fe);
    assert_eq!(Attacks::queen(0, 0x0000000000000000), 0x81412111090503fe);
    assert_eq!(Attacks::bishop(63, 0x0000000000000000), 0x0040201008040201);
    assert_eq!(Attacks::rook(63, 0x0000000000000000), 0x7f80808080808080);
    assert_eq!(Attacks::queen(63, 0x0000000000000000), 0x7fc0a09088848281);
    assert_eq!(Attacks::bishop(27, 0x0000000000000000), 0x8041221400142241);
    assert_eq!(Attacks::rook(27, 0x0000000000000000), 0x08080808f7080808);
    assert_eq!(Attacks::queen(27, 0x0000000000000000), 0x88492a1cf71c2a49);
    assert_eq!(Attacks::bishop(28, 0xffffffffffffffff), 0x0000002800280000);
    assert_eq!(Attacks::rook(28, 0xffffffffffffffff), 0x0000001028100000);
    assert_eq!(Attacks::queen(28, 0xffffffffffffffff), 0x0000003828380000);
    assert_eq!(Attacks::bishop(0, 0xffffffffffffffff), 0x0000000000000200);
    assert_eq!(Attacks::rook(0, 0xffffffffffffffff), 0x0000000000000102);
    assert_eq!(Attacks::queen(0, 0xffffffffffffffff), 0x0000000000000302);
    assert_eq!(Attacks::bishop(35, 0x0000001000200000), 0x4122140014220100);
    assert_eq!(Attacks::rook(35, 0x0000001000200000), 0x0808081708080808);
    assert_eq!(Attacks::queen(35, 0x0000001000200000), 0x492a1c171c2a0908);
}

#[test]
fn rook_on_a1_sees_first_rank_and_file() {
    assert_eq!(Attacks::rook(0, 0), 0x0101_0101_0101_01fe);
    assert_eq!(rook_squares(0, 0x0000_0000_0001_0004), 0x0000_0000_0001_0106);
}

#[test]
fn bishop_stops_at_blockers() {
    // bishop on d4 (27), blockers on f6 (45) and b2 (9)
    let occ: u64 = (1u64 << 45) | (1u64 << 9);
    let r = bishop_squares(27, occ);
    assert_eq!(r & (1u64 << 45), 1u64 << 45);
    assert_eq!(r & (1u64 << 54), 0);
    assert_eq!(r & (1u64 << 9), 1u64 << 9);
    assert_eq!(r & 1u64, 0);
}

#[test]
fn queen_is_rook_and_bishop() {
    let occ: u64 = 0x00ff_0000_0000_ff00;
    for sq in 0..64usize {
        assert_eq!(queen_squares(sq, occ), rook_squares(sq, occ) | bishop_squares(sq, occ));
    }
}

#[test]
fn attack_sets_are_symmetric_for_knights_and_kings() {
    for s in 0..64usize {
        for t in 0..64usize {
            assert_eq!((Attacks::knight(s) >> t) & 1, (Attacks::knight(t) >> s) & 1);
            assert_eq!((Attacks::king(s) >> t) & 1, (Attacks::king(t) >> s) & 1);
        }
    }
}

#[test]
fn pawn_moves_and_empty_board_attacks() {
    assert_eq!(pawn_attacks_from(8, 0), 0x0000000000020000);
    assert_eq!(pawn_attacks_from(8, 1), 0x0000000000000002);
    assert_eq!(pawn_push_from(8, 0), 0x0000000000010000);
    assert_eq!(pawn_push_from(8, 1), 0x0000000000000001);
    assert_eq!(pseudo_attacks(0, 8), 0x0000000000000000);
    assert_eq!(pseudo_attacks(1, 8), 0x0000000002040004);
    assert_eq!(pseudo_attacks(2, 8), 0x4020100804020002);
    assert_eq!(pseudo_attacks(3, 8), 0x010101010101fe01);
    assert_eq!(pseudo_attacks(4, 8), 0x412111090503fe03);
    assert_eq!(pseudo_attacks(5, 8), 0x0000000000030203);
    assert_eq!(pawn_attacks_from(15, 0), 0x0000000000400000);
    assert_eq!(pawn_attacks_from(15, 1), 0x0000000000000040);
    assert_eq!(pawn_push_from(15, 0), 0x0000000000800000);
    assert_eq!(pawn_push_from(15, 1), 0x0000000000000080);
    assert_eq!(pseudo_attacks(0, 15), 0x0000000000000000);
    assert_eq!(pseudo_attacks(1, 15), 0x0000000040200020);
    assert_eq!(pseudo_attacks(2, 15), 0x0204081020400040);
    assert_eq!(pseudo_attacks(3, 15), 0x8080808080807f80);
    assert_eq!(pseudo_attacks(4, 15), 0x82848890a0c07fc0);
    assert_eq!(pseudo_attacks(5, 15), 0x0000000000c040c0);
    assert_eq!(pawn_attacks_from(31, 0), 0x0000004000000000);
    assert_eq!(pawn_attacks_from(31, 1), 0x0000000000400000);
    assert_eq!(pawn_push_from(31, 0), 0x0000008000000000);
    assert_eq!(pawn_push_from(31, 1), 0x0000000000800000);
    assert_eq!(pseudo_attacks(0, 31), 0x0000000000000000);
    assert_eq!(pseudo_attacks(1, 31), 0x0000402000204000);
    assert_eq!(pseudo_attacks(2, 31), 0x0810204000402010);
    assert_eq!(pseudo_attacks(3, 31), 0x808080807f808080);
    assert_eq!(pseudo_attacks(4, 31), 0x8890a0c07fc0a090);
    assert_eq!(pseudo_attacks(5, 31), 0x000000c040c00000);
    assert_eq!(pawn_attacks_from(48, 0), 0x0200000000000000);
    assert_eq!(pawn_attacks_from(48, 1), 0x0000020000000000);
    assert_eq!(pawn_push_from(48, 0), 0x0100000000000000);
    assert_eq!(pawn_push_from(48, 1), 0x0000010000000000);
    assert_eq!(pseudo_attacks(0, 48), 0x0000000000000000);
    assert_eq!(pseudo_attacks(1, 48), 0x0400040200000000);
    assert_eq!(pseudo_attacks(2, 48), 0x0200020408102040);
    assert_eq!(pseudo_attacks(3, 48), 0x01fe010101010101);
    assert_eq!(pseudo_attacks(4, 48), 0x03fe030509112141);
    assert_eq!(pseudo_attacks(5, 48), 0x0302030000000000);
    assert_eq!(pawn_attacks_from(55, 0), 0x4000000000000000);
    assert_eq!(pawn_attacks_from(55, 1), 0x0000400000000000);
    assert_eq!(pawn_push_from(55, 0), 0x8000000000000000);
    assert_eq!(pawn_push_from(55, 1), 0x0000800000000000);
    assert_eq!(pseudo_attacks(0, 55), 0x0000000000000000);
    assert_eq!(pseudo_attacks(1, 55), 0x2000204000000000);
    assert_eq!(pseudo_attacks(2, 55), 0x4000402010080402);
    assert_eq!(pseudo_attacks(3, 55), 0x807f808080808080);
    assert_eq!(pseudo_attacks(4, 55), 0xc07fc0a090888482);
    assert_eq!(pseudo_attacks(5, 55), 0xc040c00000000000);
    assert_eq!(pawn_attacks_from(0, 0), 0x0000000000000200);
    assert_eq!(pawn_attacks_from(0, 1), 0x0000000000000000);
    assert_eq!(pawn_push_from(0, 0), 0x0000000000000100);
    assert_eq!(pawn_push_from(0, 1), 0x0000000000000000);
    assert_eq!(pseudo_attacks(0, 0), 0x0000000000000000);
    assert_eq!(pseudo_attacks(1, 0), 0x0000000000020400);
    assert_eq!(pseudo_attacks(2, 0), 0x8040201008040200);
    assert_eq!(pseudo_attacks(3, 0), 0x01010101010101fe);
    assert_eq!(pseudo_attacks(4, 0), 0x81412111090503fe);
    assert_eq!(pseudo_attacks(5, 0), 0x0000000000000302);
    assert_eq!(pawn_attacks_from(60, 0), 0x0000000000000000);
    assert_eq!(pawn_attacks_from(60, 1), 0x0028000000000000);
    assert_eq!(pawn_push_from(60, 0), 0x0000000000000000);
    assert_eq!(pawn_push_from(60, 1), 0x0010000000000000);
    assert_eq!(pseudo_attacks(0, 60), 0x0000000000000000);
    assert_eq!(pseudo_attacks(1, 60), 0x0044280000000000);
    assert_eq!(pseudo_attacks(2, 60), 0x0028448201000000);
    assert_eq!(pseudo_attacks(3, 60), 0xef10101010101010);
    assert_eq!(pseudo_attacks(4, 60), 0xef38549211101010);
    assert_eq!(pseudo_attacks(5, 60), 0x2838000000000000);
    assert_eq!(Piece::PAWN, 2);
    assert_eq!(Piece::KING, 7);
}
