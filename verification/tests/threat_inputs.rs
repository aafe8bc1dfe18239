use nnue_threats::board::PackedBoard;
use nnue_threats::threat_inputs::{threat_indices, map_piece_threat, flip_horizontal, target_is, map_features_bucketed, ThreatInputsBucketsMirrored};

#[test]
fn threat_offsets() {
    let ix = threat_indices();
    assert_eq!(ix.knight[64], 336);
    assert_eq!(ix.bishop[64], 560);
    assert_eq!(ix.rook[64], 896);
    assert_eq!(ix.queen[64], 1456);
    assert_eq!(ix.king[64], 420);
    assert_eq!(ix.knight[10], 33);
    assert_eq!(ix.queen[40], 920);
    assert_eq!(ix.knight_offset(), 504);
    assert_eq!(ix.bishop_offset(), 4536);
    assert_eq!(ix.rook_offset(), 10136);
    assert_eq!(ix.queen_offset(), 19096);
    assert_eq!(ix.king_offset(), 36568);
    assert_eq!(ix.end(), 39928);
    assert_eq!(2 * ix.end(), ThreatInputsBucketsMirrored::THREATS_SIZE);
}

#[test]
fn piece_threat_indices() {
    let ix = threat_indices();
    assert_eq!(map_piece_threat(&ix, 6, 32, 41, 0, false), Some(19840));
    assert_eq!(map_piece_threat(&ix, 3, 6, 21, 3, false), Some(1534));
    assert_eq!(map_piece_threat(&ix, 6, 13, 12, 6, false), Some(28120));
    assert_eq!(map_piece_threat(&ix, 3, 49, 32, 2, false), Some(1451));
    assert_eq!(map_piece_threat(&ix, 3, 16, 1, 3, true), Some(1576));
    assert_eq!(map_piece_threat(&ix, 3, 21, 15, 8, true), Some(3293));
    assert_eq!(map_piece_threat(&ix, 3, 25, 19, 6, true), Some(2642));
    assert_eq!(map_piece_threat(&ix, 3, 33, 48, 9, true), Some(3704));
    assert_eq!(map_piece_threat(&ix, 6, 43, 57, 4, false), None);
    assert_eq!(map_piece_threat(&ix, 7, 40, 33, 0, false), Some(36837));
    assert_eq!(map_piece_threat(&ix, 2, 45, 38, 5, false), None);
    assert_eq!(map_piece_threat(&ix, 6, 1, 2, 9, true), Some(32222));
    assert_eq!(map_piece_threat(&ix, 2, 31, 22, 8, false), None);
    assert_eq!(map_piece_threat(&ix, 5, 13, 5, 6, true), Some(14798));
    assert_eq!(map_piece_threat(&ix, 3, 43, 53, 4, true), Some(2091));
    assert_eq!(map_piece_threat(&ix, 4, 40, 26, 10, true), None);
    assert_eq!(map_piece_threat(&ix, 7, 39, 30, 1, false), Some(37251));
    assert_eq!(map_piece_threat(&ix, 2, 30, 23, 10, false), None);
    assert_eq!(map_piece_threat(&ix, 3, 7, 22, 3, true), Some(1537));
    assert_eq!(map_piece_threat(&ix, 7, 16, 24, 5, true), None);
    assert_eq!(map_piece_threat(&ix, 2, 53, 44, 8, false), None);
    assert_eq!(map_piece_threat(&ix, 5, 40, 41, 6, true), Some(15181));
    assert_eq!(map_piece_threat(&ix, 2, 48, 57, 5, true), None);
    assert_eq!(map_piece_threat(&ix, 6, 46, 45, 11, true), Some(36192));
    assert_eq!(map_piece_threat(&ix, 4, 46, 53, 11, false), Some(10002));
    assert_eq!(map_piece_threat(&ix, 4, 22, 29, 5, false), Some(6963));
    assert_eq!(map_piece_threat(&ix, 5, 36, 37, 5, false), Some(14232));
    assert_eq!(map_piece_threat(&ix, 4, 22, 29, 8, true), None);
    assert_eq!(map_piece_threat(&ix, 6, 21, 23, 4, true), None);
    assert_eq!(map_piece_threat(&ix, 7, 53, 61, 4, false), None);
    assert_eq!(map_piece_threat(&ix, 7, 3, 11, 9, true), Some(39524));
    assert_eq!(map_piece_threat(&ix, 3, 23, 13, 2, true), Some(1289));
    assert_eq!(map_piece_threat(&ix, 3, 14, 31, 3, true), Some(1572));
    assert_eq!(map_piece_threat(&ix, 5, 59, 60, 1, true), Some(11868));
    assert_eq!(map_piece_threat(&ix, 3, 47, 53, 6, true), Some(2790));
    assert_eq!(map_piece_threat(&ix, 7, 47, 46, 1, false), Some(37311));
    assert_eq!(map_piece_threat(&ix, 6, 43, 27, 6, false), Some(28828));
    assert_eq!(map_piece_threat(&ix, 6, 47, 61, 9, false), Some(33306));
    assert_eq!(map_piece_threat(&ix, 3, 17, 34, 0, false), Some(577));
    assert_eq!(map_piece_threat(&ix, 2, 41, 50, 6, false), Some(310));
    assert_eq!(map_piece_threat(&ix, 3, 63, 53, 6, true), Some(2855));
    assert_eq!(map_piece_threat(&ix, 6, 33, 36, 0, false), Some(19857));
    assert_eq!(map_piece_threat(&ix, 4, 62, 44, 1, false), Some(5646));
    assert_eq!(map_piece_threat(&ix, 3, 37, 52, 0, false), Some(712));
    assert_eq!(map_piece_threat(&ix, 6, 35, 49, 0, true), Some(19914));
    assert_eq!(map_piece_threat(&ix, 5, 34, 32, 4, false), None);
    assert_eq!(map_piece_threat(&ix, 6, 60, 52, 4, false), Some(26304));
    assert_eq!(map_piece_threat(&ix, 6, 43, 27, 7, false), Some(30284));
    assert_eq!(map_piece_threat(&ix, 4, 16, 43, 10, true), None);
    assert_eq!(map_piece_threat(&ix, 7, 24, 32, 9, false), Some(39663));
    assert_eq!(map_piece_threat(&ix, 5, 60, 59, 4, false), None);
    assert_eq!(map_piece_threat(&ix, 2, 38, 47, 9, false), Some(474));
    assert_eq!(map_piece_threat(&ix, 7, 60, 59, 11, false), None);
    assert_eq!(map_piece_threat(&ix, 4, 19, 1, 1, true), Some(5247));
    assert_eq!(map_piece_threat(&ix, 4, 10, 1, 5, false), Some(6848));
    assert_eq!(map_piece_threat(&ix, 2, 51, 42, 3, true), Some(243));
    assert_eq!(map_piece_threat(&ix, 7, 17, 26, 2, true), Some(37514));
    assert_eq!(map_piece_threat(&ix, 6, 23, 5, 9, true), Some(32715));
    assert_eq!(map_piece_threat(&ix, 2, 13, 6, 0, true), Some(10));
    assert_eq!(map_piece_threat(&ix, 7, 51, 43, 5, false), None);
    assert!(target_is(7, 3));
    assert!(!target_is(7, 4));
}

#[test]
fn horizontal_flip() {
    assert_eq!(flip_horizontal(0x0000000000000000), 0x0000000000000000);
    assert_eq!(flip_horizontal(flip_horizontal(0x0000000000000000)), 0x0000000000000000);
    assert_eq!(flip_horizontal(0x0000000000000001), 0x0000000000000080);
    assert_eq!(flip_horizontal(flip_horizontal(0x0000000000000001)), 0x0000000000000001);
    assert_eq!(flip_horizontal(0x0000000000000080), 0x0000000000000001);
    assert_eq!(flip_horizontal(flip_horizontal(0x0000000000000080)), 0x0000000000000080);
    assert_eq!(flip_horizontal(0x0101010101010101), 0x8080808080808080);
    assert_eq!(flip_horizontal(flip_horizontal(0x0101010101010101)), 0x0101010101010101);
    assert_eq!(flip_horizontal(0x123456789abcdef0), 0x482c6a1e593d7b0f);
    assert_eq!(flip_horizontal(flip_horizontal(0x123456789abcdef0)), 0x123456789abcdef0);
    assert_eq!(flip_horizontal(0xffffffffffffffff), 0xffffffffffffffff);
    assert_eq!(flip_horizontal(flip_horizontal(0xffffffffffffffff)), 0xffffffffffffffff);
}

#[test]
fn bucketed_threat_features_position_0() {
    // rnbqkbnr/pppppppp/8/8/8/8/PPPPPPPP/RNBQKBNR w KQkq - 0 1
    let pos = PackedBoard { occ: 0xffff00000000ffff, pcs: [19, 66, 37, 49, 0, 0, 0, 0, 136, 136, 136, 136, 155, 202, 173, 185], ksq: 4, opp_ksq: 4 };
    let ix = threat_indices();
    let inputs = ThreatInputsBucketsMirrored::new();
    assert!(pos.well_formed() && pos.pawns_inside());
    assert_eq!(inputs.threat_counts(&ix, &pos), (38, 38));
    let expected: Vec<(usize, usize)> = vec![(22976, 23096), (384, 504), (22721, 22841), (129, 249), (22850, 22970), (258, 378), (23107, 23227), (515, 635), (23236, 23292), (644, 764), (22853, 22973), (261, 381), (22726, 22846), (134, 254), (22983, 23103), (391, 511), (22600, 22704), (8, 112), (22601, 22705), (9, 113), (22602, 22706), (10, 114), (22603, 22707), (11, 115), (22604, 22708), (12, 116), (22605, 22709), (13, 117), (22606, 22710), (14, 118), (22607, 22711), (15, 119), (22704, 22600), (112, 8), (22705, 22601), (113, 9), (22706, 22602), (114, 10), (22707, 22603), (115, 11), (22708, 22604), (116, 12), (22709, 22605), (117, 13), (22710, 22606), (118, 14), (22711, 22607), (119, 15), (23096, 22976), (504, 384), (22841, 22721), (249, 129), (22970, 22850), (378, 258), (23227, 23107), (635, 515), (23292, 23236), (764, 644), (22973, 22853), (381, 261), (22846, 22726), (254, 134), (23103, 22983), (511, 391), (23802, 23802), (23821, 23821), (27846, 27846), (27847, 27847), (27867, 27867), (27868, 27868), (34328, 34328), (33439, 33439), (34432, 34432), (33537, 33537), (45369, 45369), (49738, 49738), (42462, 42462), (42463, 42463), (42464, 42464), (60723, 60723), (59884, 59884), (59885, 59885), (59886, 59886), (66058, 66058), (66077, 66077), (71083, 71083), (71084, 71084), (71104, 71104), (71105, 71105), (78630, 78630), (79527, 79527), (78728, 78728), (79631, 79631), (92418, 92418), (92419, 92419), (92420, 92420), (95335, 95335), (99704, 99704), (101874, 101874), (101875, 101875), (101876, 101876), (102718, 102718)];
    assert_eq!(inputs.map_features(&ix, &pos), expected);
}

#[test]
fn bucketed_threat_features_position_1() {
    // r1bq1rk1/ppppbppp/3n4/4R3/8/8/PPPP1PPP/RNBQ1BK1 w - - 1 9
    let pos = PackedBoard { occ: 0x6dff08100000ef6f, pcs: [19, 66, 82, 0, 0, 0, 48, 137, 136, 168, 136, 184, 202, 219, 0, 0], ksq: 6, opp_ksq: 6 };
    let ix = threat_indices();
    let inputs = ThreatInputsBucketsMirrored::new();
    assert!(pos.well_formed() && pos.pawns_inside());
    assert_eq!(inputs.threat_counts(&ix, &pos), (36, 36));
    let expected: Vec<(usize, usize)> = vec![(21568, 21688), (384, 504), (21313, 21433), (129, 249), (21442, 21562), (258, 378), (21699, 21819), (515, 635), (21445, 21565), (261, 381), (21830, 21886), (646, 766), (21192, 21296), (8, 112), (21193, 21297), (9, 113), (21194, 21298), (10, 114), (21195, 21299), (11, 115), (21197, 21301), (13, 117), (21198, 21302), (14, 118), (21199, 21303), (15, 119), (21604, 21660), (420, 476), (21419, 21331), (235, 147), (21296, 21192), (112, 8), (21297, 21193), (113, 9), (21298, 21194), (114, 10), (21299, 21195), (115, 11), (21556, 21452), (372, 268), (21301, 21197), (117, 13), (21302, 21198), (118, 14), (21303, 21199), (119, 15), (21688, 21568), (504, 384), (21562, 21442), (378, 258), (21819, 21699), (635, 515), (21693, 21573), (509, 389), (21886, 21830), (766, 646), (23802, 23384), (27846, 24554), (27847, 23884), (27868, 23885), (34328, 27846), (33439, 27847), (40220, 29603), (45369, 28484), (45371, 35225), (42462, 33439), (42463, 37091), (60732, 33509), (59894, 45369), (59895, 46827), (59896, 42462), (63634, 42463), (65986, 45376), (65987, 61152), (66660, 59894), (71595, 59895), (72718, 59896), (71083, 66058), (71084, 71083), (78630, 71084), (80424, 71105), (78700, 75545), (82290, 78630), (92418, 79527), (92419, 92418), (95332, 92419), (95335, 95335), (96793, 95337), (101884, 101884), (101885, 101885), (101886, 101886), (103147, 102727)];
    assert_eq!(inputs.map_features(&ix, &pos), expected);
}

#[test]
fn bucketed_threat_features_position_2() {
    // r1bq1rk1/ppppbppp/3n4/4R3/8/8/PPPP1PPP/RNBQ1BK1 b - - 1 9
    let pos = PackedBoard { occ: 0x6fef00001008ff6d, pcs: [35, 52, 5, 0, 32, 0, 16, 139, 136, 136, 136, 155, 202, 218, 0, 0], ksq: 6, opp_ksq: 6 };
    let ix = threat_indices();
    let inputs = ThreatInputsBucketsMirrored::new();
    assert!(pos.well_formed() && pos.pawns_inside());
    assert_eq!(inputs.threat_counts(&ix, &pos), (36, 36));
    let expected: Vec<(usize, usize)> = vec![(21568, 21688), (384, 504), (21442, 21562), (258, 378), (21699, 21819), (515, 635), (21573, 21693), (389, 509), (21830, 21886), (646, 766), (21192, 21296), (8, 112), (21193, 21297), (9, 113), (21194, 21298), (10, 114), (21195, 21299), (11, 115), (21452, 21556), (268, 372), (21197, 21301), (13, 117), (21198, 21302), (14, 118), (21199, 21303), (15, 119), (21331, 21419), (147, 235), (21660, 21604), (476, 420), (21296, 21192), (112, 8), (21297, 21193), (113, 9), (21298, 21194), (114, 10), (21299, 21195), (115, 11), (21301, 21197), (117, 13), (21302, 21198), (118, 14), (21303, 21199), (119, 15), (21688, 21568), (504, 384), (21433, 21313), (249, 129), (21562, 21442), (378, 258), (21819, 21699), (635, 515), (21565, 21445), (381, 261), (21886, 21830), (766, 646), (23384, 23802), (24554, 27846), (23884, 27847), (23885, 27868), (27846, 34328), (27847, 33439), (29603, 40220), (28484, 45369), (35225, 45371), (33439, 42462), (37091, 42463), (33509, 60732), (45369, 59894), (46827, 59895), (42462, 59896), (42463, 63634), (45376, 65986), (61152, 65987), (59894, 66660), (59895, 71595), (59896, 72718), (66058, 71083), (71083, 71084), (71084, 78630), (71105, 80424), (75545, 78700), (78630, 82290), (79527, 92418), (92418, 92419), (92419, 95332), (95335, 95335), (95337, 96793), (101884, 101884), (101885, 101885), (101886, 101886), (102727, 103147)];
    assert_eq!(inputs.map_features(&ix, &pos), expected);
}

#[test]
fn bucketed_threat_features_position_3() {
    // 8/8/4k3/3q4/8/2N5/4K3/8 w - - 0 1
    let pos = PackedBoard { occ: 0x0000100800041000, pcs: [21, 220, 0, 0, 0, 0, 0, 0, 0, 0, 0, 0, 0, 0, 0, 0], ksq: 12, opp_ksq: 20 };
    let ix = threat_indices();
    let inputs = ThreatInputsBucketsMirrored::new();
    assert!(pos.well_formed() && pos.pawns_inside());
    assert_eq!(inputs.threat_counts(&ix, &pos), (3, 3));
    let expected: Vec<(usize, usize)> = vec![(20428, 17652), (652, 756), (19922, 17194), (146, 234), (20387, 17499), (611, 539), (20460, 17620), (748, 660), (25557, 50285), (27241, 65303), (99153, 67659)];
    assert_eq!(inputs.map_features(&ix, &pos), expected);
}

#[test]
fn bucketed_threat_features_position_4() {
    // 4k3/8/8/3pP3/8/8/8/4K3 w - d6 0 1
    let pos = PackedBoard { occ: 0x1000001800000010, pcs: [133, 208, 0, 0, 0, 0, 0, 0, 0, 0, 0, 0, 0, 0, 0, 0], ksq: 4, opp_ksq: 4 };
    let ix = threat_indices();
    let inputs = ThreatInputsBucketsMirrored::new();
    assert!(pos.well_formed() && pos.pawns_inside());
    assert_eq!(inputs.threat_counts(&ix, &pos), (0, 0));
    let expected: Vec<(usize, usize)> = vec![(23236, 23292), (644, 764), (22691, 22619), (99, 27), (22628, 22684), (36, 92), (23292, 23236), (764, 644)];
    assert_eq!(inputs.map_features(&ix, &pos), expected);
}

#[test]
fn sizes_of_bucketed_threat_inputs() {
    let inputs = ThreatInputsBucketsMirrored::new();
    assert_eq!(inputs.num_inputs(), 768 + 79856 + 22528);
    assert_eq!(inputs.max_active(), 160);
    assert_eq!(ThreatInputsBucketsMirrored::make_index(1, 10, 9, 60), nnue_threats::full_threats::ThreatInputsBucketsMirrored::make_index(1, 10, 9, 60));
}

#[test]
fn bucketed_threat_counts_agree_with_kings_on_opposite_wings() {
    let ix = threat_indices();
    let inputs = ThreatInputsBucketsMirrored::new();
    // 1k6/8/2nn4/3pp3/3PP3/2NN4/4R1r1/6K1 w - - 0 1
    let pos = PackedBoard { occ: 0x02000c18180c5040, pcs: [53, 27, 1, 128, 152, 217, 0, 0, 0, 0, 0, 0, 0, 0, 0, 0], ksq: 6, opp_ksq: 1 };
    assert!(pos.well_formed() && pos.pawns_inside());
    assert_eq!(inputs.threat_counts(&ix, &pos), (14, 14));
    // 1k5q/1b6/8/3Bb3/8/8/r1R5/Q5K1 b - - 0 1
    let pos = PackedBoard { occ: 0x4105000018000282, pcs: [69, 162, 50, 203, 13, 0, 0, 0, 0, 0, 0, 0, 0, 0, 0, 0], ksq: 1, opp_ksq: 6 };
    assert!(pos.well_formed() && pos.pawns_inside());
    assert_eq!(inputs.threat_counts(&ix, &pos), (10, 10));
}

#[test]
fn threats_fit_exactly_where_they_map_in_range() {
    let inputs = ThreatInputsBucketsMirrored::new();
    // rnbqkbnr/pppppppp/8/8/8/8/PPPPPPPP/RNBQKBNR w KQkq - 0 1
    let pos = PackedBoard { occ: 0xffff00000000ffff, pcs: [19, 66, 37, 49, 0, 0, 0, 0, 136, 136, 136, 136, 155, 202, 173, 185], ksq: 4, opp_ksq: 4 };
    assert!(inputs.threats_fit(&pos));
    // 4k3/8/8/8/8/8/2n5/1P2K3 w - - 0 1: a pawn on the first rank threatens a knight
    let pos = PackedBoard { occ: 0x1000000000000412, pcs: [80, 217, 0, 0, 0, 0, 0, 0, 0, 0, 0, 0, 0, 0, 0, 0], ksq: 4, opp_ksq: 4 };
    assert!(pos.well_formed());
    assert!(!pos.pawns_inside());
    assert!(!inputs.threats_fit(&pos));
    // 4k3/8/8/8/8/8/8/P3K3 w - - 0 1: a pawn on the first rank that threatens nothing
    let pos = PackedBoard { occ: 0x1000000000000011, pcs: [80, 13, 0, 0, 0, 0, 0, 0, 0, 0, 0, 0, 0, 0, 0, 0], ksq: 4, opp_ksq: 4 };
    assert!(pos.well_formed());
    assert!(!pos.pawns_inside());
    assert!(inputs.threats_fit(&pos));
    let ix = threat_indices();
    assert_eq!(inputs.threat_counts(&ix, &pos), (0, 0));
}

#[test]
fn mirrored_threats_kept_once_and_covered_threats_given_back() {
    let ix = threat_indices();
    // knights on c3 and d5 threaten each other: only the threat towards the lower square counts
    assert_eq!(map_piece_threat(&ix, 3, 18, 35, 7, true), None);
    assert_eq!(map_piece_threat(&ix, 3, 35, 18, 1, true), Some(1026));
    // enemy pawns on d4 and e5
    assert_eq!(map_piece_threat(&ix, 2, 27, 36, 6, true), None);
    assert_eq!(map_piece_threat(&ix, 2, 36, 27, 0, true), Some(49));
    // a pawn's threat on a bishop or queen is given by the bishop or queen attacking the pawn
    assert_eq!(map_piece_threat(&ix, 2, 27, 36, 8, true), None);
    assert_eq!(map_piece_threat(&ix, 4, 36, 27, 0, true), Some(4861));
    assert_eq!(map_piece_threat(&ix, 2, 27, 36, 10, true), None);
    assert_eq!(map_piece_threat(&ix, 6, 36, 27, 0, true), Some(19928));
    // a rook's or bishop's threat on a queen is given by the queen attacking back
    assert_eq!(map_piece_threat(&ix, 5, 0, 8, 10, true), None);
    assert_eq!(map_piece_threat(&ix, 6, 8, 0, 3, true), Some(23632));
    assert_eq!(map_piece_threat(&ix, 4, 0, 9, 10, true), None);
    assert_eq!(map_piece_threat(&ix, 6, 9, 0, 2, true), Some(22197));
}

#[test]
fn file_mirror_keeps_bucketed_features() {
    // r1bq1rk1/ppppbppp/3n4/4R3/8/8/PPPP1PPP/RNBQ1BK1 w - - 1 9 and its file mirror
    let pos = PackedBoard { occ: 0x6dff08100000ef6f, pcs: [19, 66, 82, 0, 0, 0, 48, 137, 136, 168, 136, 184, 202, 219, 0, 0], ksq: 6, opp_ksq: 6 };
    let mirrored = PackedBoard { occ: 0xb6ff10080000f7f6, pcs: [37, 36, 49, 0, 0, 0, 48, 137, 136, 138, 136, 216, 203, 186, 0, 0], ksq: 1, opp_ksq: 1 };
    let ix = threat_indices();
    let inputs = ThreatInputsBucketsMirrored::new();
    let mut a = inputs.map_features(&ix, &pos);
    let mut b = inputs.map_features(&ix, &mirrored);
    a.sort();
    b.sort();
    assert_eq!(a.len(), 92);
    assert_eq!(a, b);
}

#[test]
fn bucketed_threats_under_file_mirror() {
    // Kh1 Pe4 / Pd5 Kh8 and its file mirror
    let ix = threat_indices();
    let bbs: [u64; 8] = [0x10000080, 0x8000000800000000, 0x810000000, 0, 0, 0, 0, 0x8000000000000080];
    let mut flipped = [0u64; 8];
    for i in 0..8 {
        flipped[i] = flip_horizontal(bbs[i]);
    }
    assert_eq!(flipped, [0x8000001, 0x100001000000000, 0x1008000000, 0, 0, 0, 0, 0x100000000000001]);
    assert_eq!(map_features_bucketed(&ix, bbs), vec![39976]);
    assert_eq!(map_features_bucketed(&ix, flipped), vec![39976]);
}

#[test]
fn bucketed_threat_features_are_distinct() {
    // r1bq1rk1/ppppbppp/3n4/4R3/8/8/PPPP1PPP/RNBQ1BK1 w - - 1 9: 28 pieces
    let pos = PackedBoard { occ: 0x6dff08100000ef6f, pcs: [19, 66, 82, 0, 0, 0, 48, 137, 136, 168, 136, 184, 202, 219, 0, 0], ksq: 6, opp_ksq: 6 };
    let ix = threat_indices();
    let inputs = ThreatInputsBucketsMirrored::new();
    let features = inputs.map_features(&ix, &pos);
    let threats = features.len() - 56;
    assert_eq!(features.len(), 92);
    let mut stm: Vec<usize> = features[56..].iter().map(|p| p.0).collect();
    let mut ntm: Vec<usize> = features[56..].iter().map(|p| p.1).collect();
    stm.sort();
    stm.dedup();
    ntm.sort();
    ntm.dedup();
    assert_eq!(stm.len(), threats);
    assert_eq!(ntm.len(), threats);
}
