use nnue_threats::board::{PackedBoard, SfMaterialCount, keeps_entry};
use nnue_threats::full_threats::{threat_feature_calculation, factorised_weight_index, piece_id, threat_index, map_full_threats, ThreatInputsBucketsMirrored};

#[test]
fn threat_feature_count() {
    let calc = threat_feature_calculation();
    assert_eq!(calc.total_features, 60720);
    assert_eq!(calc.total_features, ThreatInputsBucketsMirrored::THREATS_SIZE);
    assert_eq!(calc.table.len(), 12);
    for row in calc.table.iter() {
        assert_eq!(row.len(), 66);
    }

    assert_eq!(calc.table[0][64], 132);
    assert_eq!(calc.table[0][65], 0);
    assert_eq!(calc.table[0][20], 33);
    assert_eq!(calc.table[1][64], 132);
    assert_eq!(calc.table[1][65], 30360);
    assert_eq!(calc.table[1][20], 33);
    assert_eq!(calc.table[2][64], 336);
    assert_eq!(calc.table[2][65], 792);
    assert_eq!(calc.table[2][20], 90);
    assert_eq!(calc.table[3][64], 336);
    assert_eq!(calc.table[3][65], 31152);
    assert_eq!(calc.table[3][20], 90);
    assert_eq!(calc.table[4][64], 560);
    assert_eq!(calc.table[4][65], 4152);
    assert_eq!(calc.table[4][20], 162);
    assert_eq!(calc.table[5][64], 560);
    assert_eq!(calc.table[5][65], 34512);
    assert_eq!(calc.table[5][20], 162);
    assert_eq!(calc.table[6][64], 896);
    assert_eq!(calc.table[6][65], 8632);
    assert_eq!(calc.table[6][20], 280);
    assert_eq!(calc.table[7][64], 896);
    assert_eq!(calc.table[7][65], 38992);
    assert_eq!(calc.table[7][20], 280);
    assert_eq!(calc.table[8][64], 1456);
    assert_eq!(calc.table[8][65], 15800);
    assert_eq!(calc.table[8][20], 442);
    assert_eq!(calc.table[9][64], 1456);
    assert_eq!(calc.table[9][65], 46160);
    assert_eq!(calc.table[9][20], 442);
    assert_eq!(calc.table[10][64], 420);
    assert_eq!(calc.table[10][65], 30360);
    assert_eq!(calc.table[10][20], 123);
    assert_eq!(calc.table[11][64], 420);
    assert_eq!(calc.table[11][65], 60720);
    assert_eq!(calc.table[11][20], 123);
}

#[test]
fn bucketed_indices() {
    assert_eq!(ThreatInputsBucketsMirrored::make_index(1, 59, 9, 24), 11396);
    assert_eq!(ThreatInputsBucketsMirrored::make_index(0, 60, 12, 23), 14716);
    assert_eq!(ThreatInputsBucketsMirrored::make_index(0, 57, 4, 18), 16062);
    assert_eq!(ThreatInputsBucketsMirrored::make_index(0, 5, 11, 50), 4674);
    assert_eq!(ThreatInputsBucketsMirrored::make_index(1, 20, 11, 1), 20843);
    assert_eq!(ThreatInputsBucketsMirrored::make_index(0, 7, 0, 24), 11264);
    assert_eq!(ThreatInputsBucketsMirrored::make_index(0, 3, 9, 41), 6532);
    assert_eq!(ThreatInputsBucketsMirrored::make_index(1, 25, 10, 29), 12961);
    assert_eq!(ThreatInputsBucketsMirrored::make_index(1, 63, 0, 10), 18368);
    assert_eq!(ThreatInputsBucketsMirrored::make_index(1, 35, 8, 10), 18332);
    assert_eq!(ThreatInputsBucketsMirrored::make_index(1, 40, 3, 36), 11024);
    assert_eq!(ThreatInputsBucketsMirrored::make_index(0, 8, 11, 13), 18760);
    assert_eq!(ThreatInputsBucketsMirrored::make_index(1, 13, 4, 49), 4146);
    assert_eq!(ThreatInputsBucketsMirrored::make_index(0, 2, 12, 0), 20293);
    assert_eq!(ThreatInputsBucketsMirrored::make_index(0, 26, 0, 60), 2138);
    assert_eq!(ThreatInputsBucketsMirrored::make_index(1, 50, 8, 9), 17613);
    assert_eq!(ThreatInputsBucketsMirrored::make_index(0, 34, 5, 11), 19685);
    assert_eq!(ThreatInputsBucketsMirrored::make_index(1, 42, 0, 52), 5010);
    assert_eq!(ThreatInputsBucketsMirrored::make_index(0, 17, 3, 12), 19409);
    assert_eq!(ThreatInputsBucketsMirrored::make_index(0, 7, 9, 62), 903);
    assert_eq!(ThreatInputsBucketsMirrored::make_index(0, 24, 9, 24), 11487);
    assert_eq!(ThreatInputsBucketsMirrored::make_index(0, 53, 12, 49), 4146);
    assert_eq!(ThreatInputsBucketsMirrored::make_index(0, 50, 8, 27), 13493);
    assert_eq!(ThreatInputsBucketsMirrored::make_index(0, 34, 11, 38), 9634);
    assert_eq!(ThreatInputsBucketsMirrored::make_index(0, 26, 2, 50), 4509);
    assert_eq!(ThreatInputsBucketsMirrored::make_index(0, 5, 2, 27), 13634);
    assert_eq!(ThreatInputsBucketsMirrored::make_index(1, 33, 0, 42), 7134);
    assert_eq!(ThreatInputsBucketsMirrored::make_index(1, 49, 1, 9), 17806);
    assert_eq!(ThreatInputsBucketsMirrored::make_index(0, 26, 11, 31), 11738);
    assert_eq!(ThreatInputsBucketsMirrored::make_index(0, 47, 5, 58), 2088);
    assert_eq!(ThreatInputsBucketsMirrored::make_index(0, 61, 11, 17), 15290);
    assert_eq!(ThreatInputsBucketsMirrored::make_index(1, 23, 12, 19), 16744);
    assert_eq!(ThreatInputsBucketsMirrored::make_index(1, 29, 11, 31), 11685);
    assert_eq!(ThreatInputsBucketsMirrored::make_index(0, 20, 13, 25), 12627);
    assert_eq!(ThreatInputsBucketsMirrored::make_index(1, 61, 11, 10), 18690);
    assert_eq!(ThreatInputsBucketsMirrored::make_index(1, 6, 1, 13), 18558);
    assert_eq!(ThreatInputsBucketsMirrored::make_index(0, 32, 3, 50), 4647);
    assert_eq!(ThreatInputsBucketsMirrored::make_index(1, 53, 11, 62), 1101);
    assert_eq!(ThreatInputsBucketsMirrored::make_index(1, 22, 13, 8), 17577);
    assert_eq!(ThreatInputsBucketsMirrored::make_index(0, 29, 9, 9), 17818);
    assert_eq!(ThreatInputsBucketsMirrored::derive_factorised_feature(0), 0);
    assert_eq!(ThreatInputsBucketsMirrored::derive_factorised_feature(5), 5);
    assert_eq!(ThreatInputsBucketsMirrored::derive_factorised_feature(640), 704);
    assert_eq!(ThreatInputsBucketsMirrored::derive_factorised_feature(700), 764);
    assert_eq!(ThreatInputsBucketsMirrored::derive_factorised_feature(703), 703);
    assert_eq!(ThreatInputsBucketsMirrored::derive_factorised_feature(1347), 707);
    assert_eq!(ThreatInputsBucketsMirrored::derive_factorised_feature(4167), 711);
    assert_eq!(ThreatInputsBucketsMirrored::derive_factorised_feature(22527), 767);
    assert_eq!(ThreatInputsBucketsMirrored::derive_factorised_feature(22527), 767);
    assert_eq!(ThreatInputsBucketsMirrored::derive_factorised_feature(12345), 377);
    assert_eq!(ThreatInputsBucketsMirrored::derive_factorised_feature(20356), 708);
    assert_eq!(ThreatInputsBucketsMirrored::derive_factorised_feature(20355), 707);
    assert_eq!(piece_id(3, 1), 7);
}

#[test]
fn factorised_weights() {
    assert_eq!(factorised_weight_index(22528 * 4, 4), None);
    assert_eq!(factorised_weight_index(3, 4), Some(3));
    assert_eq!(factorised_weight_index(11 * 4 + 2, 4), Some(11 * 4 + 2));

    assert_eq!(factorised_weight_index(8453, 4), Some(5));
    assert_eq!(factorised_weight_index(162851, 8), Some(5667));
    assert_eq!(factorised_weight_index(162841, 8), Some(5657));
}

#[test]
fn sizes() {
    let inputs = ThreatInputsBucketsMirrored::new();
    assert_eq!(inputs.num_inputs(), 768 + 60720 + 22528);
    assert_eq!(inputs.max_active(), 160);
    assert_eq!(ThreatInputsBucketsMirrored::HALFKA_V2_SIZE, 22528);
}

#[test]
fn full_threat_features_position_0() {
    // rnbqkbnr/pppppppp/8/8/8/8/PPPPPPPP/RNBQKBNR w KQkq - 0 1
    let pos = PackedBoard { occ: 0xffff00000000ffff, pcs: [19, 66, 37, 49, 0, 0, 0, 0, 136, 136, 136, 136, 155, 202, 173, 185], ksq: 4, opp_ksq: 4 };
    let calc = threat_feature_calculation();
    let inputs = ThreatInputsBucketsMirrored::new();
    assert!(pos.well_formed());
    assert_eq!(inputs.threat_counts(&calc, &pos), (28, 28));
    assert_eq!(pos.pieces(), vec![(3, 0), (1, 1), (2, 2), (4, 3), (5, 4), (2, 5), (1, 6), (3, 7), (0, 8), (0, 9), (0, 10), (0, 11), (0, 12), (0, 13), (0, 14), (0, 15), (8, 48), (8, 49), (8, 50), (8, 51), (8, 52), (8, 53), (8, 54), (8, 55), (11, 56), (9, 57), (10, 58), (12, 59), (13, 60), (10, 61), (9, 62), (11, 63)]);
    let expected: Vec<(usize, usize)> = vec![(22976, 23096), (384, 504), (22721, 22841), (129, 249), (22850, 22970), (258, 378), (23107, 23227), (515, 635), (23236, 23292), (644, 764), (22853, 22973), (261, 381), (22726, 22846), (134, 254), (22983, 23103), (391, 511), (22600, 22704), (8, 112), (22601, 22705), (9, 113), (22602, 22706), (10, 114), (22603, 22707), (11, 115), (22604, 22708), (12, 116), (22605, 22709), (13, 117), (22606, 22710), (14, 118), (22607, 22711), (15, 119), (22704, 22600), (112, 8), (22705, 22601), (113, 9), (22706, 22602), (114, 10), (22707, 22603), (115, 11), (22708, 22604), (116, 12), (22709, 22605), (117, 13), (22710, 22606), (118, 14), (22711, 22607), (119, 15), (23096, 22976), (504, 384), (22841, 22721), (249, 129), (22970, 22850), (378, 258), (23227, 23107), (635, 515), (23292, 23236), (764, 644), (22973, 22853), (381, 261), (22846, 22726), (254, 134), (23103, 22983), (511, 391), (24109, 24109), (24090, 24090), (27484, 27484), (27483, 27483), (27463, 27463), (27462, 27462), (32928, 32033), (32033, 32928), (32824, 31935), (31935, 32824), (42096, 39189), (39189, 39188), (39188, 39187), (39187, 42096), (56461, 56461), (56442, 56442), (60593, 60593), (60592, 60592), (60572, 60572), (60571, 60571), (66760, 67663), (67663, 66760), (66662, 67559), (67559, 66662), (78121, 81038), (78120, 78121), (78119, 78120), (81038, 78119)];
    assert_eq!(inputs.map_features(&calc, &pos), expected);
    assert_eq!(SfMaterialCount.bucket(&pos), 7);
}

#[test]
fn full_threat_features_position_1() {
    // r1bq1rk1/ppppbppp/3n4/4R3/8/8/PPPP1PPP/RNBQ1BK1 w - - 1 9
    let pos = PackedBoard { occ: 0x6dff08100000ef6f, pcs: [19, 66, 82, 0, 0, 0, 48, 137, 136, 168, 136, 184, 202, 219, 0, 0], ksq: 6, opp_ksq: 6 };
    let calc = threat_feature_calculation();
    let inputs = ThreatInputsBucketsMirrored::new();
    assert!(pos.well_formed());
    assert_eq!(inputs.threat_counts(&calc, &pos), (27, 27));
    assert_eq!(pos.pieces(), vec![(3, 0), (1, 1), (2, 2), (4, 3), (2, 5), (5, 6), (0, 8), (0, 9), (0, 10), (0, 11), (0, 13), (0, 14), (0, 15), (3, 36), (9, 43), (8, 48), (8, 49), (8, 50), (8, 51), (10, 52), (8, 53), (8, 54), (8, 55), (11, 56), (10, 58), (12, 59), (11, 61), (13, 62)]);
    let expected: Vec<(usize, usize)> = vec![(21568, 21688), (384, 504), (21313, 21433), (129, 249), (21442, 21562), (258, 378), (21699, 21819), (515, 635), (21445, 21565), (261, 381), (21830, 21886), (646, 766), (21192, 21296), (8, 112), (21193, 21297), (9, 113), (21194, 21298), (10, 114), (21195, 21299), (11, 115), (21197, 21301), (13, 117), (21198, 21302), (14, 118), (21199, 21303), (15, 119), (21604, 21660), (420, 476), (21419, 21331), (235, 147), (21296, 21192), (112, 8), (21297, 21193), (113, 9), (21298, 21194), (114, 10), (21299, 21195), (115, 11), (21556, 21452), (372, 268), (21301, 21197), (117, 13), (21302, 21198), (118, 14), (21303, 21199), (119, 15), (21688, 21568), (504, 384), (21562, 21442), (378, 258), (21819, 21699), (635, 515), (21693, 21573), (509, 389), (21886, 21830), (766, 646), (24109, 23442), (27484, 24181), (27483, 24180), (27462, 24851), (32928, 28092), (32033, 29209), (37806, 27484), (42096, 27483), (42094, 32033), (39189, 33823), (39188, 31963), (54308, 39189), (56379, 39188), (56378, 42099), (57053, 42096), (61075, 43550), (62196, 56461), (60593, 60593), (60592, 60592), (66760, 60571), (68558, 67663), (66690, 66760), (78121, 64459), (78120, 81038), (81031, 81036), (81038, 78121), (82492, 78120)];
    assert_eq!(inputs.map_features(&calc, &pos), expected);
    assert_eq!(SfMaterialCount.bucket(&pos), 6);
}

#[test]
fn full_threat_features_position_2() {
    // r1bq1rk1/ppppbppp/3n4/4R3/8/8/PPPP1PPP/RNBQ1BK1 b - - 1 9
    let pos = PackedBoard { occ: 0x6fef00001008ff6d, pcs: [35, 52, 5, 0, 32, 0, 16, 139, 136, 136, 136, 155, 202, 218, 0, 0], ksq: 6, opp_ksq: 6 };
    let calc = threat_feature_calculation();
    let inputs = ThreatInputsBucketsMirrored::new();
    assert!(pos.well_formed());
    assert_eq!(inputs.threat_counts(&calc, &pos), (27, 27));
    assert_eq!(pos.pieces(), vec![(3, 0), (2, 2), (4, 3), (3, 5), (5, 6), (0, 8), (0, 9), (0, 10), (0, 11), (2, 12), (0, 13), (0, 14), (0, 15), (1, 19), (11, 28), (8, 48), (8, 49), (8, 50), (8, 51), (8, 53), (8, 54), (8, 55), (11, 56), (9, 57), (10, 58), (12, 59), (10, 61), (13, 62)]);
    let expected: Vec<(usize, usize)> = vec![(21568, 21688), (384, 504), (21442, 21562), (258, 378), (21699, 21819), (515, 635), (21573, 21693), (389, 509), (21830, 21886), (646, 766), (21192, 21296), (8, 112), (21193, 21297), (9, 113), (21194, 21298), (10, 114), (21195, 21299), (11, 115), (21452, 21556), (268, 372), (21197, 21301), (13, 117), (21198, 21302), (14, 118), (21199, 21303), (15, 119), (21331, 21419), (147, 235), (21660, 21604), (476, 420), (21296, 21192), (112, 8), (21297, 21193), (113, 9), (21298, 21194), (114, 10), (21299, 21195), (115, 11), (21301, 21197), (117, 13), (21302, 21198), (118, 14), (21303, 21199), (119, 15), (21688, 21568), (504, 384), (21433, 21313), (249, 129), (21562, 21442), (378, 258), (21819, 21699), (635, 515), (21565, 21445), (381, 261), (21886, 21830), (766, 646), (23442, 24109), (24851, 27484), (24181, 27483), (24180, 27462), (27484, 37806), (27483, 32033), (29209, 32928), (28092, 39189), (33823, 39188), (32033, 42096), (31963, 42094), (42096, 54308), (43550, 57053), (39189, 56379), (39188, 56378), (42099, 60593), (56461, 60592), (60593, 62196), (60592, 61075), (60571, 68558), (64459, 66760), (66760, 66690), (67663, 81038), (78121, 82492), (78120, 78121), (81038, 78120), (81036, 81031)];
    assert_eq!(inputs.map_features(&calc, &pos), expected);
    assert_eq!(SfMaterialCount.bucket(&pos), 6);
}

#[test]
fn full_threat_features_position_3() {
    // 8/8/4k3/3q4/8/2N5/4K3/8 w - - 0 1
    let pos = PackedBoard { occ: 0x0000100800041000, pcs: [21, 220, 0, 0, 0, 0, 0, 0, 0, 0, 0, 0, 0, 0, 0, 0], ksq: 12, opp_ksq: 20 };
    let calc = threat_feature_calculation();
    let inputs = ThreatInputsBucketsMirrored::new();
    assert!(pos.well_formed());
    assert_eq!(inputs.threat_counts(&calc, &pos), (1, 1));
    assert_eq!(pos.pieces(), vec![(5, 12), (1, 18), (12, 35), (13, 44)]);
    let expected: Vec<(usize, usize)> = vec![(20428, 17652), (652, 756), (19922, 17194), (146, 234), (20387, 17499), (611, 539), (20460, 17620), (748, 660), (27216, 56046)];
    assert_eq!(inputs.map_features(&calc, &pos), expected);
    assert_eq!(SfMaterialCount.bucket(&pos), 0);
}

#[test]
fn full_threat_features_position_4() {
    // 4k3/8/8/3pP3/8/8/8/4K3 w - d6 0 1
    let pos = PackedBoard { occ: 0x1000001800000010, pcs: [133, 208, 0, 0, 0, 0, 0, 0, 0, 0, 0, 0, 0, 0, 0, 0], ksq: 4, opp_ksq: 4 };
    let calc = threat_feature_calculation();
    let inputs = ThreatInputsBucketsMirrored::new();
    assert!(pos.well_formed());
    assert_eq!(inputs.threat_counts(&calc, &pos), (0, 0));
    assert_eq!(pos.pieces(), vec![(5, 4), (8, 35), (0, 36), (13, 60)]);
    let expected: Vec<(usize, usize)> = vec![(23236, 23292), (644, 764), (22691, 22619), (99, 27), (22628, 22684), (36, 92), (23292, 23236), (764, 644)];
    assert_eq!(inputs.map_features(&calc, &pos), expected);
    assert_eq!(SfMaterialCount.bucket(&pos), 0);
}

#[test]
fn threat_counts_agree_with_kings_on_opposite_wings() {
    // 1k6/8/2nn4/3pp3/3PP3/2NN4/4R1r1/6K1 w - - 0 1
    let pos = PackedBoard { occ: 0x02000c18180c5040, pcs: [53, 27, 1, 128, 152, 217, 0, 0, 0, 0, 0, 0, 0, 0, 0, 0], ksq: 6, opp_ksq: 1 };
    let calc = threat_feature_calculation();
    let inputs = ThreatInputsBucketsMirrored::new();
    assert!(pos.well_formed());
    assert_eq!(inputs.threat_counts(&calc, &pos), (13, 13));
    // 1k5q/1b6/8/3Bb3/8/8/r1R5/Q5K1 b - - 0 1
    let pos = PackedBoard { occ: 0x4105000018000282, pcs: [69, 162, 50, 203, 13, 0, 0, 0, 0, 0, 0, 0, 0, 0, 0, 0], ksq: 1, opp_ksq: 6 };
    assert!(pos.well_formed());
    assert_eq!(inputs.threat_counts(&calc, &pos), (6, 6));
}

#[test]
fn training_entry_filter() {
    assert!(keeps_entry(16, false, 0, true, true));
    assert!(keeps_entry(100, false, -10000, true, true));
    assert!(keeps_entry(100, false, 10000, true, true));
    assert!(!keeps_entry(15, false, 0, true, true));
    assert!(!keeps_entry(40, true, 0, true, true));
    assert!(!keeps_entry(40, false, 10001, true, true));
    assert!(!keeps_entry(40, false, -10001, true, true));
    assert!(!keeps_entry(40, false, i16::MIN, true, true));
    assert!(!keeps_entry(40, false, 0, false, true));
    assert!(!keeps_entry(40, false, 0, true, false));
}

#[test]
fn piece_square_indices_under_mirrors_and_factoriser() {
    // black's view of the colour-swapped, rank-mirrored piece is white's view
    assert_eq!(ThreatInputsBucketsMirrored::make_index(1, 12 ^ 56, 3 ^ 8, 22), 15180);
    assert_eq!(ThreatInputsBucketsMirrored::make_index(0, 12, 3, 22), 15180);
    // mirroring the files of the piece and of the king changes nothing
    assert_eq!(ThreatInputsBucketsMirrored::make_index(0, 12 ^ 7, 3, 22 ^ 7), 15180);
    assert_eq!(ThreatInputsBucketsMirrored::make_index(1, 33 ^ 7, 10, 40 ^ 7), 5918);
    assert_eq!(ThreatInputsBucketsMirrored::make_index(1, 33, 10, 40), 5918);
    // own king on slot 10, enemy king on slot 11
    assert_eq!(ThreatInputsBucketsMirrored::derive_factorised_feature(ThreatInputsBucketsMirrored::make_index(0, 4, 5, 4)), 644);
    assert_eq!(ThreatInputsBucketsMirrored::derive_factorised_feature(ThreatInputsBucketsMirrored::make_index(0, 60, 13, 4)), 764);
    assert_eq!(ThreatInputsBucketsMirrored::derive_factorised_feature(ThreatInputsBucketsMirrored::make_index(1, 60, 13, 4)), 644);
    assert_eq!(ThreatInputsBucketsMirrored::derive_factorised_feature(ThreatInputsBucketsMirrored::make_index(1, 4, 5, 4)), 764);
}

#[test]
fn file_mirror_keeps_each_sides_features() {
    // r1bq1rk1/ppppbppp/3n4/4R3/8/8/PPPP1PPP/RNBQ1BK1 w - - 1 9 and its file mirror
    let pos = PackedBoard { occ: 0x6dff08100000ef6f, pcs: [19, 66, 82, 0, 0, 0, 48, 137, 136, 168, 136, 184, 202, 219, 0, 0], ksq: 6, opp_ksq: 6 };
    let mirrored = PackedBoard { occ: 0xb6ff10080000f7f6, pcs: [37, 36, 49, 0, 0, 0, 48, 137, 136, 138, 136, 216, 203, 186, 0, 0], ksq: 1, opp_ksq: 1 };
    let calc = threat_feature_calculation();
    let inputs = ThreatInputsBucketsMirrored::new();
    let a = inputs.map_features(&calc, &pos);
    let b = inputs.map_features(&calc, &mirrored);
    let mut a0: Vec<usize> = a.iter().map(|p| p.0).collect();
    let mut b0: Vec<usize> = b.iter().map(|p| p.0).collect();
    let mut a1: Vec<usize> = a.iter().map(|p| p.1).collect();
    let mut b1: Vec<usize> = b.iter().map(|p| p.1).collect();
    a0.sort();
    b0.sort();
    a1.sort();
    b1.sort();
    assert_eq!(a.len(), 83);
    assert_eq!(a0, b0);
    assert_eq!(a1, b1);
}

#[test]
fn black_view_is_white_view_of_turned_board() {
    // r1bq1rk1/ppppbppp/3n4/4R3/8/8/PPPP1PPP/RNBQ1BK1 with white, then black, to move: the
    // second board is the first turned round with the colours swapped
    let white = PackedBoard { occ: 0x6dff08100000ef6f, pcs: [19, 66, 82, 0, 0, 0, 48, 137, 136, 168, 136, 184, 202, 219, 0, 0], ksq: 6, opp_ksq: 6 };
    let black = PackedBoard { occ: 0x6fef00001008ff6d, pcs: [35, 52, 5, 0, 32, 0, 16, 139, 136, 136, 136, 155, 202, 218, 0, 0], ksq: 6, opp_ksq: 6 };
    let calc = threat_feature_calculation();
    let inputs = ThreatInputsBucketsMirrored::new();
    let a = inputs.map_features(&calc, &white);
    let b = inputs.map_features(&calc, &black);
    let mut a0: Vec<usize> = a.iter().map(|p| p.0).collect();
    let mut b0: Vec<usize> = b.iter().map(|p| p.0).collect();
    let mut a1: Vec<usize> = a.iter().map(|p| p.1).collect();
    let mut b1: Vec<usize> = b.iter().map(|p| p.1).collect();
    a0.sort();
    b0.sort();
    a1.sort();
    b1.sort();
    assert_eq!(a.len(), 83);
    assert_eq!(b.len(), 83);
    assert_ne!(a, b);
    assert_eq!(a0, b1);
    assert_eq!(a1, b0);
}

#[test]
fn threat_index_under_mirrors() {
    let calc = threat_feature_calculation();
    // white knight b1 takes black bishop c3, white king on e1; then files mirrored with the king
    assert_eq!(threat_index(&calc, 0, 0, 3, 1, 18, 1, 4, 4), Some(3166));
    assert_eq!(threat_index(&calc, 0, 0, 3, 1 ^ 7, 18 ^ 7, 1, 4, 4 ^ 7), Some(3166));
    // black's view equals white's on the colour-swapped, rank-mirrored board
    assert_eq!(threat_index(&calc, 1, 0, 3, 1, 18, 1, 4, 60), Some(32155));
    assert_eq!(threat_index(&calc, 0, 1, 3, 1 ^ 56, 18 ^ 56, 0, 4, 60 ^ 56), Some(32155));
}

fn flip_files(bb: u64) -> u64 {
    let mut r = 0u64;
    for sq in 0..64 {
        if bb >> sq & 1 == 1 {
            r |= 1u64 << (sq ^ 7);
        }
    }
    r
}

#[test]
fn full_threats_under_mirrors() {
    // r1bq1rk1/ppppbppp/3n4/4R3/8/8/PPPP1PPP/RNBQ1BK1 as white, black, pawn to king boards
    let bbs: [u64; 8] = [0x100000ef6f, 0x6dff080000000000, 0xef00000000ef00, 0x80000000002, 0x410000000000024, 0x2100001000000001, 0x800000000000008, 0x4000000000000040];
    let calc = threat_feature_calculation();
    let turned: [u64; 8] = [
        bbs[1].swap_bytes(), bbs[0].swap_bytes(), bbs[2].swap_bytes(), bbs[3].swap_bytes(),
        bbs[4].swap_bytes(), bbs[5].swap_bytes(), bbs[6].swap_bytes(), bbs[7].swap_bytes(),
    ];
    let mut black = map_full_threats(&calc, &bbs, 1, 60);
    let mut white_turned = map_full_threats(&calc, &turned, 0, 60 ^ 56);
    assert_eq!(black.len(), 27);
    assert_ne!(black, white_turned);
    black.sort();
    white_turned.sort();
    assert_eq!(black, white_turned);
    let mut flipped = [0u64; 8];
    for i in 0..8 {
        flipped[i] = flip_files(bbs[i]);
    }
    let mut white = map_full_threats(&calc, &bbs, 0, 6);
    let mut white_flipped = map_full_threats(&calc, &flipped, 0, 6 ^ 7);
    assert_eq!(white.len(), 27);
    assert_ne!(white, white_flipped);
    white.sort();
    white_flipped.sort();
    assert_eq!(white, white_flipped);
}

#[test]
fn threat_features_are_distinct() {
    // r1bq1rk1/ppppbppp/3n4/4R3/8/8/PPPP1PPP/RNBQ1BK1 w - - 1 9: 28 pieces, 27 threats
    let pos = PackedBoard { occ: 0x6dff08100000ef6f, pcs: [19, 66, 82, 0, 0, 0, 48, 137, 136, 168, 136, 184, 202, 219, 0, 0], ksq: 6, opp_ksq: 6 };
    let calc = threat_feature_calculation();
    let inputs = ThreatInputsBucketsMirrored::new();
    let features = inputs.map_features(&calc, &pos);
    assert_eq!(features.len(), 2 * 28 + 27);
    let mut stm: Vec<usize> = features[56..].iter().map(|p| p.0).collect();
    let mut ntm: Vec<usize> = features[56..].iter().map(|p| p.1).collect();
    stm.sort();
    stm.dedup();
    ntm.sort();
    ntm.dedup();
    assert_eq!(stm.len(), 27);
    assert_eq!(ntm.len(), 27);
}
