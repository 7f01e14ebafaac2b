//! Spectral envelopes and prediction filters.
use cadence::decode_indices::MAX_LPC_ORDER;
use cadence::nlsf::{
    bwexpander, inverse32_varq, lpc_fit, lpc_inverse_pred_gain, nlsf2a, nlsf_decode,
    nlsf_interpolate, nlsf_stabilize,
};
use cadence::sigproc::rshift_round;
use cadence::tables::{nlsf_cb_nb_mb, nlsf_cb_wb, NlsfCbStruct};

fn codebook(wide: bool) -> NlsfCbStruct {
    if wide {
        nlsf_cb_wb()
    } else {
        nlsf_cb_nb_mb()
    }
}

struct NlsfCase {
    wb: bool,
    cb1: i8,
    residuals: [i8; 16],
    order: usize,
    nlsf_q15: [i16; 16],
    a_q12: [i16; 16],
    a_bwe: [i16; 16],
}

const NLSF_CASES: [NlsfCase; 10] = [
    NlsfCase {
        wb: false,
        cb1: 0,
        order: 10,
        residuals: [-2, 0, -3, 2, 2, 2, 0, -1, -1, -1, 0, 0, 0, 0, 0, 0],
        nlsf_q15: [
            250, 4126, 6335, 15098, 17320, 18579, 18709, 20711, 24453, 27995, 0, 0, 0, 0, 0, 0,
        ],
        a_q12: [
            1427, -2058, 5354, 678, 350, -2601, -1268, 69, 1005, 1128, 0, 0, 0, 0, 0, 0,
        ],
        a_bwe: [
            1384, -1936, 4886, 600, 301, -2167, -1025, 54, 764, 832, 0, 0, 0, 0, 0, 0,
        ],
    },
    NlsfCase {
        wb: false,
        cb1: 1,
        order: 10,
        residuals: [3, -3, 2, 2, 3, -1, -3, -3, 3, 2, 0, 0, 0, 0, 0, 0],
        nlsf_q15: [
            3607, 3610, 11242, 13206, 13454, 13457, 15085, 21752, 31174, 31413, 0, 0, 0, 0, 0,
            0,
        ],
        a_q12: [
            3527, -1788, -4123, 7574, -3923, -850, 2539, -3472, 324, -845, 0, 0, 0, 0, 0, 0,
        ],
        a_bwe: [
            3421, -1682, -3763, 6705, -3369, -708, 2052, -2721, 246, -623, 0, 0, 0, 0, 0, 0,
        ],
    },
    NlsfCase {
        wb: false,
        cb1: 7,
        order: 10,
        residuals: [-1, 2, -3, -2, 0, 3, -1, 0, 3, -4, 0, 0, 0, 0, 0, 0],
        nlsf_q15: [
            2308, 3724, 3730, 9346, 14613, 18105, 18109, 21805, 23279, 23282, 0, 0, 0, 0, 0, 0,
        ],
        a_q12: [
            6511, -6481, 10452, -10972, 8400, -8931, 6658, -3221, 1300, 66, 0, 0, 0, 0, 0, 0,
        ],
        a_bwe: [
            6316, -6098, 9539, -9714, 7213, -7439, 5380, -2524, 988, 49, 0, 0, 0, 0, 0, 0,
        ],
    },
    NlsfCase {
        wb: false,
        cb1: 15,
        order: 10,
        residuals: [3, 3, -3, 1, 4, 2, 0, -2, 4, 3, 0, 0, 0, 0, 0, 0],
        nlsf_q15: [
            5477, 5480, 5486, 10855, 17600, 17620, 18497, 21622, 32304, 32307, 0, 0, 0, 0, 0, 0,
        ],
        a_q12: [
            761, 878, -741, 2661, -5210, -811, 570, -451, 1504, -1468, 0, 0, 0, 0, 0, 0,
        ],
        a_bwe: [
            738, 826, -676, 2356, -4474, -676, 461, -353, 1143, -1083, 0, 0, 0, 0, 0, 0,
        ],
    },
    NlsfCase {
        wb: false,
        cb1: 31,
        order: 10,
        residuals: [-2, -3, 2, 4, -1, -3, 1, 3, 0, 3, 0, 0, 0, 0, 0, 0],
        nlsf_q15: [
            2038, 4900, 11491, 12671, 12674, 12677, 22965, 26762, 27136, 32307, 0, 0, 0, 0, 0,
            0,
        ],
        a_q12: [
            344, 2131, -4162, 809, 5903, -1511, -2007, 3013, -1362, -1705, 0, 0, 0, 0, 0, 0,
        ],
        a_bwe: [
            334, 2005, -3799, 716, 5069, -1259, -1622, 2361, -1035, -1257, 0, 0, 0, 0, 0, 0,
        ],
    },
    NlsfCase {
        wb: true,
        cb1: 0,
        order: 16,
        residuals: [0, -1, 0, 0, -3, 1, -3, 1, 0, -2, 4, 2, -2, -2, -2, -2],
        nlsf_q15: [
            100, 1432, 3604, 4902, 5914, 10281, 10773, 15548, 16662, 18665, 21504, 21507,
            21515, 23063, 25917, 28911,
        ],
        a_q12: [
            7498, -6912, 10484, -12889, 10173, -8112, 6500, -4191, 1857, -1358, 1903, 505,
            -840, -1142, -358, 977,
        ],
        a_bwe: [
            7273, -6504, 9568, -11411, 8736, -6757, 5252, -3285, 1412, -1001, 1361, 350, -565,
            -746, -227, 600,
        ],
    },
    NlsfCase {
        wb: true,
        cb1: 1,
        order: 16,
        residuals: [-2, 0, 2, -4, 4, -1, -1, 4, -3, 0, 1, 0, 0, -4, -2, -1],
        nlsf_q15: [
            447, 3614, 5853, 5856, 10768, 10771, 12674, 14397, 14411, 17275, 18796, 19176,
            20011, 20838, 25910, 29373,
        ],
        a_q12: [
            9467, -17304, 23823, -25765, 22720, -14461, 5498, 913, -2357, 714, 3199, -4823,
            5804, -4282, 1834, -1001,
        ],
        a_bwe: [
            9183, -16281, 21743, -22810, 19511, -12046, 4442, 716, -1792, 527, 2288, -3346,
            3906, -2795, 1161, -615,
        ],
    },
    NlsfCase {
        wb: true,
        cb1: 7,
        order: 16,
        residuals: [-2, 4, 2, 3, 2, -2, -3, -1, -1, 3, -1, -2, -3, 3, -4, -4],
        nlsf_q15: [
            2097, 4174, 6790, 7660, 7663, 7666, 8528, 12829, 14741, 16503, 16514, 16839, 19900,
            23416, 23423, 26531,
        ],
        a_q12: [
            12382, -22252, 29569, -32697, 30970, -26290, 20355, -13953, 7961, -3376, 613, 522,
            -622, 375, -153, 35,
        ],
        a_bwe: [
            12011, -20937, 26987, -28947, 26595, -21899, 16447, -10936, 6052, -2490, 438, 362,
            -419, 245, -97, 21,
        ],
    },
    NlsfCase {
        wb: true,
        cb1: 15,
        order: 16,
        residuals: [-1, 0, 2, -3, 1, -2, 4, 2, -3, 0, 1, 1, -1, -1, 1, -2],
        nlsf_q15: [
            893, 2519, 3867, 3870, 8439, 9819, 13684, 13698, 13712, 17966, 20333, 21643, 22720,
            25216, 28019, 28632,
        ],
        a_q12: [
            7085, -5653, 5488, -5056, 4879, -4576, 2769, -3729, 5585, -5633, 4398, -3275, 3261,
            -1455, 440, -619,
        ],
        a_bwe: [
            6872, -5319, 5009, -4476, 4190, -3812, 2237, -2923, 4246, -4154, 3146, -2272, 2195,
            -950, 279, -380,
        ],
    },
    NlsfCase {
        wb: true,
        cb1: 31,
        order: 16,
        residuals: [-3, -4, 2, 1, 0, 2, 1, -1, 0, -2, 4, 0, 0, 2, -1, 4],
        nlsf_q15: [
            100, 1086, 6483, 7937, 8959, 11076, 11545, 11978, 14772, 16174, 19789, 19792,
            25006, 28334, 29720, 32421,
        ],
        a_q12: [
            5974, -3691, -2826, 7843, -6791, 3714, 2703, -6007, 6722, -1679, -3940, 6015,
            -3895, -806, 2186, -1438,
        ],
        a_bwe: [
            5795, -3473, -2579, 6943, -5832, 3094, 2184, -4708, 5110, -1238, -2818, 4173,
            -2621, -526, 1384, -883,
        ],
    },
];

#[test]
fn nlsf_decode_matches_reference_oracle() {
    for case in &NLSF_CASES {
        let cb = &codebook(case.wb);
        let mut indices = [0i8; MAX_LPC_ORDER + 1];
        indices[0] = case.cb1;
        indices[1..=case.order].copy_from_slice(&case.residuals[..case.order]);
        let mut nlsf_q15 = [0i16; MAX_LPC_ORDER];
        nlsf_decode(&mut nlsf_q15[..case.order], &indices[..=case.order], cb);
        assert_eq!(
            &nlsf_q15[..case.order],
            &case.nlsf_q15[..case.order],
            "nlsf_decode mismatch (wb={}, cb1={})",
            case.wb,
            case.cb1
        );
    }
}

#[test]
fn nlsf2a_matches_reference_oracle() {
    for case in &NLSF_CASES {
        let mut a_q12 = [0i16; MAX_LPC_ORDER];
        nlsf2a(
            &mut a_q12[..case.order],
            &case.nlsf_q15[..case.order],
            case.order,
        );
        assert_eq!(
            &a_q12[..case.order],
            &case.a_q12[..case.order],
            "nlsf2a mismatch (wb={}, cb1={})",
            case.wb,
            case.cb1
        );

        assert_ne!(lpc_inverse_pred_gain(&a_q12[..case.order], case.order), 0);
    }
}

#[test]
fn bwexpander_matches_reference_oracle() {
    for case in &NLSF_CASES {
        let mut a_bwe = case.a_q12;
        bwexpander(&mut a_bwe[..case.order], 63570);
        assert_eq!(
            &a_bwe[..case.order],
            &case.a_bwe[..case.order],
            "bwexpander mismatch (wb={}, cb1={})",
            case.wb,
            case.cb1
        );
    }
}

const STABILIZE_CASES: [(&str, [i16; 16], [i16; 16], usize); 38] = [
    (
        "NB_MB",
        [
            -12804, -21371, 10970, -9461, -12824, -29695, 6822, 7399, -8044, -6339, 0, 0, 0, 0,
            0, 0,
        ],
        [
            250, 253, 390, 393, 631, 634, 1718, 1917, 1920, 2118, 0, 0, 0, 0, 0, 0,
        ],
        10,
    ),
    (
        "NB_MB",
        [
            15154, -24445, 29184, -17863, -10114, -15905, -20948, -16139, -374, -25349, 0, 0,
            0, 0, 0, 0,
        ],
        [
            250, 253, 278, 281, 530, 861, 865, 1405, 1408, 1949, 0, 0, 0, 0, 0, 0,
        ],
        10,
    ),
    (
        "NB_MB",
        [
            -32488, 30577, 31062, 3543, -26940, 6573, -11038, -20365, 23344, -23639, 0, 0, 0,
            0, 0, 0,
        ],
        [
            250, 275, 281, 284, 3628, 7205, 10535, 10538, 13867, 16950, 0, 0, 0, 0, 0, 0,
        ],
        10,
    ),
    (
        "NB_MB",
        [
            23854, -7985, -1444, -11931, 7738, -17685, 24648, 7905, -7162, 6855, 0, 0, 0, 0, 0,
            0,
        ],
        [
            1107, 1110, 2903, 2906, 3857, 5054, 6855, 8223, 8226, 8952, 0, 0, 0, 0, 0, 0,
        ],
        10,
    ),
    (
        "WB",
        [
            14580, -14307, 14994, -25501, -4000, -14055, 28126, -25665, -19828, -8747, -30230,
            13531, 27512, -32175, 23222, 17335,
        ],
        [
            136, 139, 179, 182, 185, 188, 206, 329, 439, 453, 558, 4599, 4686, 4695, 20278,
            20281,
        ],
        16,
    ),
    (
        "WB",
        [
            -14556, -3443, 27714, 25683, 12688, 10889, 2702, -3409, -10564, -6587, 16794, 2763,
            -23896, -24127, -8858, -30553,
        ],
        [
            100, 103, 185, 195, 226, 233, 238, 4277, 4291, 4357, 4368, 8501, 11227, 15236,
            19340, 19343,
        ],
        16,
    ),
    (
        "WB",
        [
            16724, -26371, 27122, 2115, 7872, -14343, 13118, -6753, 26348, -5451, 17738, 15547,
            1496, 32049, 27670, -5737,
        ],
        [
            100, 103, 3176, 3190, 5582, 7386, 7391, 9192, 10444, 10454, 10824, 10832, 13127,
            17559, 17566, 18870,
        ],
        16,
    ),
    (
        "WB",
        [
            -22652, -17555, 13218, -30669, -18448, -24215, -6162, 29839, 25372, -5339, -27398,
            -13653, -27384, 5281, 1734, 26247,
        ],
        [
            100, 103, 143, 146, 149, 152, 157, 217, 1734, 4528, 4539, 5281, 9443, 9453, 12514,
            26247,
        ],
        16,
    ),
    (
        "NB_MB-light",
        [
            4126, 4126, 6335, 15098, 17320, 18579, 18709, 20711, 24453, 32767, 0, 0, 0, 0, 0, 0,
        ],
        [
            4125, 4128, 6335, 15098, 17320, 18579, 18709, 20711, 24453, 32307, 0, 0, 0, 0, 0, 0,
        ],
        10,
    ),
    (
        "NB_MB-light",
        [
            250, 6335, 6335, 15098, 17320, 18579, 18709, 20711, 32727, 27995, 0, 0, 0, 0, 0, 0,
        ],
        [
            250, 6332, 6338, 15098, 17320, 18579, 18709, 20711, 30360, 30363, 0, 0, 0, 0, 0, 0,
        ],
        10,
    ),
    (
        "NB_MB-light",
        [
            250, 4126, 15098, 15098, 17320, 18579, 18709, 32687, 24453, 27995, 0, 0, 0, 0, 0, 0,
        ],
        [
            250, 4126, 15097, 15100, 17320, 18579, 18709, 28381, 28384, 28387, 0, 0, 0, 0, 0, 0,
        ],
        10,
    ),
    (
        "NB_MB-light",
        [
            3610, 3610, 11242, 13206, 13454, 13457, 15085, 21752, 31174, 32767, 0, 0, 0, 0, 0,
            0,
        ],
        [
            3609, 3612, 11242, 13206, 13454, 13457, 15085, 21752, 31174, 32307, 0, 0, 0, 0, 0,
            0,
        ],
        10,
    ),
    (
        "NB_MB-light",
        [
            3607, 11242, 11242, 13206, 13454, 13457, 15085, 21752, 32727, 31413, 0, 0, 0, 0, 0,
            0,
        ],
        [
            3607, 11239, 11245, 13206, 13454, 13457, 15085, 21752, 32069, 32072, 0, 0, 0, 0, 0,
            0,
        ],
        10,
    ),
    (
        "NB_MB-light",
        [
            3607, 3610, 13206, 13206, 13454, 13457, 15085, 32687, 31174, 31413, 0, 0, 0, 0, 0,
            0,
        ],
        [
            3607, 3610, 13205, 13208, 13454, 13457, 15085, 31760, 31763, 31766, 0, 0, 0, 0, 0,
            0,
        ],
        10,
    ),
    (
        "NB_MB-light",
        [
            3724, 3724, 3730, 9346, 14613, 18105, 18109, 21805, 23279, 32767, 0, 0, 0, 0, 0, 0,
        ],
        [
            3723, 3726, 3732, 9346, 14613, 18105, 18109, 21805, 23279, 32307, 0, 0, 0, 0, 0, 0,
        ],
        10,
    ),
    (
        "NB_MB-light",
        [
            2308, 3730, 3730, 9346, 14613, 18105, 18109, 21805, 32727, 23282, 0, 0, 0, 0, 0, 0,
        ],
        [
            2308, 3727, 3733, 9346, 14613, 18105, 18109, 21805, 28004, 28007, 0, 0, 0, 0, 0, 0,
        ],
        10,
    ),
    (
        "NB_MB-light",
        [
            2308, 3724, 9346, 9346, 14613, 18105, 18109, 32687, 23279, 23282, 0, 0, 0, 0, 0, 0,
        ],
        [
            2308, 3724, 9345, 9348, 14613, 18105, 18109, 26420, 26423, 26426, 0, 0, 0, 0, 0, 0,
        ],
        10,
    ),
    (
        "NB_MB-light",
        [
            5480, 5480, 5486, 10855, 17600, 17620, 18497, 21622, 32304, 32767, 0, 0, 0, 0, 0, 0,
        ],
        [
            5479, 5482, 5488, 10855, 17600, 17620, 18497, 21622, 32304, 32307, 0, 0, 0, 0, 0, 0,
        ],
        10,
    ),
    (
        "NB_MB-light",
        [
            5477, 5486, 5486, 10855, 17600, 17620, 18497, 21622, 32727, 32307, 0, 0, 0, 0, 0, 0,
        ],
        [
            5477, 5483, 5489, 10855, 17600, 17620, 18497, 21622, 32304, 32307, 0, 0, 0, 0, 0, 0,
        ],
        10,
    ),
    (
        "NB_MB-light",
        [
            5477, 5480, 10855, 10855, 17600, 17620, 18497, 32687, 32304, 32307, 0, 0, 0, 0, 0,
            0,
        ],
        [
            5477, 5480, 10854, 10857, 17600, 17620, 18497, 32301, 32304, 32307, 0, 0, 0, 0, 0,
            0,
        ],
        10,
    ),
    (
        "NB_MB-light",
        [
            4900, 4900, 11491, 12671, 12674, 12677, 22965, 26762, 27136, 32767, 0, 0, 0, 0, 0,
            0,
        ],
        [
            4899, 4902, 11491, 12671, 12674, 12677, 22965, 26762, 27136, 32307, 0, 0, 0, 0, 0,
            0,
        ],
        10,
    ),
    (
        "NB_MB-light",
        [
            2038, 11491, 11491, 12671, 12674, 12677, 22965, 26762, 32727, 32307, 0, 0, 0, 0, 0,
            0,
        ],
        [
            2038, 11488, 11494, 12671, 12674, 12677, 22965, 26762, 32304, 32307, 0, 0, 0, 0, 0,
            0,
        ],
        10,
    ),
    (
        "NB_MB-light",
        [
            2038, 4900, 12671, 12671, 12674, 12677, 22965, 32687, 27136, 32307, 0, 0, 0, 0, 0,
            0,
        ],
        [
            2038, 4900, 12670, 12673, 12676, 12679, 22965, 29911, 29914, 32307, 0, 0, 0, 0, 0,
            0,
        ],
        10,
    ),
    (
        "WB-light",
        [
            1432, 1432, 3604, 4902, 5914, 10281, 10773, 15548, 16662, 18665, 21504, 21507,
            21515, 23063, 25917, 32767,
        ],
        [
            1431, 1434, 3604, 4902, 5914, 10281, 10773, 15548, 16662, 18665, 21504, 21507,
            21515, 23063, 25917, 32421,
        ],
        16,
    ),
    (
        "WB-light",
        [
            100, 3604, 3604, 4902, 5914, 10281, 10773, 15548, 16662, 18665, 21504, 21507,
            21515, 23063, 32727, 28911,
        ],
        [
            100, 3584, 3624, 4902, 5914, 10281, 10773, 15548, 16662, 18665, 21504, 21507,
            21515, 23063, 30818, 30821,
        ],
        16,
    ),
    (
        "WB-light",
        [
            100, 1432, 4902, 4902, 5914, 10281, 10773, 15548, 16662, 18665, 21504, 21507,
            21515, 32687, 25917, 28911,
        ],
        [
            100, 1432, 4901, 4904, 5914, 10281, 10773, 15548, 16662, 18665, 21504, 21507,
            21515, 29171, 29178, 29181,
        ],
        16,
    ),
    (
        "WB-light",
        [
            3614, 3614, 5853, 5856, 10768, 10771, 12674, 14397, 14411, 17275, 18796, 19176,
            20011, 20838, 25910, 32767,
        ],
        [
            3613, 3616, 5853, 5856, 10768, 10771, 12674, 14397, 14411, 17275, 18796, 19176,
            20011, 20838, 25910, 32421,
        ],
        16,
    ),
    (
        "WB-light",
        [
            447, 5853, 5853, 5856, 10768, 10771, 12674, 14397, 14411, 17275, 18796, 19176,
            20011, 20838, 32727, 29373,
        ],
        [
            447, 5828, 5868, 5871, 10768, 10771, 12674, 14397, 14411, 17275, 18796, 19176,
            20011, 20838, 31049, 31052,
        ],
        16,
    ),
    (
        "WB-light",
        [
            447, 3614, 5856, 5856, 10768, 10771, 12674, 14397, 14411, 17275, 18796, 19176,
            20011, 32687, 25910, 29373,
        ],
        [
            447, 3614, 5855, 5858, 10768, 10771, 12674, 14397, 14411, 17275, 18796, 19176,
            20011, 29296, 29303, 29373,
        ],
        16,
    ),
    (
        "WB-light",
        [
            4174, 4174, 6790, 7660, 7663, 7666, 8528, 12829, 14741, 16503, 16514, 16839, 19900,
            23416, 23423, 32767,
        ],
        [
            4173, 4176, 6790, 7660, 7663, 7666, 8528, 12829, 14741, 16503, 16514, 16839, 19900,
            23416, 23423, 32421,
        ],
        16,
    ),
    (
        "WB-light",
        [
            2097, 6790, 6790, 7660, 7663, 7666, 8528, 12829, 14741, 16503, 16514, 16839, 19900,
            23416, 32727, 26531,
        ],
        [
            2097, 6770, 6810, 7660, 7663, 7666, 8528, 12829, 14741, 16503, 16514, 16839, 19900,
            23416, 29628, 29631,
        ],
        16,
    ),
    (
        "WB-light",
        [
            2097, 4174, 7660, 7660, 7663, 7666, 8528, 12829, 14741, 16503, 16514, 16839, 19900,
            32687, 23423, 26531,
        ],
        [
            2097, 4174, 7659, 7662, 7665, 7668, 8528, 12829, 14741, 16503, 16514, 16839, 19900,
            27547, 27554, 27557,
        ],
        16,
    ),
    (
        "WB-light",
        [
            2519, 2519, 3867, 3870, 8439, 9819, 13684, 13698, 13712, 17966, 20333, 21643,
            22720, 25216, 28019, 32767,
        ],
        [
            2518, 2521, 3867, 3870, 8439, 9819, 13684, 13698, 13712, 17966, 20333, 21643,
            22720, 25216, 28019, 32421,
        ],
        16,
    ),
    (
        "WB-light",
        [
            893, 3867, 3867, 3870, 8439, 9819, 13684, 13698, 13712, 17966, 20333, 21643, 22720,
            25216, 32727, 28632,
        ],
        [
            893, 3842, 3882, 3885, 8439, 9819, 13684, 13698, 13712, 17966, 20333, 21643, 22720,
            25216, 30679, 30682,
        ],
        16,
    ),
    (
        "WB-light",
        [
            893, 2519, 3870, 3870, 8439, 9819, 13684, 13698, 13712, 17966, 20333, 21643, 22720,
            32687, 28019, 28632,
        ],
        [
            893, 2519, 3869, 3872, 8439, 9819, 13684, 13698, 13712, 17966, 20333, 21643, 22720,
            29779, 29786, 29789,
        ],
        16,
    ),
    (
        "WB-light",
        [
            1086, 1086, 6483, 7937, 8959, 11076, 11545, 11978, 14772, 16174, 19789, 19792,
            25006, 28334, 29720, 32767,
        ],
        [
            1085, 1088, 6483, 7937, 8959, 11076, 11545, 11978, 14772, 16174, 19789, 19792,
            25006, 28334, 29720, 32421,
        ],
        16,
    ),
    (
        "WB-light",
        [
            100, 6483, 6483, 7937, 8959, 11076, 11545, 11978, 14772, 16174, 19789, 19792,
            25006, 28334, 32727, 32421,
        ],
        [
            100, 6463, 6503, 7937, 8959, 11076, 11545, 11978, 14772, 16174, 19789, 19792,
            25006, 28334, 32418, 32421,
        ],
        16,
    ),
    (
        "WB-light",
        [
            100, 1086, 7937, 7937, 8959, 11076, 11545, 11978, 14772, 16174, 19789, 19792,
            25006, 32687, 29720, 32421,
        ],
        [
            100, 1086, 7936, 7939, 8959, 11076, 11545, 11978, 14772, 16174, 19789, 19792,
            25006, 31201, 31208, 32421,
        ],
        16,
    ),
];

#[test]
fn stabilize_matches_reference_oracle() {
    for &(tag, input, expected, order) in &STABILIZE_CASES {
        let cb = &codebook(tag.starts_with("WB"));
        let mut nlsf_q15 = input;
        nlsf_stabilize(&mut nlsf_q15[..order], cb.delta_min_q15);
        assert_eq!(
            &nlsf_q15[..order],
            &expected[..order],
            "stabilize mismatch ({tag})"
        );
    }
}

const STABILITY_CASES: [([i16; 16], usize, bool); 14] = [
    (
        [
            1427, -2058, 5354, 678, 350, -2601, -1268, 69, 1005, 1128, 0, 0, 0, 0, 0, 0,
        ],
        10,
        true,
    ),
    (
        [
            3527, -1788, -4123, 7574, -3923, -850, 2539, -3472, 324, -845, 0, 0, 0, 0, 0, 0,
        ],
        10,
        true,
    ),
    (
        [
            6511, -6481, 10452, -10972, 8400, -8931, 6658, -3221, 1300, 66, 0, 0, 0, 0, 0, 0,
        ],
        10,
        true,
    ),
    (
        [
            761, 878, -741, 2661, -5210, -811, 570, -451, 1504, -1468, 0, 0, 0, 0, 0, 0,
        ],
        10,
        true,
    ),
    (
        [
            344, 2131, -4162, 809, 5903, -1511, -2007, 3013, -1362, -1705, 0, 0, 0, 0, 0, 0,
        ],
        10,
        true,
    ),
    (
        [
            7498, -6912, 10484, -12889, 10173, -8112, 6500, -4191, 1857, -1358, 1903, 505,
            -840, -1142, -358, 977,
        ],
        16,
        true,
    ),
    (
        [
            9467, -17304, 23823, -25765, 22720, -14461, 5498, 913, -2357, 714, 3199, -4823,
            5804, -4282, 1834, -1001,
        ],
        16,
        true,
    ),
    (
        [
            12382, -22252, 29569, -32697, 30970, -26290, 20355, -13953, 7961, -3376, 613, 522,
            -622, 375, -153, 35,
        ],
        16,
        true,
    ),
    (
        [
            7085, -5653, 5488, -5056, 4879, -4576, 2769, -3729, 5585, -5633, 4398, -3275, 3261,
            -1455, 440, -619,
        ],
        16,
        true,
    ),
    (
        [
            5974, -3691, -2826, 7843, -6791, 3714, 2703, -6007, 6722, -1679, -3940, 6015,
            -3895, -806, 2186, -1438,
        ],
        16,
        true,
    ),
    (
        [
            2000, 2000, 2000, 2000, 2000, 2000, 2000, 2000, 2000, 2000, 0, 0, 0, 0, 0, 0,
        ],
        10,
        false,
    ),
    (
        [
            3000, -3000, 3000, -3000, 3000, -3000, 3000, -3000, 3000, -3000, 0, 0, 0, 0, 0, 0,
        ],
        10,
        true,
    ),
    (
        [
            32767, 32767, 32767, 32767, 32767, 32767, 32767, 32767, 32767, 32767, 32767, 32767,
            32767, 32767, 32767, 32767,
        ],
        16,
        false,
    ),
    (
        [
            20770, 6067, -11920, 31977, 23918, 31759, -27492, -347, -7558, -13781, 0, 0, 0, 0,
            0, 0,
        ],
        10,
        false,
    ),
];

#[test]
fn lpc_inverse_pred_gain_matches_reference_oracle() {
    for &(filter, order, stable) in &STABILITY_CASES {
        let gain = lpc_inverse_pred_gain(&filter[..order], order);
        assert_eq!(
            gain != 0,
            stable,
            "inverse pred gain mismatch (gain={gain}, order={order})"
        );
    }
}

#[test]
fn inverse32_varq_matches_reference_arithmetic() {
    assert_eq!(inverse32_varq(1 << 16, 30), 16383);
    assert_eq!(inverse32_varq(1 << 20, 34), 16383);
}

#[test]
fn nlsf_interpolate_endpoints_and_formula() {
    let cur = [100i16, 400, 9000, 32000, 100, 0, 7, 32767];
    let prev = [200i16, -300, 8000, 32000, 50, 0, -2, 0];
    for &coef in &[0i32, 1, 2, 3, 4] {
        let mut dst = [0i16; 8];
        nlsf_interpolate(&mut dst, &prev, &cur, coef);
        for i in 0..8 {
            let expected = prev[i] as i32 + ((coef * (cur[i] as i32 - prev[i] as i32)) >> 2);
            assert_eq!(dst[i] as i32, expected, "coef={coef}, i={i}");
        }
    }

    let mut dst = [0i16; 8];
    nlsf_interpolate(&mut dst, &prev, &cur, 0);
    assert_eq!(dst, prev);
    nlsf_interpolate(&mut dst, &prev, &cur, 4);
    assert_eq!(dst, cur);
}

struct XorShift(u32);

impl XorShift {
    fn next_u32(&mut self) -> u32 {
        let mut x = self.0;
        x ^= x << 13;
        x ^= x >> 17;
        x ^= x << 5;
        self.0 = x;
        x
    }

    fn next_range(&mut self, lo: i32, hi: i32) -> i32 {
        lo + (self.next_u32() % (hi - lo + 1) as u32) as i32
    }
}

#[test]
fn stabilize_output_satisfies_spacing_invariants() {
    let mut rng = XorShift(0x1234_5678);
    for cb in &[nlsf_cb_nb_mb(), nlsf_cb_wb()] {
        let order = cb.order as usize;
        for _ in 0..1000 {
            let mut nlsf_q15 = [0i16; MAX_LPC_ORDER];
            for v in nlsf_q15[..order].iter_mut() {
                *v = rng.next_range(i16::MIN as i32, i16::MAX as i32) as i16;
            }
            let nlsf_in = nlsf_q15;
            nlsf_stabilize(&mut nlsf_q15[..order], cb.delta_min_q15);
            let ndm = cb.delta_min_q15;
            assert!(nlsf_q15[0] >= ndm[0], "lower border violated");
            for i in 1..order {
                assert!(
                    nlsf_q15[i] - nlsf_q15[i - 1] >= ndm[i],
                    "min spacing violated at {i}"
                );
            }
            assert!(
                nlsf_q15[order - 1] as i32 <= 32768 - ndm[order] as i32,
                "upper border violated: input {:?} output {:?}",
                &nlsf_in[..order],
                &nlsf_q15[..order]
            );
        }
    }
}

#[test]
fn nlsf_decode_never_panics_and_is_stabilized() {
    let mut rng = XorShift(0x9E37_79B9);
    for cb in &[nlsf_cb_nb_mb(), nlsf_cb_wb()] {
        let order = cb.order as usize;
        for _ in 0..1000 {
            let mut indices = [0i8; MAX_LPC_ORDER + 1];
            indices[0] = rng.next_range(0, cb.n_vectors as i32 - 1) as i8;
            for r in &mut indices[1..=order] {
                *r = rng.next_range(-4, 4) as i8;
            }
            let mut nlsf_q15 = [0i16; MAX_LPC_ORDER];
            nlsf_decode(&mut nlsf_q15[..order], &indices[..=order], cb);
            for &v in &nlsf_q15[..order] {
                assert!((0..=32767).contains(&v));
            }
            let ndm = cb.delta_min_q15;
            assert!(nlsf_q15[0] >= ndm[0]);
            for i in 1..order {
                assert!(nlsf_q15[i] - nlsf_q15[i - 1] >= ndm[i]);
            }
            assert!(nlsf_q15[order - 1] as i32 <= 32768 - ndm[order] as i32);
        }
    }
}

#[test]
fn lpc_fit_passthrough_and_clipping() {
    let mut a_qin = [
        -40_000i32,
        33_000,
        -1,
        0,
        65536,
        -65_536,
        1 << 16,
        123,
        -321,
        999,
    ];
    let mut a_qout = [0i16; 10];
    lpc_fit(&mut a_qout, &mut a_qin, 12, 17, 10);
    assert_eq!(a_qout[4], 2048);
    assert_eq!(a_qout[5], -2048);
    for k in 0..10 {
        assert_eq!(a_qout[k] as i32, rshift_round(a_qin[k], 5));
    }

    let mut a_qin = [0i32; 10];
    a_qin[9] = 1 << 30;
    let mut a_qout = [0i16; 10];
    lpc_fit(&mut a_qout, &mut a_qin, 12, 17, 10);
    assert_eq!(a_qout[9], 32460);
    assert_eq!(a_qin[9], 32460 << 5);
    for k in 0..9 {
        assert_eq!(a_qout[k], 0);
        assert_eq!(a_qin[k], 0);
    }

    let mut a_qin = [1 << 20; 10];
    let mut a_qout = [0i16; 10];
    lpc_fit(&mut a_qout, &mut a_qin, 12, 17, 10);
    for k in 0..10 {
        assert_eq!(a_qout[k] as i32, rshift_round(a_qin[k], 5));
    }
    assert!(a_qout[0] < 32767);
}

fn fnv1a64(data: &[u8]) -> u64 {
    let mut h: u64 = 0xCBF2_9CE4_8422_2325;
    for &b in data {
        h ^= b as u64;
        h = h.wrapping_mul(0x0000_0100_0000_01B3);
    }
    h
}

struct Lcg(u32);

impl Lcg {
    fn next(&mut self) -> u32 {
        self.0 = (1103515245u32.wrapping_mul(self.0).wrapping_add(12345)) & 0x7FFF_FFFF;
        self.0
    }
}

#[test]
fn differential_hash_matches_python_oracle() {
    let mut lc = Lcg(0xA1_1CE);
    let mut stream: Vec<u8> = Vec::with_capacity(39000);
    for it in 0..500 {
        let cb = &codebook(it % 2 == 1);
        let order = cb.order as usize;
        let cb1 = (lc.next() % 32) as i8;
        let mut indices = [0i8; MAX_LPC_ORDER + 1];
        indices[0] = cb1;
        for r in &mut indices[1..=order] {
            *r = (lc.next() % 9) as i8 - 4;
        }
        let mut nlsf_q15 = [0i16; MAX_LPC_ORDER];
        nlsf_decode(&mut nlsf_q15[..order], &indices[..=order], cb);
        let mut a_q12 = [0i16; MAX_LPC_ORDER];
        nlsf2a(&mut a_q12[..order], &nlsf_q15[..order], order);
        let mut a_bwe = a_q12;
        bwexpander(&mut a_bwe[..order], 63570);
        for v in nlsf_q15[..order]
            .iter()
            .chain(&a_q12[..order])
            .chain(&a_bwe[..order])
        {
            stream.extend_from_slice(&(*v as u16).to_le_bytes());
        }
    }
    assert_eq!(stream.len(), 39000);
    assert_eq!(fnv1a64(&stream), 0x1DB2_6DF7_52BE_F2E7);
}

#[test]
fn every_filter_is_stable() {
    let mut rng = XorShift(77);
    for _ in 0..2000 {
        for order in [10usize, 16] {
            let mut nlsf = vec![0i16; order];
            for v in nlsf.iter_mut() {
                *v = rng.next_range(0, 32767) as i16;
            }
            let mut a = vec![0i16; order];
            nlsf2a(&mut a, &nlsf, order);
            assert_ne!(lpc_inverse_pred_gain(&a, order), 0, "{nlsf:?}");
        }
    }
}

#[test]
fn fit_leaves_what_stands_behind_alone() {
    let mut a_qin = [1 << 28, -(1 << 27), 12345, 777, -888];
    let mut alone = [1 << 28, -(1 << 27), 12345];
    let mut out = [0i16; 3];
    let mut out_alone = [0i16; 3];
    lpc_fit(&mut out, &mut a_qin, 12, 17, 3);
    lpc_fit(&mut out_alone, &mut alone, 12, 17, 3);
    assert_eq!(out, out_alone);
    assert_eq!(a_qin[..3], alone);
    assert_eq!(a_qin[3..], [777, -888]);
    for k in 0..3 {
        assert_eq!(out[k] as i32, rshift_round(a_qin[k], 5));
    }
    lpc_fit(&mut [], &mut a_qin, 12, 17, 0);
    assert_eq!(a_qin[3..], [777, -888]);
}

#[test]
fn stable_vectors_are_left_alone() {
    let mut rng = XorShift(4242);
    for cb in &[nlsf_cb_nb_mb(), nlsf_cb_wb()] {
        let order = cb.order as usize;
        for _ in 0..300 {
            let mut once = vec![0i16; order];
            for v in once.iter_mut() {
                *v = rng.next_range(i16::MIN as i32, i16::MAX as i32) as i16;
            }
            nlsf_stabilize(&mut once, cb.delta_min_q15);
            let mut twice = once.clone();
            nlsf_stabilize(&mut twice, cb.delta_min_q15);
            assert_eq!(once, twice);
        }
    }
}
