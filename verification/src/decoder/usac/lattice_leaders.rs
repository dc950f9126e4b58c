//! The templates of the lattice's sign leaders, class by class.
//!
//! Each lemma takes a run of classes and is named after the first of them.

use crate::decoder::usac::lattice_points;
use crate::tables::usac_avq::{ISO_CODE_DATA_TABLE, ISO_CODE_INDEX_TABLE, ISO_CODE_NUM_TABLE};
use vstd::prelude::*;

verus! {

proof fn lemma_classes_0(idx: int, leader: int)
    requires
        0 <= idx < 9,
        ISO_CODE_INDEX_TABLE[idx] <= leader < ISO_CODE_INDEX_TABLE[idx] + ISO_CODE_NUM_TABLE[idx],
    ensures
        lattice_points::is_leader(idx, leader),
        leader > ISO_CODE_INDEX_TABLE[idx] ==> ISO_CODE_DATA_TABLE[leader - 1]
            < ISO_CODE_DATA_TABLE[leader],
{
    if idx == 0 {
        assert(ISO_CODE_INDEX_TABLE[0] == 0 && ISO_CODE_NUM_TABLE[0] == 5);
        if leader == 0 {
            lattice_points::lemma_leader(0, 0, 1, 1, 1, 1, 1, 1, 1, 1);
        } else if leader == 1 {
            lattice_points::lemma_leader(0, 1, 1, 1, 1, 1, 1, 1, -1, -1);
        } else if leader == 2 {
            lattice_points::lemma_leader(0, 2, 1, 1, 1, 1, -1, -1, -1, -1);
        } else if leader == 3 {
            lattice_points::lemma_leader(0, 3, 1, 1, -1, -1, -1, -1, -1, -1);
        } else {
            lattice_points::lemma_leader(0, 4, -1, -1, -1, -1, -1, -1, -1, -1);
        }
    } else if idx == 1 {
        assert(ISO_CODE_INDEX_TABLE[1] == 5 && ISO_CODE_NUM_TABLE[1] == 3);
        if leader == 5 {
            lattice_points::lemma_leader(1, 5, 2, 2, 0, 0, 0, 0, 0, 0);
        } else if leader == 6 {
            lattice_points::lemma_leader(1, 6, 2, -2, 0, 0, 0, 0, 0, 0);
        } else {
            lattice_points::lemma_leader(1, 7, -2, -2, 0, 0, 0, 0, 0, 0);
        }
    } else if idx == 2 {
        assert(ISO_CODE_INDEX_TABLE[2] == 8 && ISO_CODE_NUM_TABLE[2] == 5);
        if leader == 8 {
            lattice_points::lemma_leader(2, 8, 2, 2, 2, 2, 0, 0, 0, 0);
        } else if leader == 9 {
            lattice_points::lemma_leader(2, 9, 2, 2, 2, -2, 0, 0, 0, 0);
        } else if leader == 10 {
            lattice_points::lemma_leader(2, 10, 2, 2, -2, -2, 0, 0, 0, 0);
        } else if leader == 11 {
            lattice_points::lemma_leader(2, 11, 2, -2, -2, -2, 0, 0, 0, 0);
        } else {
            lattice_points::lemma_leader(2, 12, -2, -2, -2, -2, 0, 0, 0, 0);
        }
    } else if idx == 3 {
        assert(ISO_CODE_INDEX_TABLE[3] == 13 && ISO_CODE_NUM_TABLE[3] == 8);
        if leader == 13 {
            lattice_points::lemma_leader(3, 13, 3, 1, 1, 1, 1, 1, 1, -1);
        } else if leader == 14 {
            lattice_points::lemma_leader(3, 14, 3, 1, 1, 1, 1, -1, -1, -1);
        } else if leader == 15 {
            lattice_points::lemma_leader(3, 15, 3, 1, 1, -1, -1, -1, -1, -1);
        } else if leader == 16 {
            lattice_points::lemma_leader(3, 16, 3, -1, -1, -1, -1, -1, -1, -1);
        } else if leader == 17 {
            lattice_points::lemma_leader(3, 17, -3, 1, 1, 1, 1, 1, 1, 1);
        } else if leader == 18 {
            lattice_points::lemma_leader(3, 18, -3, 1, 1, 1, 1, 1, -1, -1);
        } else if leader == 19 {
            lattice_points::lemma_leader(3, 19, -3, 1, 1, 1, -1, -1, -1, -1);
        } else {
            lattice_points::lemma_leader(3, 20, -3, 1, -1, -1, -1, -1, -1, -1);
        }
    } else if idx == 4 {
        assert(ISO_CODE_INDEX_TABLE[4] == 21 && ISO_CODE_NUM_TABLE[4] == 2);
        if leader == 21 {
            lattice_points::lemma_leader(4, 21, 4, 0, 0, 0, 0, 0, 0, 0);
        } else {
            lattice_points::lemma_leader(4, 22, -4, 0, 0, 0, 0, 0, 0, 0);
        }
    } else if idx == 5 {
        assert(ISO_CODE_INDEX_TABLE[5] == 23 && ISO_CODE_NUM_TABLE[5] == 7);
        if leader == 23 {
            lattice_points::lemma_leader(5, 23, 2, 2, 2, 2, 2, 2, 0, 0);
        } else if leader == 24 {
            lattice_points::lemma_leader(5, 24, 2, 2, 2, 2, 2, -2, 0, 0);
        } else if leader == 25 {
            lattice_points::lemma_leader(5, 25, 2, 2, 2, 2, -2, -2, 0, 0);
        } else if leader == 26 {
            lattice_points::lemma_leader(5, 26, 2, 2, 2, -2, -2, -2, 0, 0);
        } else if leader == 27 {
            lattice_points::lemma_leader(5, 27, 2, 2, -2, -2, -2, -2, 0, 0);
        } else if leader == 28 {
            lattice_points::lemma_leader(5, 28, 2, -2, -2, -2, -2, -2, 0, 0);
        } else {
            lattice_points::lemma_leader(5, 29, -2, -2, -2, -2, -2, -2, 0, 0);
        }
    } else if idx == 6 {
        assert(ISO_CODE_INDEX_TABLE[6] == 30 && ISO_CODE_NUM_TABLE[6] == 11);
        if leader == 30 {
            lattice_points::lemma_leader(6, 30, 3, 3, 1, 1, 1, 1, 1, 1);
        } else if leader == 31 {
            lattice_points::lemma_leader(6, 31, 3, 3, 1, 1, 1, 1, -1, -1);
        } else if leader == 32 {
            lattice_points::lemma_leader(6, 32, 3, 3, 1, 1, -1, -1, -1, -1);
        } else if leader == 33 {
            lattice_points::lemma_leader(6, 33, 3, 3, -1, -1, -1, -1, -1, -1);
        } else if leader == 34 {
            lattice_points::lemma_leader(6, 34, 3, -3, 1, 1, 1, 1, 1, -1);
        } else if leader == 35 {
            lattice_points::lemma_leader(6, 35, 3, -3, 1, 1, 1, -1, -1, -1);
        } else if leader == 36 {
            lattice_points::lemma_leader(6, 36, 3, -3, 1, -1, -1, -1, -1, -1);
        } else if leader == 37 {
            lattice_points::lemma_leader(6, 37, -3, -3, 1, 1, 1, 1, 1, 1);
        } else if leader == 38 {
            lattice_points::lemma_leader(6, 38, -3, -3, 1, 1, 1, 1, -1, -1);
        } else if leader == 39 {
            lattice_points::lemma_leader(6, 39, -3, -3, 1, 1, -1, -1, -1, -1);
        } else {
            lattice_points::lemma_leader(6, 40, -3, -3, -1, -1, -1, -1, -1, -1);
        }
    } else if idx == 7 {
        assert(ISO_CODE_INDEX_TABLE[7] == 41 && ISO_CODE_NUM_TABLE[7] == 6);
        if leader == 41 {
            lattice_points::lemma_leader(7, 41, 4, 2, 2, 0, 0, 0, 0, 0);
        } else if leader == 42 {
            lattice_points::lemma_leader(7, 42, 4, 2, -2, 0, 0, 0, 0, 0);
        } else if leader == 43 {
            lattice_points::lemma_leader(7, 43, 4, -2, -2, 0, 0, 0, 0, 0);
        } else if leader == 44 {
            lattice_points::lemma_leader(7, 44, -4, 2, 2, 0, 0, 0, 0, 0);
        } else if leader == 45 {
            lattice_points::lemma_leader(7, 45, -4, 2, -2, 0, 0, 0, 0, 0);
        } else {
            lattice_points::lemma_leader(7, 46, -4, -2, -2, 0, 0, 0, 0, 0);
        }
    } else {
        assert(ISO_CODE_INDEX_TABLE[8] == 47 && ISO_CODE_NUM_TABLE[8] == 9);
        if leader == 47 {
            lattice_points::lemma_leader(8, 47, 2, 2, 2, 2, 2, 2, 2, 2);
        } else if leader == 48 {
            lattice_points::lemma_leader(8, 48, 2, 2, 2, 2, 2, 2, 2, -2);
        } else if leader == 49 {
            lattice_points::lemma_leader(8, 49, 2, 2, 2, 2, 2, 2, -2, -2);
        } else if leader == 50 {
            lattice_points::lemma_leader(8, 50, 2, 2, 2, 2, 2, -2, -2, -2);
        } else if leader == 51 {
            lattice_points::lemma_leader(8, 51, 2, 2, 2, 2, -2, -2, -2, -2);
        } else if leader == 52 {
            lattice_points::lemma_leader(8, 52, 2, 2, 2, -2, -2, -2, -2, -2);
        } else if leader == 53 {
            lattice_points::lemma_leader(8, 53, 2, 2, -2, -2, -2, -2, -2, -2);
        } else if leader == 54 {
            lattice_points::lemma_leader(8, 54, 2, -2, -2, -2, -2, -2, -2, -2);
        } else {
            lattice_points::lemma_leader(8, 55, -2, -2, -2, -2, -2, -2, -2, -2);
        }
    }
}

proof fn lemma_classes_9(idx: int, leader: int)
    requires
        9 <= idx < 15,
        ISO_CODE_INDEX_TABLE[idx] <= leader < ISO_CODE_INDEX_TABLE[idx] + ISO_CODE_NUM_TABLE[idx],
    ensures
        lattice_points::is_leader(idx, leader),
        leader > ISO_CODE_INDEX_TABLE[idx] ==> ISO_CODE_DATA_TABLE[leader - 1]
            < ISO_CODE_DATA_TABLE[leader],
{
    if idx == 9 {
        assert(ISO_CODE_INDEX_TABLE[9] == 56 && ISO_CODE_NUM_TABLE[9] == 12);
        if leader == 56 {
            lattice_points::lemma_leader(9, 56, 3, 3, 3, 1, 1, 1, 1, -1);
        } else if leader == 57 {
            lattice_points::lemma_leader(9, 57, 3, 3, 3, 1, 1, -1, -1, -1);
        } else if leader == 58 {
            lattice_points::lemma_leader(9, 58, 3, 3, 3, -1, -1, -1, -1, -1);
        } else if leader == 59 {
            lattice_points::lemma_leader(9, 59, 3, 3, -3, 1, 1, 1, 1, 1);
        } else if leader == 60 {
            lattice_points::lemma_leader(9, 60, 3, 3, -3, 1, 1, 1, -1, -1);
        } else if leader == 61 {
            lattice_points::lemma_leader(9, 61, 3, 3, -3, 1, -1, -1, -1, -1);
        } else if leader == 62 {
            lattice_points::lemma_leader(9, 62, 3, -3, -3, 1, 1, 1, 1, -1);
        } else if leader == 63 {
            lattice_points::lemma_leader(9, 63, 3, -3, -3, 1, 1, -1, -1, -1);
        } else if leader == 64 {
            lattice_points::lemma_leader(9, 64, 3, -3, -3, -1, -1, -1, -1, -1);
        } else if leader == 65 {
            lattice_points::lemma_leader(9, 65, -3, -3, -3, 1, 1, 1, 1, 1);
        } else if leader == 66 {
            lattice_points::lemma_leader(9, 66, -3, -3, -3, 1, 1, 1, -1, -1);
        } else {
            lattice_points::lemma_leader(9, 67, -3, -3, -3, 1, -1, -1, -1, -1);
        }
    } else if idx == 10 {
        assert(ISO_CODE_INDEX_TABLE[10] == 68 && ISO_CODE_NUM_TABLE[10] == 10);
        if leader == 68 {
            lattice_points::lemma_leader(10, 68, 4, 2, 2, 2, 2, 0, 0, 0);
        } else if leader == 69 {
            lattice_points::lemma_leader(10, 69, 4, 2, 2, 2, -2, 0, 0, 0);
        } else if leader == 70 {
            lattice_points::lemma_leader(10, 70, 4, 2, 2, -2, -2, 0, 0, 0);
        } else if leader == 71 {
            lattice_points::lemma_leader(10, 71, 4, 2, -2, -2, -2, 0, 0, 0);
        } else if leader == 72 {
            lattice_points::lemma_leader(10, 72, 4, -2, -2, -2, -2, 0, 0, 0);
        } else if leader == 73 {
            lattice_points::lemma_leader(10, 73, -4, 2, 2, 2, 2, 0, 0, 0);
        } else if leader == 74 {
            lattice_points::lemma_leader(10, 74, -4, 2, 2, 2, -2, 0, 0, 0);
        } else if leader == 75 {
            lattice_points::lemma_leader(10, 75, -4, 2, 2, -2, -2, 0, 0, 0);
        } else if leader == 76 {
            lattice_points::lemma_leader(10, 76, -4, 2, -2, -2, -2, 0, 0, 0);
        } else {
            lattice_points::lemma_leader(10, 77, -4, -2, -2, -2, -2, 0, 0, 0);
        }
    } else if idx == 11 {
        assert(ISO_CODE_INDEX_TABLE[11] == 78 && ISO_CODE_NUM_TABLE[11] == 3);
        if leader == 78 {
            lattice_points::lemma_leader(11, 78, 4, 4, 0, 0, 0, 0, 0, 0);
        } else if leader == 79 {
            lattice_points::lemma_leader(11, 79, 4, -4, 0, 0, 0, 0, 0, 0);
        } else {
            lattice_points::lemma_leader(11, 80, -4, -4, 0, 0, 0, 0, 0, 0);
        }
    } else if idx == 12 {
        assert(ISO_CODE_INDEX_TABLE[12] == 81 && ISO_CODE_NUM_TABLE[12] == 8);
        if leader == 81 {
            lattice_points::lemma_leader(12, 81, 5, 1, 1, 1, 1, 1, 1, 1);
        } else if leader == 82 {
            lattice_points::lemma_leader(12, 82, 5, 1, 1, 1, 1, 1, -1, -1);
        } else if leader == 83 {
            lattice_points::lemma_leader(12, 83, 5, 1, 1, 1, -1, -1, -1, -1);
        } else if leader == 84 {
            lattice_points::lemma_leader(12, 84, 5, 1, -1, -1, -1, -1, -1, -1);
        } else if leader == 85 {
            lattice_points::lemma_leader(12, 85, -5, 1, 1, 1, 1, 1, 1, -1);
        } else if leader == 86 {
            lattice_points::lemma_leader(12, 86, -5, 1, 1, 1, 1, -1, -1, -1);
        } else if leader == 87 {
            lattice_points::lemma_leader(12, 87, -5, 1, 1, -1, -1, -1, -1, -1);
        } else {
            lattice_points::lemma_leader(12, 88, -5, -1, -1, -1, -1, -1, -1, -1);
        }
    } else if idx == 13 {
        assert(ISO_CODE_INDEX_TABLE[13] == 89 && ISO_CODE_NUM_TABLE[13] == 13);
        if leader == 89 {
            lattice_points::lemma_leader(13, 89, 3, 3, 3, 3, 1, 1, 1, 1);
        } else if leader == 90 {
            lattice_points::lemma_leader(13, 90, 3, 3, 3, 3, 1, 1, -1, -1);
        } else if leader == 91 {
            lattice_points::lemma_leader(13, 91, 3, 3, 3, 3, -1, -1, -1, -1);
        } else if leader == 92 {
            lattice_points::lemma_leader(13, 92, 3, 3, 3, -3, 1, 1, 1, -1);
        } else if leader == 93 {
            lattice_points::lemma_leader(13, 93, 3, 3, 3, -3, 1, -1, -1, -1);
        } else if leader == 94 {
            lattice_points::lemma_leader(13, 94, 3, 3, -3, -3, 1, 1, 1, 1);
        } else if leader == 95 {
            lattice_points::lemma_leader(13, 95, 3, 3, -3, -3, 1, 1, -1, -1);
        } else if leader == 96 {
            lattice_points::lemma_leader(13, 96, 3, 3, -3, -3, -1, -1, -1, -1);
        } else if leader == 97 {
            lattice_points::lemma_leader(13, 97, 3, -3, -3, -3, 1, 1, 1, -1);
        } else if leader == 98 {
            lattice_points::lemma_leader(13, 98, 3, -3, -3, -3, 1, -1, -1, -1);
        } else if leader == 99 {
            lattice_points::lemma_leader(13, 99, -3, -3, -3, -3, 1, 1, 1, 1);
        } else if leader == 100 {
            lattice_points::lemma_leader(13, 100, -3, -3, -3, -3, 1, 1, -1, -1);
        } else {
            lattice_points::lemma_leader(13, 101, -3, -3, -3, -3, -1, -1, -1, -1);
        }
    } else {
        assert(ISO_CODE_INDEX_TABLE[14] == 102 && ISO_CODE_NUM_TABLE[14] == 14);
        if leader == 102 {
            lattice_points::lemma_leader(14, 102, 4, 2, 2, 2, 2, 2, 2, 0);
        } else if leader == 103 {
            lattice_points::lemma_leader(14, 103, 4, 2, 2, 2, 2, 2, -2, 0);
        } else if leader == 104 {
            lattice_points::lemma_leader(14, 104, 4, 2, 2, 2, 2, -2, -2, 0);
        } else if leader == 105 {
            lattice_points::lemma_leader(14, 105, 4, 2, 2, 2, -2, -2, -2, 0);
        } else if leader == 106 {
            lattice_points::lemma_leader(14, 106, 4, 2, 2, -2, -2, -2, -2, 0);
        } else if leader == 107 {
            lattice_points::lemma_leader(14, 107, 4, 2, -2, -2, -2, -2, -2, 0);
        } else if leader == 108 {
            lattice_points::lemma_leader(14, 108, 4, -2, -2, -2, -2, -2, -2, 0);
        } else if leader == 109 {
            lattice_points::lemma_leader(14, 109, -4, 2, 2, 2, 2, 2, 2, 0);
        } else if leader == 110 {
            lattice_points::lemma_leader(14, 110, -4, 2, 2, 2, 2, 2, -2, 0);
        } else if leader == 111 {
            lattice_points::lemma_leader(14, 111, -4, 2, 2, 2, 2, -2, -2, 0);
        } else if leader == 112 {
            lattice_points::lemma_leader(14, 112, -4, 2, 2, 2, -2, -2, -2, 0);
        } else if leader == 113 {
            lattice_points::lemma_leader(14, 113, -4, 2, 2, -2, -2, -2, -2, 0);
        } else if leader == 114 {
            lattice_points::lemma_leader(14, 114, -4, 2, -2, -2, -2, -2, -2, 0);
        } else {
            lattice_points::lemma_leader(14, 115, -4, -2, -2, -2, -2, -2, -2, 0);
        }
    }
}

proof fn lemma_classes_15(idx: int, leader: int)
    requires
        15 <= idx < 24,
        ISO_CODE_INDEX_TABLE[idx] <= leader < ISO_CODE_INDEX_TABLE[idx] + ISO_CODE_NUM_TABLE[idx],
    ensures
        lattice_points::is_leader(idx, leader),
        leader > ISO_CODE_INDEX_TABLE[idx] ==> ISO_CODE_DATA_TABLE[leader - 1]
            < ISO_CODE_DATA_TABLE[leader],
{
    if idx == 15 {
        assert(ISO_CODE_INDEX_TABLE[15] == 116 && ISO_CODE_NUM_TABLE[15] == 9);
        if leader == 116 {
            lattice_points::lemma_leader(15, 116, 4, 4, 2, 2, 0, 0, 0, 0);
        } else if leader == 117 {
            lattice_points::lemma_leader(15, 117, 4, 4, 2, -2, 0, 0, 0, 0);
        } else if leader == 118 {
            lattice_points::lemma_leader(15, 118, 4, 4, -2, -2, 0, 0, 0, 0);
        } else if leader == 119 {
            lattice_points::lemma_leader(15, 119, 4, -4, 2, 2, 0, 0, 0, 0);
        } else if leader == 120 {
            lattice_points::lemma_leader(15, 120, 4, -4, 2, -2, 0, 0, 0, 0);
        } else if leader == 121 {
            lattice_points::lemma_leader(15, 121, 4, -4, -2, -2, 0, 0, 0, 0);
        } else if leader == 122 {
            lattice_points::lemma_leader(15, 122, -4, -4, 2, 2, 0, 0, 0, 0);
        } else if leader == 123 {
            lattice_points::lemma_leader(15, 123, -4, -4, 2, -2, 0, 0, 0, 0);
        } else {
            lattice_points::lemma_leader(15, 124, -4, -4, -2, -2, 0, 0, 0, 0);
        }
    } else if idx == 16 {
        assert(ISO_CODE_INDEX_TABLE[16] == 125 && ISO_CODE_NUM_TABLE[16] == 14);
        if leader == 125 {
            lattice_points::lemma_leader(16, 125, 5, 3, 1, 1, 1, 1, 1, -1);
        } else if leader == 126 {
            lattice_points::lemma_leader(16, 126, 5, 3, 1, 1, 1, -1, -1, -1);
        } else if leader == 127 {
            lattice_points::lemma_leader(16, 127, 5, 3, 1, -1, -1, -1, -1, -1);
        } else if leader == 128 {
            lattice_points::lemma_leader(16, 128, 5, -3, 1, 1, 1, 1, 1, 1);
        } else if leader == 129 {
            lattice_points::lemma_leader(16, 129, 5, -3, 1, 1, 1, 1, -1, -1);
        } else if leader == 130 {
            lattice_points::lemma_leader(16, 130, 5, -3, 1, 1, -1, -1, -1, -1);
        } else if leader == 131 {
            lattice_points::lemma_leader(16, 131, 5, -3, -1, -1, -1, -1, -1, -1);
        } else if leader == 132 {
            lattice_points::lemma_leader(16, 132, -5, 3, 1, 1, 1, 1, 1, 1);
        } else if leader == 133 {
            lattice_points::lemma_leader(16, 133, -5, 3, 1, 1, 1, 1, -1, -1);
        } else if leader == 134 {
            lattice_points::lemma_leader(16, 134, -5, 3, 1, 1, -1, -1, -1, -1);
        } else if leader == 135 {
            lattice_points::lemma_leader(16, 135, -5, 3, -1, -1, -1, -1, -1, -1);
        } else if leader == 136 {
            lattice_points::lemma_leader(16, 136, -5, -3, 1, 1, 1, 1, 1, -1);
        } else if leader == 137 {
            lattice_points::lemma_leader(16, 137, -5, -3, 1, 1, 1, -1, -1, -1);
        } else {
            lattice_points::lemma_leader(16, 138, -5, -3, 1, -1, -1, -1, -1, -1);
        }
    } else if idx == 17 {
        assert(ISO_CODE_INDEX_TABLE[17] == 139 && ISO_CODE_NUM_TABLE[17] == 4);
        if leader == 139 {
            lattice_points::lemma_leader(17, 139, 6, 2, 0, 0, 0, 0, 0, 0);
        } else if leader == 140 {
            lattice_points::lemma_leader(17, 140, 6, -2, 0, 0, 0, 0, 0, 0);
        } else if leader == 141 {
            lattice_points::lemma_leader(17, 141, -6, 2, 0, 0, 0, 0, 0, 0);
        } else {
            lattice_points::lemma_leader(17, 142, -6, -2, 0, 0, 0, 0, 0, 0);
        }
    } else if idx == 18 {
        assert(ISO_CODE_INDEX_TABLE[18] == 143 && ISO_CODE_NUM_TABLE[18] == 4);
        if leader == 143 {
            lattice_points::lemma_leader(18, 143, 4, 4, 4, 0, 0, 0, 0, 0);
        } else if leader == 144 {
            lattice_points::lemma_leader(18, 144, 4, 4, -4, 0, 0, 0, 0, 0);
        } else if leader == 145 {
            lattice_points::lemma_leader(18, 145, 4, -4, -4, 0, 0, 0, 0, 0);
        } else {
            lattice_points::lemma_leader(18, 146, -4, -4, -4, 0, 0, 0, 0, 0);
        }
    } else if idx == 19 {
        assert(ISO_CODE_INDEX_TABLE[19] == 147 && ISO_CODE_NUM_TABLE[19] == 8);
        if leader == 147 {
            lattice_points::lemma_leader(19, 147, 6, 2, 2, 2, 0, 0, 0, 0);
        } else if leader == 148 {
            lattice_points::lemma_leader(19, 148, 6, 2, 2, -2, 0, 0, 0, 0);
        } else if leader == 149 {
            lattice_points::lemma_leader(19, 149, 6, 2, -2, -2, 0, 0, 0, 0);
        } else if leader == 150 {
            lattice_points::lemma_leader(19, 150, 6, -2, -2, -2, 0, 0, 0, 0);
        } else if leader == 151 {
            lattice_points::lemma_leader(19, 151, -6, 2, 2, 2, 0, 0, 0, 0);
        } else if leader == 152 {
            lattice_points::lemma_leader(19, 152, -6, 2, 2, -2, 0, 0, 0, 0);
        } else if leader == 153 {
            lattice_points::lemma_leader(19, 153, -6, 2, -2, -2, 0, 0, 0, 0);
        } else {
            lattice_points::lemma_leader(19, 154, -6, -2, -2, -2, 0, 0, 0, 0);
        }
    } else if idx == 20 {
        assert(ISO_CODE_INDEX_TABLE[20] == 155 && ISO_CODE_NUM_TABLE[20] == 8);
        if leader == 155 {
            lattice_points::lemma_leader(20, 155, 6, 4, 2, 0, 0, 0, 0, 0);
        } else if leader == 156 {
            lattice_points::lemma_leader(20, 156, 6, 4, -2, 0, 0, 0, 0, 0);
        } else if leader == 157 {
            lattice_points::lemma_leader(20, 157, 6, -4, 2, 0, 0, 0, 0, 0);
        } else if leader == 158 {
            lattice_points::lemma_leader(20, 158, 6, -4, -2, 0, 0, 0, 0, 0);
        } else if leader == 159 {
            lattice_points::lemma_leader(20, 159, -6, 4, 2, 0, 0, 0, 0, 0);
        } else if leader == 160 {
            lattice_points::lemma_leader(20, 160, -6, 4, -2, 0, 0, 0, 0, 0);
        } else if leader == 161 {
            lattice_points::lemma_leader(20, 161, -6, -4, 2, 0, 0, 0, 0, 0);
        } else {
            lattice_points::lemma_leader(20, 162, -6, -4, -2, 0, 0, 0, 0, 0);
        }
    } else if idx == 21 {
        assert(ISO_CODE_INDEX_TABLE[21] == 163 && ISO_CODE_NUM_TABLE[21] == 8);
        if leader == 163 {
            lattice_points::lemma_leader(21, 163, 7, 1, 1, 1, 1, 1, 1, -1);
        } else if leader == 164 {
            lattice_points::lemma_leader(21, 164, 7, 1, 1, 1, 1, -1, -1, -1);
        } else if leader == 165 {
            lattice_points::lemma_leader(21, 165, 7, 1, 1, -1, -1, -1, -1, -1);
        } else if leader == 166 {
            lattice_points::lemma_leader(21, 166, 7, -1, -1, -1, -1, -1, -1, -1);
        } else if leader == 167 {
            lattice_points::lemma_leader(21, 167, -7, 1, 1, 1, 1, 1, 1, 1);
        } else if leader == 168 {
            lattice_points::lemma_leader(21, 168, -7, 1, 1, 1, 1, 1, -1, -1);
        } else if leader == 169 {
            lattice_points::lemma_leader(21, 169, -7, 1, 1, 1, -1, -1, -1, -1);
        } else {
            lattice_points::lemma_leader(21, 170, -7, 1, -1, -1, -1, -1, -1, -1);
        }
    } else if idx == 22 {
        assert(ISO_CODE_INDEX_TABLE[22] == 171 && ISO_CODE_NUM_TABLE[22] == 2);
        if leader == 171 {
            lattice_points::lemma_leader(22, 171, 8, 0, 0, 0, 0, 0, 0, 0);
        } else {
            lattice_points::lemma_leader(22, 172, -8, 0, 0, 0, 0, 0, 0, 0);
        }
    } else {
        assert(ISO_CODE_INDEX_TABLE[23] == 173 && ISO_CODE_NUM_TABLE[23] == 3);
        if leader == 173 {
            lattice_points::lemma_leader(23, 173, 6, 6, 0, 0, 0, 0, 0, 0);
        } else if leader == 174 {
            lattice_points::lemma_leader(23, 174, 6, -6, 0, 0, 0, 0, 0, 0);
        } else {
            lattice_points::lemma_leader(23, 175, -6, -6, 0, 0, 0, 0, 0, 0);
        }
    }
}

proof fn lemma_classes_24(idx: int, leader: int)
    requires
        24 <= idx < 37,
        ISO_CODE_INDEX_TABLE[idx] <= leader < ISO_CODE_INDEX_TABLE[idx] + ISO_CODE_NUM_TABLE[idx],
    ensures
        lattice_points::is_leader(idx, leader),
        leader > ISO_CODE_INDEX_TABLE[idx] ==> ISO_CODE_DATA_TABLE[leader - 1]
            < ISO_CODE_DATA_TABLE[leader],
{
    if idx == 24 {
        assert(ISO_CODE_INDEX_TABLE[24] == 176 && ISO_CODE_NUM_TABLE[24] == 6);
        if leader == 176 {
            lattice_points::lemma_leader(24, 176, 8, 2, 2, 0, 0, 0, 0, 0);
        } else if leader == 177 {
            lattice_points::lemma_leader(24, 177, 8, 2, -2, 0, 0, 0, 0, 0);
        } else if leader == 178 {
            lattice_points::lemma_leader(24, 178, 8, -2, -2, 0, 0, 0, 0, 0);
        } else if leader == 179 {
            lattice_points::lemma_leader(24, 179, -8, 2, 2, 0, 0, 0, 0, 0);
        } else if leader == 180 {
            lattice_points::lemma_leader(24, 180, -8, 2, -2, 0, 0, 0, 0, 0);
        } else {
            lattice_points::lemma_leader(24, 181, -8, -2, -2, 0, 0, 0, 0, 0);
        }
    } else if idx == 25 {
        assert(ISO_CODE_INDEX_TABLE[25] == 182 && ISO_CODE_NUM_TABLE[25] == 4);
        if leader == 182 {
            lattice_points::lemma_leader(25, 182, 8, 4, 0, 0, 0, 0, 0, 0);
        } else if leader == 183 {
            lattice_points::lemma_leader(25, 183, 8, -4, 0, 0, 0, 0, 0, 0);
        } else if leader == 184 {
            lattice_points::lemma_leader(25, 184, -8, 4, 0, 0, 0, 0, 0, 0);
        } else {
            lattice_points::lemma_leader(25, 185, -8, -4, 0, 0, 0, 0, 0, 0);
        }
    } else if idx == 26 {
        assert(ISO_CODE_INDEX_TABLE[26] == 186 && ISO_CODE_NUM_TABLE[26] == 8);
        if leader == 186 {
            lattice_points::lemma_leader(26, 186, 9, 1, 1, 1, 1, 1, 1, 1);
        } else if leader == 187 {
            lattice_points::lemma_leader(26, 187, 9, 1, 1, 1, 1, 1, -1, -1);
        } else if leader == 188 {
            lattice_points::lemma_leader(26, 188, 9, 1, 1, 1, -1, -1, -1, -1);
        } else if leader == 189 {
            lattice_points::lemma_leader(26, 189, 9, 1, -1, -1, -1, -1, -1, -1);
        } else if leader == 190 {
            lattice_points::lemma_leader(26, 190, -9, 1, 1, 1, 1, 1, 1, -1);
        } else if leader == 191 {
            lattice_points::lemma_leader(26, 191, -9, 1, 1, 1, 1, -1, -1, -1);
        } else if leader == 192 {
            lattice_points::lemma_leader(26, 192, -9, 1, 1, -1, -1, -1, -1, -1);
        } else {
            lattice_points::lemma_leader(26, 193, -9, -1, -1, -1, -1, -1, -1, -1);
        }
    } else if idx == 27 {
        assert(ISO_CODE_INDEX_TABLE[27] == 194 && ISO_CODE_NUM_TABLE[27] == 4);
        if leader == 194 {
            lattice_points::lemma_leader(27, 194, 10, 2, 0, 0, 0, 0, 0, 0);
        } else if leader == 195 {
            lattice_points::lemma_leader(27, 195, 10, -2, 0, 0, 0, 0, 0, 0);
        } else if leader == 196 {
            lattice_points::lemma_leader(27, 196, -10, 2, 0, 0, 0, 0, 0, 0);
        } else {
            lattice_points::lemma_leader(27, 197, -10, -2, 0, 0, 0, 0, 0, 0);
        }
    } else if idx == 28 {
        assert(ISO_CODE_INDEX_TABLE[28] == 198 && ISO_CODE_NUM_TABLE[28] == 3);
        if leader == 198 {
            lattice_points::lemma_leader(28, 198, 8, 8, 0, 0, 0, 0, 0, 0);
        } else if leader == 199 {
            lattice_points::lemma_leader(28, 199, 8, -8, 0, 0, 0, 0, 0, 0);
        } else {
            lattice_points::lemma_leader(28, 200, -8, -8, 0, 0, 0, 0, 0, 0);
        }
    } else if idx == 29 {
        assert(ISO_CODE_INDEX_TABLE[29] == 201 && ISO_CODE_NUM_TABLE[29] == 4);
        if leader == 201 {
            lattice_points::lemma_leader(29, 201, 10, 6, 0, 0, 0, 0, 0, 0);
        } else if leader == 202 {
            lattice_points::lemma_leader(29, 202, 10, -6, 0, 0, 0, 0, 0, 0);
        } else if leader == 203 {
            lattice_points::lemma_leader(29, 203, -10, 6, 0, 0, 0, 0, 0, 0);
        } else {
            lattice_points::lemma_leader(29, 204, -10, -6, 0, 0, 0, 0, 0, 0);
        }
    } else if idx == 30 {
        assert(ISO_CODE_INDEX_TABLE[30] == 205 && ISO_CODE_NUM_TABLE[30] == 2);
        if leader == 205 {
            lattice_points::lemma_leader(30, 205, 12, 0, 0, 0, 0, 0, 0, 0);
        } else {
            lattice_points::lemma_leader(30, 206, -12, 0, 0, 0, 0, 0, 0, 0);
        }
    } else if idx == 31 {
        assert(ISO_CODE_INDEX_TABLE[31] == 207 && ISO_CODE_NUM_TABLE[31] == 4);
        if leader == 207 {
            lattice_points::lemma_leader(31, 207, 12, 4, 0, 0, 0, 0, 0, 0);
        } else if leader == 208 {
            lattice_points::lemma_leader(31, 208, 12, -4, 0, 0, 0, 0, 0, 0);
        } else if leader == 209 {
            lattice_points::lemma_leader(31, 209, -12, 4, 0, 0, 0, 0, 0, 0);
        } else {
            lattice_points::lemma_leader(31, 210, -12, -4, 0, 0, 0, 0, 0, 0);
        }
    } else if idx == 32 {
        assert(ISO_CODE_INDEX_TABLE[32] == 211 && ISO_CODE_NUM_TABLE[32] == 3);
        if leader == 211 {
            lattice_points::lemma_leader(32, 211, 10, 10, 0, 0, 0, 0, 0, 0);
        } else if leader == 212 {
            lattice_points::lemma_leader(32, 212, 10, -10, 0, 0, 0, 0, 0, 0);
        } else {
            lattice_points::lemma_leader(32, 213, -10, -10, 0, 0, 0, 0, 0, 0);
        }
    } else if idx == 33 {
        assert(ISO_CODE_INDEX_TABLE[33] == 214 && ISO_CODE_NUM_TABLE[33] == 4);
        if leader == 214 {
            lattice_points::lemma_leader(33, 214, 14, 2, 0, 0, 0, 0, 0, 0);
        } else if leader == 215 {
            lattice_points::lemma_leader(33, 215, 14, -2, 0, 0, 0, 0, 0, 0);
        } else if leader == 216 {
            lattice_points::lemma_leader(33, 216, -14, 2, 0, 0, 0, 0, 0, 0);
        } else {
            lattice_points::lemma_leader(33, 217, -14, -2, 0, 0, 0, 0, 0, 0);
        }
    } else if idx == 34 {
        assert(ISO_CODE_INDEX_TABLE[34] == 218 && ISO_CODE_NUM_TABLE[34] == 4);
        if leader == 218 {
            lattice_points::lemma_leader(34, 218, 12, 8, 0, 0, 0, 0, 0, 0);
        } else if leader == 219 {
            lattice_points::lemma_leader(34, 219, 12, -8, 0, 0, 0, 0, 0, 0);
        } else if leader == 220 {
            lattice_points::lemma_leader(34, 220, -12, 8, 0, 0, 0, 0, 0, 0);
        } else {
            lattice_points::lemma_leader(34, 221, -12, -8, 0, 0, 0, 0, 0, 0);
        }
    } else if idx == 35 {
        assert(ISO_CODE_INDEX_TABLE[35] == 222 && ISO_CODE_NUM_TABLE[35] == 2);
        if leader == 222 {
            lattice_points::lemma_leader(35, 222, 16, 0, 0, 0, 0, 0, 0, 0);
        } else {
            lattice_points::lemma_leader(35, 223, -16, 0, 0, 0, 0, 0, 0, 0);
        }
    } else {
        assert(ISO_CODE_INDEX_TABLE[36] == 224 && ISO_CODE_NUM_TABLE[36] == 2);
        if leader == 224 {
            lattice_points::lemma_leader(36, 224, 20, 0, 0, 0, 0, 0, 0, 0);
        } else {
            lattice_points::lemma_leader(36, 225, -20, 0, 0, 0, 0, 0, 0, 0);
        }
    }
}

/// Every leader of every class.
pub(crate) proof fn lemma_class(idx: int, leader: int)
    requires
        0 <= idx < 37,
        ISO_CODE_INDEX_TABLE[idx] <= leader < ISO_CODE_INDEX_TABLE[idx] + ISO_CODE_NUM_TABLE[idx],
    ensures
        lattice_points::is_leader(idx, leader),
        leader > ISO_CODE_INDEX_TABLE[idx] ==> ISO_CODE_DATA_TABLE[leader - 1]
            < ISO_CODE_DATA_TABLE[leader],
{
    if idx < 9 {
        lemma_classes_0(idx, leader);
    } else if idx < 15 {
        lemma_classes_9(idx, leader);
    } else if idx < 24 {
        lemma_classes_15(idx, leader);
    } else {
        lemma_classes_24(idx, leader);
    }
}

} // verus!
