//! The blocks of the lattice's index space hold as many code indices as their
//! signed templates have permutations.
//!
//! One lemma for each bucket of code indices. Within a bucket, the block of a
//! sign leader runs up to the next leader's first index; the product of the run
//! lengths of the leader's template, times the length of the block, is `8!`.

use crate::decoder::usac::lattice;
use crate::tables::usac_avq::{
    CARDINALITY_OFFSET_TABLE_I3, CARDINALITY_OFFSET_TAB_I4, POS_ABS_LEADERS_A3, POS_ABS_LEADERS_A4,
    SIGNED_LEADER_IS,
};
use vstd::prelude::*;

verus! {

proof fn lemma_three_0(code: int, leader: int)
    requires
        0 <= code < 128,
        leader == lattice::sign_leader(0, code),
    ensures
        lattice::names_permutation(0, leader, code),
        lattice::is_ascending(SIGNED_LEADER_IS@.subrange(0, 5)),
        SIGNED_LEADER_IS[0] <= code,
{
    reveal_with_fuel(lattice::running, 9);
    reveal_with_fuel(lattice::bucket, 6);
    let starts = SIGNED_LEADER_IS@.subrange(0, 5);
    assert(starts[0] == 0);
    assert(starts[1] == 1);
    assert(starts[2] == 29);
    assert(starts[3] == 99);
    assert(starts[4] == 127);
    assert forall|i: int| 0 <= i < 4 implies #[trigger] starts[i] <= starts[i + 1] by {
        if i == 0 {
        } else if i == 1 {
        } else if i == 2 {
        } else if i == 3 {
        }
    }
    lattice::lemma_ascending(starts);
    if code < 1 {
        assert(leader == 0);
        lattice::lemma_block(0, 0, 0, 40320, code);
    } else if code < 29 {
        assert(leader == 1);
        lattice::lemma_block(0, 1, 1, 1440, code);
    } else if code < 99 {
        assert(leader == 2);
        lattice::lemma_block(0, 2, 29, 576, code);
    } else if code < 127 {
        assert(leader == 3);
        lattice::lemma_block(0, 3, 99, 1440, code);
    } else {
        assert(leader == 4);
        lattice::lemma_block(0, 4, 127, 40320, code);
    }
}

proof fn lemma_three_1(code: int, leader: int)
    requires
        128 <= code < 240,
        leader == lattice::sign_leader(1, code),
    ensures
        lattice::names_permutation(1, leader, code),
        lattice::is_ascending(SIGNED_LEADER_IS@.subrange(5, 8)),
        SIGNED_LEADER_IS[5] <= code,
{
    reveal_with_fuel(lattice::running, 9);
    reveal_with_fuel(lattice::bucket, 4);
    let starts = SIGNED_LEADER_IS@.subrange(5, 8);
    assert(starts[0] == 128);
    assert(starts[1] == 156);
    assert(starts[2] == 212);
    assert forall|i: int| 0 <= i < 2 implies #[trigger] starts[i] <= starts[i + 1] by {
        if i == 0 {
        } else if i == 1 {
        }
    }
    lattice::lemma_ascending(starts);
    if code < 156 {
        assert(leader == 5);
        lattice::lemma_block(1, 5, 128, 1440, code);
    } else if code < 212 {
        assert(leader == 6);
        lattice::lemma_block(1, 6, 156, 720, code);
    } else {
        assert(leader == 7);
        lattice::lemma_block(1, 7, 212, 1440, code);
    }
}

proof fn lemma_three_2(code: int, leader: int)
    requires
        240 <= code < 256,
        leader == lattice::sign_leader(4, code),
    ensures
        lattice::names_permutation(4, leader, code),
        lattice::is_ascending(SIGNED_LEADER_IS@.subrange(21, 23)),
        SIGNED_LEADER_IS[21] <= code,
{
    reveal_with_fuel(lattice::running, 9);
    reveal_with_fuel(lattice::bucket, 3);
    let starts = SIGNED_LEADER_IS@.subrange(21, 23);
    assert(starts[0] == 240);
    assert(starts[1] == 248);
    assert forall|i: int| 0 <= i < 1 implies #[trigger] starts[i] <= starts[i + 1] by {
        if i == 0 {
        }
    }
    lattice::lemma_ascending(starts);
    if code < 248 {
        assert(leader == 21);
        lattice::lemma_block(4, 21, 240, 5040, code);
    } else {
        assert(leader == 22);
        lattice::lemma_block(4, 22, 248, 5040, code);
    }
}

proof fn lemma_three_3(code: int, leader: int)
    requires
        256 <= code < 1376,
        leader == lattice::sign_leader(2, code),
    ensures
        lattice::names_permutation(2, leader, code),
        lattice::is_ascending(SIGNED_LEADER_IS@.subrange(8, 13)),
        SIGNED_LEADER_IS[8] <= code,
{
    reveal_with_fuel(lattice::running, 9);
    reveal_with_fuel(lattice::bucket, 6);
    let starts = SIGNED_LEADER_IS@.subrange(8, 13);
    assert(starts[0] == 256);
    assert(starts[1] == 326);
    assert(starts[2] == 606);
    assert(starts[3] == 1026);
    assert(starts[4] == 1306);
    assert forall|i: int| 0 <= i < 4 implies #[trigger] starts[i] <= starts[i + 1] by {
        if i == 0 {
        } else if i == 1 {
        } else if i == 2 {
        } else if i == 3 {
        }
    }
    lattice::lemma_ascending(starts);
    if code < 326 {
        assert(leader == 8);
        lattice::lemma_block(2, 8, 256, 576, code);
    } else if code < 606 {
        assert(leader == 9);
        lattice::lemma_block(2, 9, 326, 144, code);
    } else if code < 1026 {
        assert(leader == 10);
        lattice::lemma_block(2, 10, 606, 96, code);
    } else if code < 1306 {
        assert(leader == 11);
        lattice::lemma_block(2, 11, 1026, 144, code);
    } else {
        assert(leader == 12);
        lattice::lemma_block(2, 12, 1306, 576, code);
    }
}

proof fn lemma_three_4(code: int, leader: int)
    requires
        1376 <= code < 2400,
        leader == lattice::sign_leader(3, code),
    ensures
        lattice::names_permutation(3, leader, code),
        lattice::is_ascending(SIGNED_LEADER_IS@.subrange(13, 21)),
        SIGNED_LEADER_IS[13] <= code,
{
    reveal_with_fuel(lattice::running, 9);
    reveal_with_fuel(lattice::bucket, 9);
    let starts = SIGNED_LEADER_IS@.subrange(13, 21);
    assert(starts[0] == 1376);
    assert(starts[1] == 1432);
    assert(starts[2] == 1712);
    assert(starts[3] == 1880);
    assert(starts[4] == 1888);
    assert(starts[5] == 1896);
    assert(starts[6] == 2064);
    assert(starts[7] == 2344);
    assert forall|i: int| 0 <= i < 7 implies #[trigger] starts[i] <= starts[i + 1] by {
        if i == 0 {
        } else if i == 1 {
        } else if i == 2 {
        } else if i == 3 {
        } else if i == 4 {
        } else if i == 5 {
        } else if i == 6 {
        }
    }
    lattice::lemma_ascending(starts);
    if code < 1432 {
        assert(leader == 13);
        lattice::lemma_block(3, 13, 1376, 720, code);
    } else if code < 1712 {
        assert(leader == 14);
        lattice::lemma_block(3, 14, 1432, 144, code);
    } else if code < 1880 {
        assert(leader == 15);
        lattice::lemma_block(3, 15, 1712, 240, code);
    } else if code < 1888 {
        assert(leader == 16);
        lattice::lemma_block(3, 16, 1880, 5040, code);
    } else if code < 1896 {
        assert(leader == 17);
        lattice::lemma_block(3, 17, 1888, 5040, code);
    } else if code < 2064 {
        assert(leader == 18);
        lattice::lemma_block(3, 18, 1896, 240, code);
    } else if code < 2344 {
        assert(leader == 19);
        lattice::lemma_block(3, 19, 2064, 144, code);
    } else {
        assert(leader == 20);
        lattice::lemma_block(3, 20, 2344, 720, code);
    }
}

proof fn lemma_three_5(code: int, leader: int)
    requires
        2400 <= code < 3744,
        leader == lattice::sign_leader(7, code),
    ensures
        lattice::names_permutation(7, leader, code),
        lattice::is_ascending(SIGNED_LEADER_IS@.subrange(41, 47)),
        SIGNED_LEADER_IS[41] <= code,
{
    reveal_with_fuel(lattice::running, 9);
    reveal_with_fuel(lattice::bucket, 7);
    let starts = SIGNED_LEADER_IS@.subrange(41, 47);
    assert(starts[0] == 2400);
    assert(starts[1] == 2568);
    assert(starts[2] == 2904);
    assert(starts[3] == 3072);
    assert(starts[4] == 3240);
    assert(starts[5] == 3576);
    assert forall|i: int| 0 <= i < 5 implies #[trigger] starts[i] <= starts[i + 1] by {
        if i == 0 {
        } else if i == 1 {
        } else if i == 2 {
        } else if i == 3 {
        } else if i == 4 {
        }
    }
    lattice::lemma_ascending(starts);
    if code < 2568 {
        assert(leader == 41);
        lattice::lemma_block(7, 41, 2400, 240, code);
    } else if code < 2904 {
        assert(leader == 42);
        lattice::lemma_block(7, 42, 2568, 120, code);
    } else if code < 3072 {
        assert(leader == 43);
        lattice::lemma_block(7, 43, 2904, 240, code);
    } else if code < 3240 {
        assert(leader == 44);
        lattice::lemma_block(7, 44, 3072, 240, code);
    } else if code < 3576 {
        assert(leader == 45);
        lattice::lemma_block(7, 45, 3240, 120, code);
    } else {
        assert(leader == 46);
        lattice::lemma_block(7, 46, 3576, 240, code);
    }
}

proof fn lemma_three_6(code: int, leader: int)
    requires
        3744 <= code < 3856,
        leader == lattice::sign_leader(11, code),
    ensures
        lattice::names_permutation(11, leader, code),
        lattice::is_ascending(SIGNED_LEADER_IS@.subrange(78, 81)),
        SIGNED_LEADER_IS[78] <= code,
{
    reveal_with_fuel(lattice::running, 9);
    reveal_with_fuel(lattice::bucket, 4);
    let starts = SIGNED_LEADER_IS@.subrange(78, 81);
    assert(starts[0] == 3744);
    assert(starts[1] == 3772);
    assert(starts[2] == 3828);
    assert forall|i: int| 0 <= i < 2 implies #[trigger] starts[i] <= starts[i + 1] by {
        if i == 0 {
        } else if i == 1 {
        }
    }
    lattice::lemma_ascending(starts);
    if code < 3772 {
        assert(leader == 78);
        lattice::lemma_block(11, 78, 3744, 1440, code);
    } else if code < 3828 {
        assert(leader == 79);
        lattice::lemma_block(11, 79, 3772, 720, code);
    } else {
        assert(leader == 80);
        lattice::lemma_block(11, 80, 3828, 1440, code);
    }
}

proof fn lemma_three_7(code: int, leader: int)
    requires
        3856 <= code < 4080,
        leader == lattice::sign_leader(17, code),
    ensures
        lattice::names_permutation(17, leader, code),
        lattice::is_ascending(SIGNED_LEADER_IS@.subrange(139, 143)),
        SIGNED_LEADER_IS[139] <= code,
{
    reveal_with_fuel(lattice::running, 9);
    reveal_with_fuel(lattice::bucket, 5);
    let starts = SIGNED_LEADER_IS@.subrange(139, 143);
    assert(starts[0] == 3856);
    assert(starts[1] == 3912);
    assert(starts[2] == 3968);
    assert(starts[3] == 4024);
    assert forall|i: int| 0 <= i < 3 implies #[trigger] starts[i] <= starts[i + 1] by {
        if i == 0 {
        } else if i == 1 {
        } else if i == 2 {
        }
    }
    lattice::lemma_ascending(starts);
    if code < 3912 {
        assert(leader == 139);
        lattice::lemma_block(17, 139, 3856, 720, code);
    } else if code < 3968 {
        assert(leader == 140);
        lattice::lemma_block(17, 140, 3912, 720, code);
    } else if code < 4024 {
        assert(leader == 141);
        lattice::lemma_block(17, 141, 3968, 720, code);
    } else {
        assert(leader == 142);
        lattice::lemma_block(17, 142, 4024, 720, code);
    }
}

proof fn lemma_three_8(code: int, leader: int)
    requires
        4080 <= code < 4096,
        leader == lattice::sign_leader(22, code),
    ensures
        lattice::names_permutation(22, leader, code),
        lattice::is_ascending(SIGNED_LEADER_IS@.subrange(171, 173)),
        SIGNED_LEADER_IS[171] <= code,
{
    reveal_with_fuel(lattice::running, 9);
    reveal_with_fuel(lattice::bucket, 3);
    let starts = SIGNED_LEADER_IS@.subrange(171, 173);
    assert(starts[0] == 4080);
    assert(starts[1] == 4088);
    assert forall|i: int| 0 <= i < 1 implies #[trigger] starts[i] <= starts[i + 1] by {
        if i == 0 {
        }
    }
    lattice::lemma_ascending(starts);
    if code < 4088 {
        assert(leader == 171);
        lattice::lemma_block(22, 171, 4080, 5040, code);
    } else {
        assert(leader == 172);
        lattice::lemma_block(22, 172, 4088, 5040, code);
    }
}

proof fn lemma_four_0(code: int, leader: int)
    requires
        0 <= code < 1792,
        leader == lattice::sign_leader(5, code),
    ensures
        lattice::names_permutation(5, leader, code),
        lattice::is_ascending(SIGNED_LEADER_IS@.subrange(23, 30)),
        SIGNED_LEADER_IS[23] <= code,
{
    reveal_with_fuel(lattice::running, 9);
    reveal_with_fuel(lattice::bucket, 8);
    let starts = SIGNED_LEADER_IS@.subrange(23, 30);
    assert(starts[0] == 0);
    assert(starts[1] == 28);
    assert(starts[2] == 196);
    assert(starts[3] == 616);
    assert(starts[4] == 1176);
    assert(starts[5] == 1596);
    assert(starts[6] == 1764);
    assert forall|i: int| 0 <= i < 6 implies #[trigger] starts[i] <= starts[i + 1] by {
        if i == 0 {
        } else if i == 1 {
        } else if i == 2 {
        } else if i == 3 {
        } else if i == 4 {
        } else if i == 5 {
        }
    }
    lattice::lemma_ascending(starts);
    if code < 28 {
        assert(leader == 23);
        lattice::lemma_block(5, 23, 0, 1440, code);
    } else if code < 196 {
        assert(leader == 24);
        lattice::lemma_block(5, 24, 28, 240, code);
    } else if code < 616 {
        assert(leader == 25);
        lattice::lemma_block(5, 25, 196, 96, code);
    } else if code < 1176 {
        assert(leader == 26);
        lattice::lemma_block(5, 26, 616, 72, code);
    } else if code < 1596 {
        assert(leader == 27);
        lattice::lemma_block(5, 27, 1176, 96, code);
    } else if code < 1764 {
        assert(leader == 28);
        lattice::lemma_block(5, 28, 1596, 240, code);
    } else {
        assert(leader == 29);
        lattice::lemma_block(5, 29, 1764, 1440, code);
    }
}

proof fn lemma_four_1(code: int, leader: int)
    requires
        1792 <= code < 5376,
        leader == lattice::sign_leader(6, code),
    ensures
        lattice::names_permutation(6, leader, code),
        lattice::is_ascending(SIGNED_LEADER_IS@.subrange(30, 41)),
        SIGNED_LEADER_IS[30] <= code,
{
    reveal_with_fuel(lattice::running, 9);
    reveal_with_fuel(lattice::bucket, 12);
    let starts = SIGNED_LEADER_IS@.subrange(30, 41);
    assert(starts[0] == 1792);
    assert(starts[1] == 1820);
    assert(starts[2] == 2240);
    assert(starts[3] == 2660);
    assert(starts[4] == 2688);
    assert(starts[5] == 3024);
    assert(starts[6] == 4144);
    assert(starts[7] == 4480);
    assert(starts[8] == 4508);
    assert(starts[9] == 4928);
    assert(starts[10] == 5348);
    assert forall|i: int| 0 <= i < 10 implies #[trigger] starts[i] <= starts[i + 1] by {
        if i == 0 {
        } else if i == 1 {
        } else if i == 2 {
        } else if i == 3 {
        } else if i == 4 {
        } else if i == 5 {
        } else if i == 6 {
        } else if i == 7 {
        } else if i == 8 {
        } else if i == 9 {
        }
    }
    lattice::lemma_ascending(starts);
    if code < 1820 {
        assert(leader == 30);
        lattice::lemma_block(6, 30, 1792, 1440, code);
    } else if code < 2240 {
        assert(leader == 31);
        lattice::lemma_block(6, 31, 1820, 96, code);
    } else if code < 2660 {
        assert(leader == 32);
        lattice::lemma_block(6, 32, 2240, 96, code);
    } else if code < 2688 {
        assert(leader == 33);
        lattice::lemma_block(6, 33, 2660, 1440, code);
    } else if code < 3024 {
        assert(leader == 34);
        lattice::lemma_block(6, 34, 2688, 120, code);
    } else if code < 4144 {
        assert(leader == 35);
        lattice::lemma_block(6, 35, 3024, 36, code);
    } else if code < 4480 {
        assert(leader == 36);
        lattice::lemma_block(6, 36, 4144, 120, code);
    } else if code < 4508 {
        assert(leader == 37);
        lattice::lemma_block(6, 37, 4480, 1440, code);
    } else if code < 4928 {
        assert(leader == 38);
        lattice::lemma_block(6, 38, 4508, 96, code);
    } else if code < 5348 {
        assert(leader == 39);
        lattice::lemma_block(6, 39, 4928, 96, code);
    } else {
        assert(leader == 40);
        lattice::lemma_block(6, 40, 5348, 1440, code);
    }
}

proof fn lemma_four_2(code: int, leader: int)
    requires
        5376 <= code < 5632,
        leader == lattice::sign_leader(8, code),
    ensures
        lattice::names_permutation(8, leader, code),
        lattice::is_ascending(SIGNED_LEADER_IS@.subrange(47, 56)),
        SIGNED_LEADER_IS[47] <= code,
{
    reveal_with_fuel(lattice::running, 9);
    reveal_with_fuel(lattice::bucket, 10);
    let starts = SIGNED_LEADER_IS@.subrange(47, 56);
    assert(starts[0] == 5376);
    assert(starts[1] == 5377);
    assert(starts[2] == 5385);
    assert(starts[3] == 5413);
    assert(starts[4] == 5469);
    assert(starts[5] == 5539);
    assert(starts[6] == 5595);
    assert(starts[7] == 5623);
    assert(starts[8] == 5631);
    assert forall|i: int| 0 <= i < 8 implies #[trigger] starts[i] <= starts[i + 1] by {
        if i == 0 {
        } else if i == 1 {
        } else if i == 2 {
        } else if i == 3 {
        } else if i == 4 {
        } else if i == 5 {
        } else if i == 6 {
        } else if i == 7 {
        }
    }
    lattice::lemma_ascending(starts);
    if code < 5377 {
        assert(leader == 47);
        lattice::lemma_block(8, 47, 5376, 40320, code);
    } else if code < 5385 {
        assert(leader == 48);
        lattice::lemma_block(8, 48, 5377, 5040, code);
    } else if code < 5413 {
        assert(leader == 49);
        lattice::lemma_block(8, 49, 5385, 1440, code);
    } else if code < 5469 {
        assert(leader == 50);
        lattice::lemma_block(8, 50, 5413, 720, code);
    } else if code < 5539 {
        assert(leader == 51);
        lattice::lemma_block(8, 51, 5469, 576, code);
    } else if code < 5595 {
        assert(leader == 52);
        lattice::lemma_block(8, 52, 5539, 720, code);
    } else if code < 5623 {
        assert(leader == 53);
        lattice::lemma_block(8, 53, 5595, 1440, code);
    } else if code < 5631 {
        assert(leader == 54);
        lattice::lemma_block(8, 54, 5623, 5040, code);
    } else {
        assert(leader == 55);
        lattice::lemma_block(8, 55, 5631, 40320, code);
    }
}

proof fn lemma_four_3(code: int, leader: int)
    requires
        5632 <= code < 12800,
        leader == lattice::sign_leader(9, code),
    ensures
        lattice::names_permutation(9, leader, code),
        lattice::is_ascending(SIGNED_LEADER_IS@.subrange(56, 68)),
        SIGNED_LEADER_IS[56] <= code,
{
    reveal_with_fuel(lattice::running, 9);
    reveal_with_fuel(lattice::bucket, 13);
    let starts = SIGNED_LEADER_IS@.subrange(56, 68);
    assert(starts[0] == 5632);
    assert(starts[1] == 5912);
    assert(starts[2] == 6472);
    assert(starts[3] == 6528);
    assert(starts[4] == 6696);
    assert(starts[5] == 8376);
    assert(starts[6] == 9216);
    assert(starts[7] == 10056);
    assert(starts[8] == 11736);
    assert(starts[9] == 11904);
    assert(starts[10] == 11960);
    assert(starts[11] == 12520);
    assert forall|i: int| 0 <= i < 11 implies #[trigger] starts[i] <= starts[i + 1] by {
        if i == 0 {
        } else if i == 1 {
        } else if i == 2 {
        } else if i == 3 {
        } else if i == 4 {
        } else if i == 5 {
        } else if i == 6 {
        } else if i == 7 {
        } else if i == 8 {
        } else if i == 9 {
        } else if i == 10 {
        }
    }
    lattice::lemma_ascending(starts);
    if code < 5912 {
        assert(leader == 56);
        lattice::lemma_block(9, 56, 5632, 144, code);
    } else if code < 6472 {
        assert(leader == 57);
        lattice::lemma_block(9, 57, 5912, 72, code);
    } else if code < 6528 {
        assert(leader == 58);
        lattice::lemma_block(9, 58, 6472, 720, code);
    } else if code < 6696 {
        assert(leader == 59);
        lattice::lemma_block(9, 59, 6528, 240, code);
    } else if code < 8376 {
        assert(leader == 60);
        lattice::lemma_block(9, 60, 6696, 24, code);
    } else if code < 9216 {
        assert(leader == 61);
        lattice::lemma_block(9, 61, 8376, 48, code);
    } else if code < 10056 {
        assert(leader == 62);
        lattice::lemma_block(9, 62, 9216, 48, code);
    } else if code < 11736 {
        assert(leader == 63);
        lattice::lemma_block(9, 63, 10056, 24, code);
    } else if code < 11904 {
        assert(leader == 64);
        lattice::lemma_block(9, 64, 11736, 240, code);
    } else if code < 11960 {
        assert(leader == 65);
        lattice::lemma_block(9, 65, 11904, 720, code);
    } else if code < 12520 {
        assert(leader == 66);
        lattice::lemma_block(9, 66, 11960, 72, code);
    } else {
        assert(leader == 67);
        lattice::lemma_block(9, 67, 12520, 144, code);
    }
}

proof fn lemma_four_4(code: int, leader: int)
    requires
        12800 <= code < 21760,
        leader == lattice::sign_leader(10, code),
    ensures
        lattice::names_permutation(10, leader, code),
        lattice::is_ascending(SIGNED_LEADER_IS@.subrange(68, 78)),
        SIGNED_LEADER_IS[68] <= code,
{
    reveal_with_fuel(lattice::running, 9);
    reveal_with_fuel(lattice::bucket, 11);
    let starts = SIGNED_LEADER_IS@.subrange(68, 78);
    assert(starts[0] == 12800);
    assert(starts[1] == 13080);
    assert(starts[2] == 14200);
    assert(starts[3] == 15880);
    assert(starts[4] == 17000);
    assert(starts[5] == 17280);
    assert(starts[6] == 17560);
    assert(starts[7] == 18680);
    assert(starts[8] == 20360);
    assert(starts[9] == 21480);
    assert forall|i: int| 0 <= i < 9 implies #[trigger] starts[i] <= starts[i + 1] by {
        if i == 0 {
        } else if i == 1 {
        } else if i == 2 {
        } else if i == 3 {
        } else if i == 4 {
        } else if i == 5 {
        } else if i == 6 {
        } else if i == 7 {
        } else if i == 8 {
        }
    }
    lattice::lemma_ascending(starts);
    if code < 13080 {
        assert(leader == 68);
        lattice::lemma_block(10, 68, 12800, 144, code);
    } else if code < 14200 {
        assert(leader == 69);
        lattice::lemma_block(10, 69, 13080, 36, code);
    } else if code < 15880 {
        assert(leader == 70);
        lattice::lemma_block(10, 70, 14200, 24, code);
    } else if code < 17000 {
        assert(leader == 71);
        lattice::lemma_block(10, 71, 15880, 36, code);
    } else if code < 17280 {
        assert(leader == 72);
        lattice::lemma_block(10, 72, 17000, 144, code);
    } else if code < 17560 {
        assert(leader == 73);
        lattice::lemma_block(10, 73, 17280, 144, code);
    } else if code < 18680 {
        assert(leader == 74);
        lattice::lemma_block(10, 74, 17560, 36, code);
    } else if code < 20360 {
        assert(leader == 75);
        lattice::lemma_block(10, 75, 18680, 24, code);
    } else if code < 21480 {
        assert(leader == 76);
        lattice::lemma_block(10, 76, 20360, 36, code);
    } else {
        assert(leader == 77);
        lattice::lemma_block(10, 77, 21480, 144, code);
    }
}

proof fn lemma_four_5(code: int, leader: int)
    requires
        21760 <= code < 22784,
        leader == lattice::sign_leader(12, code),
    ensures
        lattice::names_permutation(12, leader, code),
        lattice::is_ascending(SIGNED_LEADER_IS@.subrange(81, 89)),
        SIGNED_LEADER_IS[81] <= code,
{
    reveal_with_fuel(lattice::running, 9);
    reveal_with_fuel(lattice::bucket, 9);
    let starts = SIGNED_LEADER_IS@.subrange(81, 89);
    assert(starts[0] == 21760);
    assert(starts[1] == 21768);
    assert(starts[2] == 21936);
    assert(starts[3] == 22216);
    assert(starts[4] == 22272);
    assert(starts[5] == 22328);
    assert(starts[6] == 22608);
    assert(starts[7] == 22776);
    assert forall|i: int| 0 <= i < 7 implies #[trigger] starts[i] <= starts[i + 1] by {
        if i == 0 {
        } else if i == 1 {
        } else if i == 2 {
        } else if i == 3 {
        } else if i == 4 {
        } else if i == 5 {
        } else if i == 6 {
        }
    }
    lattice::lemma_ascending(starts);
    if code < 21768 {
        assert(leader == 81);
        lattice::lemma_block(12, 81, 21760, 5040, code);
    } else if code < 21936 {
        assert(leader == 82);
        lattice::lemma_block(12, 82, 21768, 240, code);
    } else if code < 22216 {
        assert(leader == 83);
        lattice::lemma_block(12, 83, 21936, 144, code);
    } else if code < 22272 {
        assert(leader == 84);
        lattice::lemma_block(12, 84, 22216, 720, code);
    } else if code < 22328 {
        assert(leader == 85);
        lattice::lemma_block(12, 85, 22272, 720, code);
    } else if code < 22608 {
        assert(leader == 86);
        lattice::lemma_block(12, 86, 22328, 144, code);
    } else if code < 22776 {
        assert(leader == 87);
        lattice::lemma_block(12, 87, 22608, 240, code);
    } else {
        assert(leader == 88);
        lattice::lemma_block(12, 88, 22776, 5040, code);
    }
}

proof fn lemma_four_6(code: int, leader: int)
    requires
        22784 <= code < 31744,
        leader == lattice::sign_leader(13, code),
    ensures
        lattice::names_permutation(13, leader, code),
        lattice::is_ascending(SIGNED_LEADER_IS@.subrange(89, 102)),
        SIGNED_LEADER_IS[89] <= code,
{
    reveal_with_fuel(lattice::running, 9);
    reveal_with_fuel(lattice::bucket, 14);
    let starts = SIGNED_LEADER_IS@.subrange(89, 102);
    assert(starts[0] == 22784);
    assert(starts[1] == 22854);
    assert(starts[2] == 23274);
    assert(starts[3] == 23344);
    assert(starts[4] == 24464);
    assert(starts[5] == 25584);
    assert(starts[6] == 26004);
    assert(starts[7] == 28524);
    assert(starts[8] == 28944);
    assert(starts[9] == 30064);
    assert(starts[10] == 31184);
    assert(starts[11] == 31254);
    assert(starts[12] == 31674);
    assert forall|i: int| 0 <= i < 12 implies #[trigger] starts[i] <= starts[i + 1] by {
        if i == 0 {
        } else if i == 1 {
        } else if i == 2 {
        } else if i == 3 {
        } else if i == 4 {
        } else if i == 5 {
        } else if i == 6 {
        } else if i == 7 {
        } else if i == 8 {
        } else if i == 9 {
        } else if i == 10 {
        } else if i == 11 {
        }
    }
    lattice::lemma_ascending(starts);
    if code < 22854 {
        assert(leader == 89);
        lattice::lemma_block(13, 89, 22784, 576, code);
    } else if code < 23274 {
        assert(leader == 90);
        lattice::lemma_block(13, 90, 22854, 96, code);
    } else if code < 23344 {
        assert(leader == 91);
        lattice::lemma_block(13, 91, 23274, 576, code);
    } else if code < 24464 {
        assert(leader == 92);
        lattice::lemma_block(13, 92, 23344, 36, code);
    } else if code < 25584 {
        assert(leader == 93);
        lattice::lemma_block(13, 93, 24464, 36, code);
    } else if code < 26004 {
        assert(leader == 94);
        lattice::lemma_block(13, 94, 25584, 96, code);
    } else if code < 28524 {
        assert(leader == 95);
        lattice::lemma_block(13, 95, 26004, 16, code);
    } else if code < 28944 {
        assert(leader == 96);
        lattice::lemma_block(13, 96, 28524, 96, code);
    } else if code < 30064 {
        assert(leader == 97);
        lattice::lemma_block(13, 97, 28944, 36, code);
    } else if code < 31184 {
        assert(leader == 98);
        lattice::lemma_block(13, 98, 30064, 36, code);
    } else if code < 31254 {
        assert(leader == 99);
        lattice::lemma_block(13, 99, 31184, 576, code);
    } else if code < 31674 {
        assert(leader == 100);
        lattice::lemma_block(13, 100, 31254, 96, code);
    } else {
        assert(leader == 101);
        lattice::lemma_block(13, 101, 31674, 576, code);
    }
}

proof fn lemma_four_7(code: int, leader: int)
    requires
        31744 <= code < 38912,
        leader == lattice::sign_leader(14, code),
    ensures
        lattice::names_permutation(14, leader, code),
        lattice::is_ascending(SIGNED_LEADER_IS@.subrange(102, 116)),
        SIGNED_LEADER_IS[102] <= code,
{
    reveal_with_fuel(lattice::running, 9);
    reveal_with_fuel(lattice::bucket, 15);
    let starts = SIGNED_LEADER_IS@.subrange(102, 116);
    assert(starts[0] == 31744);
    assert(starts[1] == 31800);
    assert(starts[2] == 32136);
    assert(starts[3] == 32976);
    assert(starts[4] == 34096);
    assert(starts[5] == 34936);
    assert(starts[6] == 35272);
    assert(starts[7] == 35328);
    assert(starts[8] == 35384);
    assert(starts[9] == 35720);
    assert(starts[10] == 36560);
    assert(starts[11] == 37680);
    assert(starts[12] == 38520);
    assert(starts[13] == 38856);
    assert forall|i: int| 0 <= i < 13 implies #[trigger] starts[i] <= starts[i + 1] by {
        if i == 0 {
        } else if i == 1 {
        } else if i == 2 {
        } else if i == 3 {
        } else if i == 4 {
        } else if i == 5 {
        } else if i == 6 {
        } else if i == 7 {
        } else if i == 8 {
        } else if i == 9 {
        } else if i == 10 {
        } else if i == 11 {
        } else if i == 12 {
        }
    }
    lattice::lemma_ascending(starts);
    if code < 31800 {
        assert(leader == 102);
        lattice::lemma_block(14, 102, 31744, 720, code);
    } else if code < 32136 {
        assert(leader == 103);
        lattice::lemma_block(14, 103, 31800, 120, code);
    } else if code < 32976 {
        assert(leader == 104);
        lattice::lemma_block(14, 104, 32136, 48, code);
    } else if code < 34096 {
        assert(leader == 105);
        lattice::lemma_block(14, 105, 32976, 36, code);
    } else if code < 34936 {
        assert(leader == 106);
        lattice::lemma_block(14, 106, 34096, 48, code);
    } else if code < 35272 {
        assert(leader == 107);
        lattice::lemma_block(14, 107, 34936, 120, code);
    } else if code < 35328 {
        assert(leader == 108);
        lattice::lemma_block(14, 108, 35272, 720, code);
    } else if code < 35384 {
        assert(leader == 109);
        lattice::lemma_block(14, 109, 35328, 720, code);
    } else if code < 35720 {
        assert(leader == 110);
        lattice::lemma_block(14, 110, 35384, 120, code);
    } else if code < 36560 {
        assert(leader == 111);
        lattice::lemma_block(14, 111, 35720, 48, code);
    } else if code < 37680 {
        assert(leader == 112);
        lattice::lemma_block(14, 112, 36560, 36, code);
    } else if code < 38520 {
        assert(leader == 113);
        lattice::lemma_block(14, 113, 37680, 48, code);
    } else if code < 38856 {
        assert(leader == 114);
        lattice::lemma_block(14, 114, 38520, 120, code);
    } else {
        assert(leader == 115);
        lattice::lemma_block(14, 115, 38856, 720, code);
    }
}

proof fn lemma_four_8(code: int, leader: int)
    requires
        38912 <= code < 45632,
        leader == lattice::sign_leader(15, code),
    ensures
        lattice::names_permutation(15, leader, code),
        lattice::is_ascending(SIGNED_LEADER_IS@.subrange(116, 125)),
        SIGNED_LEADER_IS[116] <= code,
{
    reveal_with_fuel(lattice::running, 9);
    reveal_with_fuel(lattice::bucket, 10);
    let starts = SIGNED_LEADER_IS@.subrange(116, 125);
    assert(starts[0] == 38912);
    assert(starts[1] == 39332);
    assert(starts[2] == 40172);
    assert(starts[3] == 40592);
    assert(starts[4] == 41432);
    assert(starts[5] == 43112);
    assert(starts[6] == 43952);
    assert(starts[7] == 44372);
    assert(starts[8] == 45212);
    assert forall|i: int| 0 <= i < 8 implies #[trigger] starts[i] <= starts[i + 1] by {
        if i == 0 {
        } else if i == 1 {
        } else if i == 2 {
        } else if i == 3 {
        } else if i == 4 {
        } else if i == 5 {
        } else if i == 6 {
        } else if i == 7 {
        }
    }
    lattice::lemma_ascending(starts);
    if code < 39332 {
        assert(leader == 116);
        lattice::lemma_block(15, 116, 38912, 96, code);
    } else if code < 40172 {
        assert(leader == 117);
        lattice::lemma_block(15, 117, 39332, 48, code);
    } else if code < 40592 {
        assert(leader == 118);
        lattice::lemma_block(15, 118, 40172, 96, code);
    } else if code < 41432 {
        assert(leader == 119);
        lattice::lemma_block(15, 119, 40592, 48, code);
    } else if code < 43112 {
        assert(leader == 120);
        lattice::lemma_block(15, 120, 41432, 24, code);
    } else if code < 43952 {
        assert(leader == 121);
        lattice::lemma_block(15, 121, 43112, 48, code);
    } else if code < 44372 {
        assert(leader == 122);
        lattice::lemma_block(15, 122, 43952, 96, code);
    } else if code < 45212 {
        assert(leader == 123);
        lattice::lemma_block(15, 123, 44372, 48, code);
    } else {
        assert(leader == 124);
        lattice::lemma_block(15, 124, 45212, 96, code);
    }
}

proof fn lemma_four_9(code: int, leader: int)
    requires
        45632 <= code < 52800,
        leader == lattice::sign_leader(16, code),
    ensures
        lattice::names_permutation(16, leader, code),
        lattice::is_ascending(SIGNED_LEADER_IS@.subrange(125, 139)),
        SIGNED_LEADER_IS[125] <= code,
{
    reveal_with_fuel(lattice::running, 9);
    reveal_with_fuel(lattice::bucket, 15);
    let starts = SIGNED_LEADER_IS@.subrange(125, 139);
    assert(starts[0] == 45632);
    assert(starts[1] == 45968);
    assert(starts[2] == 47088);
    assert(starts[3] == 47424);
    assert(starts[4] == 47480);
    assert(starts[5] == 48320);
    assert(starts[6] == 49160);
    assert(starts[7] == 49216);
    assert(starts[8] == 49272);
    assert(starts[9] == 50112);
    assert(starts[10] == 50952);
    assert(starts[11] == 51008);
    assert(starts[12] == 51344);
    assert(starts[13] == 52464);
    assert forall|i: int| 0 <= i < 13 implies #[trigger] starts[i] <= starts[i + 1] by {
        if i == 0 {
        } else if i == 1 {
        } else if i == 2 {
        } else if i == 3 {
        } else if i == 4 {
        } else if i == 5 {
        } else if i == 6 {
        } else if i == 7 {
        } else if i == 8 {
        } else if i == 9 {
        } else if i == 10 {
        } else if i == 11 {
        } else if i == 12 {
        }
    }
    lattice::lemma_ascending(starts);
    if code < 45968 {
        assert(leader == 125);
        lattice::lemma_block(16, 125, 45632, 120, code);
    } else if code < 47088 {
        assert(leader == 126);
        lattice::lemma_block(16, 126, 45968, 36, code);
    } else if code < 47424 {
        assert(leader == 127);
        lattice::lemma_block(16, 127, 47088, 120, code);
    } else if code < 47480 {
        assert(leader == 128);
        lattice::lemma_block(16, 128, 47424, 720, code);
    } else if code < 48320 {
        assert(leader == 129);
        lattice::lemma_block(16, 129, 47480, 48, code);
    } else if code < 49160 {
        assert(leader == 130);
        lattice::lemma_block(16, 130, 48320, 48, code);
    } else if code < 49216 {
        assert(leader == 131);
        lattice::lemma_block(16, 131, 49160, 720, code);
    } else if code < 49272 {
        assert(leader == 132);
        lattice::lemma_block(16, 132, 49216, 720, code);
    } else if code < 50112 {
        assert(leader == 133);
        lattice::lemma_block(16, 133, 49272, 48, code);
    } else if code < 50952 {
        assert(leader == 134);
        lattice::lemma_block(16, 134, 50112, 48, code);
    } else if code < 51008 {
        assert(leader == 135);
        lattice::lemma_block(16, 135, 50952, 720, code);
    } else if code < 51344 {
        assert(leader == 136);
        lattice::lemma_block(16, 136, 51008, 120, code);
    } else if code < 52464 {
        assert(leader == 137);
        lattice::lemma_block(16, 137, 51344, 36, code);
    } else {
        assert(leader == 138);
        lattice::lemma_block(16, 138, 52464, 120, code);
    }
}

proof fn lemma_four_10(code: int, leader: int)
    requires
        52800 <= code < 53248,
        leader == lattice::sign_leader(18, code),
    ensures
        lattice::names_permutation(18, leader, code),
        lattice::is_ascending(SIGNED_LEADER_IS@.subrange(143, 147)),
        SIGNED_LEADER_IS[143] <= code,
{
    reveal_with_fuel(lattice::running, 9);
    reveal_with_fuel(lattice::bucket, 5);
    let starts = SIGNED_LEADER_IS@.subrange(143, 147);
    assert(starts[0] == 52800);
    assert(starts[1] == 52856);
    assert(starts[2] == 53024);
    assert(starts[3] == 53192);
    assert forall|i: int| 0 <= i < 3 implies #[trigger] starts[i] <= starts[i + 1] by {
        if i == 0 {
        } else if i == 1 {
        } else if i == 2 {
        }
    }
    lattice::lemma_ascending(starts);
    if code < 52856 {
        assert(leader == 143);
        lattice::lemma_block(18, 143, 52800, 720, code);
    } else if code < 53024 {
        assert(leader == 144);
        lattice::lemma_block(18, 144, 52856, 240, code);
    } else if code < 53192 {
        assert(leader == 145);
        lattice::lemma_block(18, 145, 53024, 240, code);
    } else {
        assert(leader == 146);
        lattice::lemma_block(18, 146, 53192, 720, code);
    }
}

proof fn lemma_four_11(code: int, leader: int)
    requires
        53248 <= code < 57728,
        leader == lattice::sign_leader(19, code),
    ensures
        lattice::names_permutation(19, leader, code),
        lattice::is_ascending(SIGNED_LEADER_IS@.subrange(147, 155)),
        SIGNED_LEADER_IS[147] <= code,
{
    reveal_with_fuel(lattice::running, 9);
    reveal_with_fuel(lattice::bucket, 9);
    let starts = SIGNED_LEADER_IS@.subrange(147, 155);
    assert(starts[0] == 53248);
    assert(starts[1] == 53528);
    assert(starts[2] == 54368);
    assert(starts[3] == 55208);
    assert(starts[4] == 55488);
    assert(starts[5] == 55768);
    assert(starts[6] == 56608);
    assert(starts[7] == 57448);
    assert forall|i: int| 0 <= i < 7 implies #[trigger] starts[i] <= starts[i + 1] by {
        if i == 0 {
        } else if i == 1 {
        } else if i == 2 {
        } else if i == 3 {
        } else if i == 4 {
        } else if i == 5 {
        } else if i == 6 {
        }
    }
    lattice::lemma_ascending(starts);
    if code < 53528 {
        assert(leader == 147);
        lattice::lemma_block(19, 147, 53248, 144, code);
    } else if code < 54368 {
        assert(leader == 148);
        lattice::lemma_block(19, 148, 53528, 48, code);
    } else if code < 55208 {
        assert(leader == 149);
        lattice::lemma_block(19, 149, 54368, 48, code);
    } else if code < 55488 {
        assert(leader == 150);
        lattice::lemma_block(19, 150, 55208, 144, code);
    } else if code < 55768 {
        assert(leader == 151);
        lattice::lemma_block(19, 151, 55488, 144, code);
    } else if code < 56608 {
        assert(leader == 152);
        lattice::lemma_block(19, 152, 55768, 48, code);
    } else if code < 57448 {
        assert(leader == 153);
        lattice::lemma_block(19, 153, 56608, 48, code);
    } else {
        assert(leader == 154);
        lattice::lemma_block(19, 154, 57448, 144, code);
    }
}

proof fn lemma_four_12(code: int, leader: int)
    requires
        57728 <= code < 60416,
        leader == lattice::sign_leader(20, code),
    ensures
        lattice::names_permutation(20, leader, code),
        lattice::is_ascending(SIGNED_LEADER_IS@.subrange(155, 163)),
        SIGNED_LEADER_IS[155] <= code,
{
    reveal_with_fuel(lattice::running, 9);
    reveal_with_fuel(lattice::bucket, 9);
    let starts = SIGNED_LEADER_IS@.subrange(155, 163);
    assert(starts[0] == 57728);
    assert(starts[1] == 58064);
    assert(starts[2] == 58400);
    assert(starts[3] == 58736);
    assert(starts[4] == 59072);
    assert(starts[5] == 59408);
    assert(starts[6] == 59744);
    assert(starts[7] == 60080);
    assert forall|i: int| 0 <= i < 7 implies #[trigger] starts[i] <= starts[i + 1] by {
        if i == 0 {
        } else if i == 1 {
        } else if i == 2 {
        } else if i == 3 {
        } else if i == 4 {
        } else if i == 5 {
        } else if i == 6 {
        }
    }
    lattice::lemma_ascending(starts);
    if code < 58064 {
        assert(leader == 155);
        lattice::lemma_block(20, 155, 57728, 120, code);
    } else if code < 58400 {
        assert(leader == 156);
        lattice::lemma_block(20, 156, 58064, 120, code);
    } else if code < 58736 {
        assert(leader == 157);
        lattice::lemma_block(20, 157, 58400, 120, code);
    } else if code < 59072 {
        assert(leader == 158);
        lattice::lemma_block(20, 158, 58736, 120, code);
    } else if code < 59408 {
        assert(leader == 159);
        lattice::lemma_block(20, 159, 59072, 120, code);
    } else if code < 59744 {
        assert(leader == 160);
        lattice::lemma_block(20, 160, 59408, 120, code);
    } else if code < 60080 {
        assert(leader == 161);
        lattice::lemma_block(20, 161, 59744, 120, code);
    } else {
        assert(leader == 162);
        lattice::lemma_block(20, 162, 60080, 120, code);
    }
}

proof fn lemma_four_13(code: int, leader: int)
    requires
        60416 <= code < 61440,
        leader == lattice::sign_leader(21, code),
    ensures
        lattice::names_permutation(21, leader, code),
        lattice::is_ascending(SIGNED_LEADER_IS@.subrange(163, 171)),
        SIGNED_LEADER_IS[163] <= code,
{
    reveal_with_fuel(lattice::running, 9);
    reveal_with_fuel(lattice::bucket, 9);
    let starts = SIGNED_LEADER_IS@.subrange(163, 171);
    assert(starts[0] == 60416);
    assert(starts[1] == 60472);
    assert(starts[2] == 60752);
    assert(starts[3] == 60920);
    assert(starts[4] == 60928);
    assert(starts[5] == 60936);
    assert(starts[6] == 61104);
    assert(starts[7] == 61384);
    assert forall|i: int| 0 <= i < 7 implies #[trigger] starts[i] <= starts[i + 1] by {
        if i == 0 {
        } else if i == 1 {
        } else if i == 2 {
        } else if i == 3 {
        } else if i == 4 {
        } else if i == 5 {
        } else if i == 6 {
        }
    }
    lattice::lemma_ascending(starts);
    if code < 60472 {
        assert(leader == 163);
        lattice::lemma_block(21, 163, 60416, 720, code);
    } else if code < 60752 {
        assert(leader == 164);
        lattice::lemma_block(21, 164, 60472, 144, code);
    } else if code < 60920 {
        assert(leader == 165);
        lattice::lemma_block(21, 165, 60752, 240, code);
    } else if code < 60928 {
        assert(leader == 166);
        lattice::lemma_block(21, 166, 60920, 5040, code);
    } else if code < 60936 {
        assert(leader == 167);
        lattice::lemma_block(21, 167, 60928, 5040, code);
    } else if code < 61104 {
        assert(leader == 168);
        lattice::lemma_block(21, 168, 60936, 240, code);
    } else if code < 61384 {
        assert(leader == 169);
        lattice::lemma_block(21, 169, 61104, 144, code);
    } else {
        assert(leader == 170);
        lattice::lemma_block(21, 170, 61384, 720, code);
    }
}

proof fn lemma_four_14(code: int, leader: int)
    requires
        61440 <= code < 61552,
        leader == lattice::sign_leader(23, code),
    ensures
        lattice::names_permutation(23, leader, code),
        lattice::is_ascending(SIGNED_LEADER_IS@.subrange(173, 176)),
        SIGNED_LEADER_IS[173] <= code,
{
    reveal_with_fuel(lattice::running, 9);
    reveal_with_fuel(lattice::bucket, 4);
    let starts = SIGNED_LEADER_IS@.subrange(173, 176);
    assert(starts[0] == 61440);
    assert(starts[1] == 61468);
    assert(starts[2] == 61524);
    assert forall|i: int| 0 <= i < 2 implies #[trigger] starts[i] <= starts[i + 1] by {
        if i == 0 {
        } else if i == 1 {
        }
    }
    lattice::lemma_ascending(starts);
    if code < 61468 {
        assert(leader == 173);
        lattice::lemma_block(23, 173, 61440, 1440, code);
    } else if code < 61524 {
        assert(leader == 174);
        lattice::lemma_block(23, 174, 61468, 720, code);
    } else {
        assert(leader == 175);
        lattice::lemma_block(23, 175, 61524, 1440, code);
    }
}

proof fn lemma_four_15(code: int, leader: int)
    requires
        61552 <= code < 62896,
        leader == lattice::sign_leader(24, code),
    ensures
        lattice::names_permutation(24, leader, code),
        lattice::is_ascending(SIGNED_LEADER_IS@.subrange(176, 182)),
        SIGNED_LEADER_IS[176] <= code,
{
    reveal_with_fuel(lattice::running, 9);
    reveal_with_fuel(lattice::bucket, 7);
    let starts = SIGNED_LEADER_IS@.subrange(176, 182);
    assert(starts[0] == 61552);
    assert(starts[1] == 61720);
    assert(starts[2] == 62056);
    assert(starts[3] == 62224);
    assert(starts[4] == 62392);
    assert(starts[5] == 62728);
    assert forall|i: int| 0 <= i < 5 implies #[trigger] starts[i] <= starts[i + 1] by {
        if i == 0 {
        } else if i == 1 {
        } else if i == 2 {
        } else if i == 3 {
        } else if i == 4 {
        }
    }
    lattice::lemma_ascending(starts);
    if code < 61720 {
        assert(leader == 176);
        lattice::lemma_block(24, 176, 61552, 240, code);
    } else if code < 62056 {
        assert(leader == 177);
        lattice::lemma_block(24, 177, 61720, 120, code);
    } else if code < 62224 {
        assert(leader == 178);
        lattice::lemma_block(24, 178, 62056, 240, code);
    } else if code < 62392 {
        assert(leader == 179);
        lattice::lemma_block(24, 179, 62224, 240, code);
    } else if code < 62728 {
        assert(leader == 180);
        lattice::lemma_block(24, 180, 62392, 120, code);
    } else {
        assert(leader == 181);
        lattice::lemma_block(24, 181, 62728, 240, code);
    }
}

proof fn lemma_four_16(code: int, leader: int)
    requires
        62896 <= code < 63120,
        leader == lattice::sign_leader(25, code),
    ensures
        lattice::names_permutation(25, leader, code),
        lattice::is_ascending(SIGNED_LEADER_IS@.subrange(182, 186)),
        SIGNED_LEADER_IS[182] <= code,
{
    reveal_with_fuel(lattice::running, 9);
    reveal_with_fuel(lattice::bucket, 5);
    let starts = SIGNED_LEADER_IS@.subrange(182, 186);
    assert(starts[0] == 62896);
    assert(starts[1] == 62952);
    assert(starts[2] == 63008);
    assert(starts[3] == 63064);
    assert forall|i: int| 0 <= i < 3 implies #[trigger] starts[i] <= starts[i + 1] by {
        if i == 0 {
        } else if i == 1 {
        } else if i == 2 {
        }
    }
    lattice::lemma_ascending(starts);
    if code < 62952 {
        assert(leader == 182);
        lattice::lemma_block(25, 182, 62896, 720, code);
    } else if code < 63008 {
        assert(leader == 183);
        lattice::lemma_block(25, 183, 62952, 720, code);
    } else if code < 63064 {
        assert(leader == 184);
        lattice::lemma_block(25, 184, 63008, 720, code);
    } else {
        assert(leader == 185);
        lattice::lemma_block(25, 185, 63064, 720, code);
    }
}

proof fn lemma_four_17(code: int, leader: int)
    requires
        63120 <= code < 64144,
        leader == lattice::sign_leader(26, code),
    ensures
        lattice::names_permutation(26, leader, code),
        lattice::is_ascending(SIGNED_LEADER_IS@.subrange(186, 194)),
        SIGNED_LEADER_IS[186] <= code,
{
    reveal_with_fuel(lattice::running, 9);
    reveal_with_fuel(lattice::bucket, 9);
    let starts = SIGNED_LEADER_IS@.subrange(186, 194);
    assert(starts[0] == 63120);
    assert(starts[1] == 63128);
    assert(starts[2] == 63296);
    assert(starts[3] == 63576);
    assert(starts[4] == 63632);
    assert(starts[5] == 63688);
    assert(starts[6] == 63968);
    assert(starts[7] == 64136);
    assert forall|i: int| 0 <= i < 7 implies #[trigger] starts[i] <= starts[i + 1] by {
        if i == 0 {
        } else if i == 1 {
        } else if i == 2 {
        } else if i == 3 {
        } else if i == 4 {
        } else if i == 5 {
        } else if i == 6 {
        }
    }
    lattice::lemma_ascending(starts);
    if code < 63128 {
        assert(leader == 186);
        lattice::lemma_block(26, 186, 63120, 5040, code);
    } else if code < 63296 {
        assert(leader == 187);
        lattice::lemma_block(26, 187, 63128, 240, code);
    } else if code < 63576 {
        assert(leader == 188);
        lattice::lemma_block(26, 188, 63296, 144, code);
    } else if code < 63632 {
        assert(leader == 189);
        lattice::lemma_block(26, 189, 63576, 720, code);
    } else if code < 63688 {
        assert(leader == 190);
        lattice::lemma_block(26, 190, 63632, 720, code);
    } else if code < 63968 {
        assert(leader == 191);
        lattice::lemma_block(26, 191, 63688, 144, code);
    } else if code < 64136 {
        assert(leader == 192);
        lattice::lemma_block(26, 192, 63968, 240, code);
    } else {
        assert(leader == 193);
        lattice::lemma_block(26, 193, 64136, 5040, code);
    }
}

proof fn lemma_four_18(code: int, leader: int)
    requires
        64144 <= code < 64368,
        leader == lattice::sign_leader(27, code),
    ensures
        lattice::names_permutation(27, leader, code),
        lattice::is_ascending(SIGNED_LEADER_IS@.subrange(194, 198)),
        SIGNED_LEADER_IS[194] <= code,
{
    reveal_with_fuel(lattice::running, 9);
    reveal_with_fuel(lattice::bucket, 5);
    let starts = SIGNED_LEADER_IS@.subrange(194, 198);
    assert(starts[0] == 64144);
    assert(starts[1] == 64200);
    assert(starts[2] == 64256);
    assert(starts[3] == 64312);
    assert forall|i: int| 0 <= i < 3 implies #[trigger] starts[i] <= starts[i + 1] by {
        if i == 0 {
        } else if i == 1 {
        } else if i == 2 {
        }
    }
    lattice::lemma_ascending(starts);
    if code < 64200 {
        assert(leader == 194);
        lattice::lemma_block(27, 194, 64144, 720, code);
    } else if code < 64256 {
        assert(leader == 195);
        lattice::lemma_block(27, 195, 64200, 720, code);
    } else if code < 64312 {
        assert(leader == 196);
        lattice::lemma_block(27, 196, 64256, 720, code);
    } else {
        assert(leader == 197);
        lattice::lemma_block(27, 197, 64312, 720, code);
    }
}

proof fn lemma_four_19(code: int, leader: int)
    requires
        64368 <= code < 64480,
        leader == lattice::sign_leader(28, code),
    ensures
        lattice::names_permutation(28, leader, code),
        lattice::is_ascending(SIGNED_LEADER_IS@.subrange(198, 201)),
        SIGNED_LEADER_IS[198] <= code,
{
    reveal_with_fuel(lattice::running, 9);
    reveal_with_fuel(lattice::bucket, 4);
    let starts = SIGNED_LEADER_IS@.subrange(198, 201);
    assert(starts[0] == 64368);
    assert(starts[1] == 64396);
    assert(starts[2] == 64452);
    assert forall|i: int| 0 <= i < 2 implies #[trigger] starts[i] <= starts[i + 1] by {
        if i == 0 {
        } else if i == 1 {
        }
    }
    lattice::lemma_ascending(starts);
    if code < 64396 {
        assert(leader == 198);
        lattice::lemma_block(28, 198, 64368, 1440, code);
    } else if code < 64452 {
        assert(leader == 199);
        lattice::lemma_block(28, 199, 64396, 720, code);
    } else {
        assert(leader == 200);
        lattice::lemma_block(28, 200, 64452, 1440, code);
    }
}

proof fn lemma_four_20(code: int, leader: int)
    requires
        64480 <= code < 64704,
        leader == lattice::sign_leader(29, code),
    ensures
        lattice::names_permutation(29, leader, code),
        lattice::is_ascending(SIGNED_LEADER_IS@.subrange(201, 205)),
        SIGNED_LEADER_IS[201] <= code,
{
    reveal_with_fuel(lattice::running, 9);
    reveal_with_fuel(lattice::bucket, 5);
    let starts = SIGNED_LEADER_IS@.subrange(201, 205);
    assert(starts[0] == 64480);
    assert(starts[1] == 64536);
    assert(starts[2] == 64592);
    assert(starts[3] == 64648);
    assert forall|i: int| 0 <= i < 3 implies #[trigger] starts[i] <= starts[i + 1] by {
        if i == 0 {
        } else if i == 1 {
        } else if i == 2 {
        }
    }
    lattice::lemma_ascending(starts);
    if code < 64536 {
        assert(leader == 201);
        lattice::lemma_block(29, 201, 64480, 720, code);
    } else if code < 64592 {
        assert(leader == 202);
        lattice::lemma_block(29, 202, 64536, 720, code);
    } else if code < 64648 {
        assert(leader == 203);
        lattice::lemma_block(29, 203, 64592, 720, code);
    } else {
        assert(leader == 204);
        lattice::lemma_block(29, 204, 64648, 720, code);
    }
}

proof fn lemma_four_21(code: int, leader: int)
    requires
        64704 <= code < 64720,
        leader == lattice::sign_leader(30, code),
    ensures
        lattice::names_permutation(30, leader, code),
        lattice::is_ascending(SIGNED_LEADER_IS@.subrange(205, 207)),
        SIGNED_LEADER_IS[205] <= code,
{
    reveal_with_fuel(lattice::running, 9);
    reveal_with_fuel(lattice::bucket, 3);
    let starts = SIGNED_LEADER_IS@.subrange(205, 207);
    assert(starts[0] == 64704);
    assert(starts[1] == 64712);
    assert forall|i: int| 0 <= i < 1 implies #[trigger] starts[i] <= starts[i + 1] by {
        if i == 0 {
        }
    }
    lattice::lemma_ascending(starts);
    if code < 64712 {
        assert(leader == 205);
        lattice::lemma_block(30, 205, 64704, 5040, code);
    } else {
        assert(leader == 206);
        lattice::lemma_block(30, 206, 64712, 5040, code);
    }
}

proof fn lemma_four_22(code: int, leader: int)
    requires
        64720 <= code < 64944,
        leader == lattice::sign_leader(31, code),
    ensures
        lattice::names_permutation(31, leader, code),
        lattice::is_ascending(SIGNED_LEADER_IS@.subrange(207, 211)),
        SIGNED_LEADER_IS[207] <= code,
{
    reveal_with_fuel(lattice::running, 9);
    reveal_with_fuel(lattice::bucket, 5);
    let starts = SIGNED_LEADER_IS@.subrange(207, 211);
    assert(starts[0] == 64720);
    assert(starts[1] == 64776);
    assert(starts[2] == 64832);
    assert(starts[3] == 64888);
    assert forall|i: int| 0 <= i < 3 implies #[trigger] starts[i] <= starts[i + 1] by {
        if i == 0 {
        } else if i == 1 {
        } else if i == 2 {
        }
    }
    lattice::lemma_ascending(starts);
    if code < 64776 {
        assert(leader == 207);
        lattice::lemma_block(31, 207, 64720, 720, code);
    } else if code < 64832 {
        assert(leader == 208);
        lattice::lemma_block(31, 208, 64776, 720, code);
    } else if code < 64888 {
        assert(leader == 209);
        lattice::lemma_block(31, 209, 64832, 720, code);
    } else {
        assert(leader == 210);
        lattice::lemma_block(31, 210, 64888, 720, code);
    }
}

proof fn lemma_four_23(code: int, leader: int)
    requires
        64944 <= code < 65056,
        leader == lattice::sign_leader(32, code),
    ensures
        lattice::names_permutation(32, leader, code),
        lattice::is_ascending(SIGNED_LEADER_IS@.subrange(211, 214)),
        SIGNED_LEADER_IS[211] <= code,
{
    reveal_with_fuel(lattice::running, 9);
    reveal_with_fuel(lattice::bucket, 4);
    let starts = SIGNED_LEADER_IS@.subrange(211, 214);
    assert(starts[0] == 64944);
    assert(starts[1] == 64972);
    assert(starts[2] == 65028);
    assert forall|i: int| 0 <= i < 2 implies #[trigger] starts[i] <= starts[i + 1] by {
        if i == 0 {
        } else if i == 1 {
        }
    }
    lattice::lemma_ascending(starts);
    if code < 64972 {
        assert(leader == 211);
        lattice::lemma_block(32, 211, 64944, 1440, code);
    } else if code < 65028 {
        assert(leader == 212);
        lattice::lemma_block(32, 212, 64972, 720, code);
    } else {
        assert(leader == 213);
        lattice::lemma_block(32, 213, 65028, 1440, code);
    }
}

proof fn lemma_four_24(code: int, leader: int)
    requires
        65056 <= code < 65280,
        leader == lattice::sign_leader(33, code),
    ensures
        lattice::names_permutation(33, leader, code),
        lattice::is_ascending(SIGNED_LEADER_IS@.subrange(214, 218)),
        SIGNED_LEADER_IS[214] <= code,
{
    reveal_with_fuel(lattice::running, 9);
    reveal_with_fuel(lattice::bucket, 5);
    let starts = SIGNED_LEADER_IS@.subrange(214, 218);
    assert(starts[0] == 65056);
    assert(starts[1] == 65112);
    assert(starts[2] == 65168);
    assert(starts[3] == 65224);
    assert forall|i: int| 0 <= i < 3 implies #[trigger] starts[i] <= starts[i + 1] by {
        if i == 0 {
        } else if i == 1 {
        } else if i == 2 {
        }
    }
    lattice::lemma_ascending(starts);
    if code < 65112 {
        assert(leader == 214);
        lattice::lemma_block(33, 214, 65056, 720, code);
    } else if code < 65168 {
        assert(leader == 215);
        lattice::lemma_block(33, 215, 65112, 720, code);
    } else if code < 65224 {
        assert(leader == 216);
        lattice::lemma_block(33, 216, 65168, 720, code);
    } else {
        assert(leader == 217);
        lattice::lemma_block(33, 217, 65224, 720, code);
    }
}

proof fn lemma_four_25(code: int, leader: int)
    requires
        65280 <= code < 65504,
        leader == lattice::sign_leader(34, code),
    ensures
        lattice::names_permutation(34, leader, code),
        lattice::is_ascending(SIGNED_LEADER_IS@.subrange(218, 222)),
        SIGNED_LEADER_IS[218] <= code,
{
    reveal_with_fuel(lattice::running, 9);
    reveal_with_fuel(lattice::bucket, 5);
    let starts = SIGNED_LEADER_IS@.subrange(218, 222);
    assert(starts[0] == 65280);
    assert(starts[1] == 65336);
    assert(starts[2] == 65392);
    assert(starts[3] == 65448);
    assert forall|i: int| 0 <= i < 3 implies #[trigger] starts[i] <= starts[i + 1] by {
        if i == 0 {
        } else if i == 1 {
        } else if i == 2 {
        }
    }
    lattice::lemma_ascending(starts);
    if code < 65336 {
        assert(leader == 218);
        lattice::lemma_block(34, 218, 65280, 720, code);
    } else if code < 65392 {
        assert(leader == 219);
        lattice::lemma_block(34, 219, 65336, 720, code);
    } else if code < 65448 {
        assert(leader == 220);
        lattice::lemma_block(34, 220, 65392, 720, code);
    } else {
        assert(leader == 221);
        lattice::lemma_block(34, 221, 65448, 720, code);
    }
}

proof fn lemma_four_26(code: int, leader: int)
    requires
        65504 <= code < 65520,
        leader == lattice::sign_leader(35, code),
    ensures
        lattice::names_permutation(35, leader, code),
        lattice::is_ascending(SIGNED_LEADER_IS@.subrange(222, 224)),
        SIGNED_LEADER_IS[222] <= code,
{
    reveal_with_fuel(lattice::running, 9);
    reveal_with_fuel(lattice::bucket, 3);
    let starts = SIGNED_LEADER_IS@.subrange(222, 224);
    assert(starts[0] == 65504);
    assert(starts[1] == 65512);
    assert forall|i: int| 0 <= i < 1 implies #[trigger] starts[i] <= starts[i + 1] by {
        if i == 0 {
        }
    }
    lattice::lemma_ascending(starts);
    if code < 65512 {
        assert(leader == 222);
        lattice::lemma_block(35, 222, 65504, 5040, code);
    } else {
        assert(leader == 223);
        lattice::lemma_block(35, 223, 65512, 5040, code);
    }
}

proof fn lemma_four_27(code: int, leader: int)
    requires
        65520 <= code < 65536,
        leader == lattice::sign_leader(36, code),
    ensures
        lattice::names_permutation(36, leader, code),
        lattice::is_ascending(SIGNED_LEADER_IS@.subrange(224, 226)),
        SIGNED_LEADER_IS[224] <= code,
{
    reveal_with_fuel(lattice::running, 9);
    reveal_with_fuel(lattice::bucket, 3);
    let starts = SIGNED_LEADER_IS@.subrange(224, 226);
    assert(starts[0] == 65520);
    assert(starts[1] == 65528);
    assert forall|i: int| 0 <= i < 1 implies #[trigger] starts[i] <= starts[i + 1] by {
        if i == 0 {
        }
    }
    lattice::lemma_ascending(starts);
    if code < 65528 {
        assert(leader == 224);
        lattice::lemma_block(36, 224, 65520, 5040, code);
    } else {
        assert(leader == 225);
        lattice::lemma_block(36, 225, 65528, 5040, code);
    }
}

/// Every code index below the limit names a permutation of a template.
pub(crate) proof fn lemma_three(code: int)
    requires
        0 <= code < 4096,
    ensures
        lattice::is_named(3, code),
        lattice::is_ascending(CARDINALITY_OFFSET_TABLE_I3@),
        CARDINALITY_OFFSET_TABLE_I3[0] == 0,
{
    reveal_with_fuel(lattice::bucket, 10);
    let offsets = CARDINALITY_OFFSET_TABLE_I3@;
    assert(offsets[0] == 0);
    assert(offsets[1] == 128);
    assert(offsets[2] == 240);
    assert(offsets[3] == 256);
    assert(offsets[4] == 1376);
    assert(offsets[5] == 2400);
    assert(offsets[6] == 3744);
    assert(offsets[7] == 3856);
    assert(offsets[8] == 4080);
    assert forall|i: int| 0 <= i < 8 implies #[trigger] offsets[i] <= offsets[i + 1] by {
        if i == 0 {
        } else if i == 1 {
        } else if i == 2 {
        } else if i == 3 {
        } else if i == 4 {
        } else if i == 5 {
        } else if i == 6 {
        } else if i == 7 {
        }
    }
    lattice::lemma_ascending(offsets);
    if code < 128 {
        assert(lattice::leader_class(3, code) == 0);
        lemma_three_0(code, lattice::sign_leader(0, code));
    } else if code < 240 {
        assert(lattice::leader_class(3, code) == 1);
        lemma_three_1(code, lattice::sign_leader(1, code));
    } else if code < 256 {
        assert(lattice::leader_class(3, code) == 4);
        lemma_three_2(code, lattice::sign_leader(4, code));
    } else if code < 1376 {
        assert(lattice::leader_class(3, code) == 2);
        lemma_three_3(code, lattice::sign_leader(2, code));
    } else if code < 2400 {
        assert(lattice::leader_class(3, code) == 3);
        lemma_three_4(code, lattice::sign_leader(3, code));
    } else if code < 3744 {
        assert(lattice::leader_class(3, code) == 7);
        lemma_three_5(code, lattice::sign_leader(7, code));
    } else if code < 3856 {
        assert(lattice::leader_class(3, code) == 11);
        lemma_three_6(code, lattice::sign_leader(11, code));
    } else if code < 4080 {
        assert(lattice::leader_class(3, code) == 17);
        lemma_three_7(code, lattice::sign_leader(17, code));
    } else {
        assert(lattice::leader_class(3, code) == 22);
        lemma_three_8(code, lattice::sign_leader(22, code));
    }
}

/// Every code index below the limit names a permutation of a template.
pub(crate) proof fn lemma_four(code: int)
    requires
        0 <= code < 65536,
    ensures
        lattice::is_named(4, code),
        lattice::is_ascending(CARDINALITY_OFFSET_TAB_I4@),
        CARDINALITY_OFFSET_TAB_I4[0] == 0,
{
    reveal_with_fuel(lattice::bucket, 29);
    let offsets = CARDINALITY_OFFSET_TAB_I4@;
    assert(offsets[0] == 0);
    assert(offsets[1] == 1792);
    assert(offsets[2] == 5376);
    assert(offsets[3] == 5632);
    assert(offsets[4] == 12800);
    assert(offsets[5] == 21760);
    assert(offsets[6] == 22784);
    assert(offsets[7] == 31744);
    assert(offsets[8] == 38912);
    assert(offsets[9] == 45632);
    assert(offsets[10] == 52800);
    assert(offsets[11] == 53248);
    assert(offsets[12] == 57728);
    assert(offsets[13] == 60416);
    assert(offsets[14] == 61440);
    assert(offsets[15] == 61552);
    assert(offsets[16] == 62896);
    assert(offsets[17] == 63120);
    assert(offsets[18] == 64144);
    assert(offsets[19] == 64368);
    assert(offsets[20] == 64480);
    assert(offsets[21] == 64704);
    assert(offsets[22] == 64720);
    assert(offsets[23] == 64944);
    assert(offsets[24] == 65056);
    assert(offsets[25] == 65280);
    assert(offsets[26] == 65504);
    assert(offsets[27] == 65520);
    assert forall|i: int| 0 <= i < 27 implies #[trigger] offsets[i] <= offsets[i + 1] by {
        if i == 0 {
        } else if i == 1 {
        } else if i == 2 {
        } else if i == 3 {
        } else if i == 4 {
        } else if i == 5 {
        } else if i == 6 {
        } else if i == 7 {
        } else if i == 8 {
        } else if i == 9 {
        } else if i == 10 {
        } else if i == 11 {
        } else if i == 12 {
        } else if i == 13 {
        } else if i == 14 {
        } else if i == 15 {
        } else if i == 16 {
        } else if i == 17 {
        } else if i == 18 {
        } else if i == 19 {
        } else if i == 20 {
        } else if i == 21 {
        } else if i == 22 {
        } else if i == 23 {
        } else if i == 24 {
        } else if i == 25 {
        } else if i == 26 {
        }
    }
    lattice::lemma_ascending(offsets);
    if code < 1792 {
        assert(lattice::leader_class(4, code) == 5);
        lemma_four_0(code, lattice::sign_leader(5, code));
    } else if code < 5376 {
        assert(lattice::leader_class(4, code) == 6);
        lemma_four_1(code, lattice::sign_leader(6, code));
    } else if code < 5632 {
        assert(lattice::leader_class(4, code) == 8);
        lemma_four_2(code, lattice::sign_leader(8, code));
    } else if code < 12800 {
        assert(lattice::leader_class(4, code) == 9);
        lemma_four_3(code, lattice::sign_leader(9, code));
    } else if code < 21760 {
        assert(lattice::leader_class(4, code) == 10);
        lemma_four_4(code, lattice::sign_leader(10, code));
    } else if code < 22784 {
        assert(lattice::leader_class(4, code) == 12);
        lemma_four_5(code, lattice::sign_leader(12, code));
    } else if code < 31744 {
        assert(lattice::leader_class(4, code) == 13);
        lemma_four_6(code, lattice::sign_leader(13, code));
    } else if code < 38912 {
        assert(lattice::leader_class(4, code) == 14);
        lemma_four_7(code, lattice::sign_leader(14, code));
    } else if code < 45632 {
        assert(lattice::leader_class(4, code) == 15);
        lemma_four_8(code, lattice::sign_leader(15, code));
    } else if code < 52800 {
        assert(lattice::leader_class(4, code) == 16);
        lemma_four_9(code, lattice::sign_leader(16, code));
    } else if code < 53248 {
        assert(lattice::leader_class(4, code) == 18);
        lemma_four_10(code, lattice::sign_leader(18, code));
    } else if code < 57728 {
        assert(lattice::leader_class(4, code) == 19);
        lemma_four_11(code, lattice::sign_leader(19, code));
    } else if code < 60416 {
        assert(lattice::leader_class(4, code) == 20);
        lemma_four_12(code, lattice::sign_leader(20, code));
    } else if code < 61440 {
        assert(lattice::leader_class(4, code) == 21);
        lemma_four_13(code, lattice::sign_leader(21, code));
    } else if code < 61552 {
        assert(lattice::leader_class(4, code) == 23);
        lemma_four_14(code, lattice::sign_leader(23, code));
    } else if code < 62896 {
        assert(lattice::leader_class(4, code) == 24);
        lemma_four_15(code, lattice::sign_leader(24, code));
    } else if code < 63120 {
        assert(lattice::leader_class(4, code) == 25);
        lemma_four_16(code, lattice::sign_leader(25, code));
    } else if code < 64144 {
        assert(lattice::leader_class(4, code) == 26);
        lemma_four_17(code, lattice::sign_leader(26, code));
    } else if code < 64368 {
        assert(lattice::leader_class(4, code) == 27);
        lemma_four_18(code, lattice::sign_leader(27, code));
    } else if code < 64480 {
        assert(lattice::leader_class(4, code) == 28);
        lemma_four_19(code, lattice::sign_leader(28, code));
    } else if code < 64704 {
        assert(lattice::leader_class(4, code) == 29);
        lemma_four_20(code, lattice::sign_leader(29, code));
    } else if code < 64720 {
        assert(lattice::leader_class(4, code) == 30);
        lemma_four_21(code, lattice::sign_leader(30, code));
    } else if code < 64944 {
        assert(lattice::leader_class(4, code) == 31);
        lemma_four_22(code, lattice::sign_leader(31, code));
    } else if code < 65056 {
        assert(lattice::leader_class(4, code) == 32);
        lemma_four_23(code, lattice::sign_leader(32, code));
    } else if code < 65280 {
        assert(lattice::leader_class(4, code) == 33);
        lemma_four_24(code, lattice::sign_leader(33, code));
    } else if code < 65504 {
        assert(lattice::leader_class(4, code) == 34);
        lemma_four_25(code, lattice::sign_leader(34, code));
    } else if code < 65520 {
        assert(lattice::leader_class(4, code) == 35);
        lemma_four_26(code, lattice::sign_leader(35, code));
    } else {
        assert(lattice::leader_class(4, code) == 36);
        lemma_four_27(code, lattice::sign_leader(36, code));
    }
}

} // verus!
