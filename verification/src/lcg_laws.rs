//! The period of the generator.
//!
//! The powers of the multiplier modulo the modulus first come back to 1 at the
//! exponent 2^31 - 2 = 2 * 3 * 3 * 7 * 11 * 31 * 151 * 331. They do so there,
//! and at none of the exponents that leave one prime factor out. As the
//! exponents that give 1 are the multiples of the least of them, that one is
//! 2^31 - 2 itself. So the powers run through all residues but 0, and every
//! seed is one of them.

use vstd::prelude::*;
use vstd::arithmetic::div_mod::{
    lemma_fundamental_div_mod, lemma_mod_multiples_basic, lemma_mod_multiples_vanish,
    lemma_mul_mod_noop_left, lemma_mul_mod_noop_right, lemma_small_mod,
};
use vstd::arithmetic::mul::{lemma_mul_is_associative, lemma_mul_is_commutative};
use vstd::set_lib::{
    lemma_int_range, lemma_map_size, lemma_subset_equality, set_int_range,
};
use crate::lcg;
use crate::lcg::MODULUS;

verus! {

/// `b` to the power `n`, modulo the modulus.
#[verifier::opaque]
pub open spec fn power(b: int, n: nat) -> int
    decreases n,
{
    if n == 0 {
        1
    } else {
        (b * power(b, (n - 1) as nat)) % (MODULUS as int)
    }
}

proof fn lemma_power_range(b: int, n: nat)
    ensures
        0 <= power(b, n) < MODULUS,
{
    reveal(power);
}

proof fn lemma_power_one(b: int)
    requires
        0 <= b < MODULUS,
    ensures
        power(b, 1) == b,
{
    reveal_with_fuel(power, 2);
}

/// Factors that are taken modulo the modulus may as well be taken whole.
proof fn lemma_reduce(x: int, y: int)
    ensures
        (x * (y % (MODULUS as int))) % (MODULUS as int) == (x * y) % (MODULUS as int),
        ((x % (MODULUS as int)) * y) % (MODULUS as int) == (x * y) % (MODULUS as int),
{
    lemma_mul_mod_noop_right(x, y, MODULUS as int);
    lemma_mul_mod_noop_left(x, y, MODULUS as int);
}

proof fn lemma_power_sum(b: int, m: nat, n: nat)
    ensures
        power(b, m + n) == (power(b, m) * power(b, n)) % (MODULUS as int),
    decreases n,
{
    reveal(power);
    lemma_power_range(b, m);
    if n == 0 {
        lemma_small_mod(power(b, m) as nat, MODULUS as nat);
    } else {
        let k = (n - 1) as nat;
        let x = power(b, m);
        let y = power(b, k);
        lemma_power_sum(b, m, k);
        assert(power(b, m + n) == (b * power(b, m + k)) % (MODULUS as int));
        lemma_reduce(b, x * y);
        lemma_reduce(x, b * y);
        assert(b * (x * y) == x * (b * y)) by (nonlinear_arith);
    }
}

proof fn lemma_power_of_power(b: int, m: nat, n: nat)
    ensures
        power(power(b, m), n) == power(b, m * n),
    decreases n,
{
    reveal(power);
    if n == 0 {
        assert(m * n == 0) by (nonlinear_arith)
            requires
                n == 0,
        ;
    } else {
        let k = (n - 1) as nat;
        lemma_power_of_power(b, m, k);
        lemma_power_sum(b, m, m * k);
        assert(m + m * k == m * n) by (nonlinear_arith)
            requires
                n == k + 1,
        ;
    }
}

/// Squaring doubles the exponent. `q` and `s` are quotient and remainder.
proof fn lemma_square(b: int, n: nat, r: int, q: int, s: int)
    requires
        power(b, n) == r,
        r * r == q * 0x7fff_ffff + s,
        0 <= s < 0x7fff_ffff,
    ensures
        power(b, 2 * n) == s,
{
    lemma_power_sum(b, n, n);
}

/// Multiplying once more adds one to the exponent.
proof fn lemma_times(b: int, n: nat, r: int, q: int, s: int)
    requires
        power(b, n) == r,
        b * r == q * 0x7fff_ffff + s,
        0 <= s < 0x7fff_ffff,
    ensures
        power(b, n + 1) == s,
{
    reveal(power);
}

/// The power with exponent 31 * 151 * 331.
proof fn lemma_power_y()
    ensures
        power(48271, 1549411) == 73136486,
{
    lemma_power_one(48271);
    lemma_square(48271, 1, 48271, 1, 182605794);
    lemma_square(48271, 2, 182605794, 15527417, 1914720637);
    lemma_times(48271, 4, 1914720637, 43038, 2078669041);
    lemma_square(48271, 5, 2078669041, 2012059550, 1596680831);
    lemma_times(48271, 10, 1596680831, 35890, 192302371);
    lemma_square(48271, 11, 192302371, 17220248, 914937185);
    lemma_times(48271, 22, 914937185, 20565, 1931656580);
    lemma_square(48271, 23, 1931656580, 1737520631, 1659675143);
    lemma_times(48271, 46, 1659675143, 37306, 153892771);
    lemma_square(48271, 47, 153892771, 11028249, 583514338);
    lemma_square(48271, 94, 583514338, 158552538, 106232158);
    lemma_times(48271, 188, 106232158, 2387, 1889033429);
    lemma_square(48271, 189, 1889033429, 1661687762, 564470027);
    lemma_square(48271, 378, 564470027, 148371984, 2068435081);
    lemma_square(48271, 756, 2068435081, 1992296281, 885059754);
    lemma_times(48271, 1512, 885059754, 19894, 679711916);
    lemma_square(48271, 1513, 679711916, 215139374, 1261574078);
    lemma_square(48271, 3026, 1261574078, 741132141, 1217951857);
    lemma_square(48271, 6052, 1217951857, 690765085, 2013683454);
    lemma_square(48271, 12104, 2013683454, 1888219758, 666072690);
    lemma_times(48271, 24208, 666072690, 14971, 2017139753);
    lemma_square(48271, 24209, 2017139753, 1894707225, 1592651434);
    lemma_times(48271, 48418, 1592651434, 35799, 1110291661);
    lemma_square(48271, 48419, 1110291661, 574042821, 1710890734);
    lemma_square(48271, 96838, 1710890734, 1363059089, 164841173);
    lemma_square(48271, 193676, 164841173, 12653233, 1366835178);
    lemma_square(48271, 387352, 1366835178, 869966300, 1127195584);
    lemma_times(48271, 774704, 1127195584, 25337, 64871225);
    lemma_square(48271, 774705, 64871225, 1959631, 306346368);
    lemma_times(48271, 1549410, 306346368, 6886, 73136486);
}

/// The power with exponent 2 * 3 * 3 * 7 * 11.
proof fn lemma_power_z()
    ensures
        power(48271, 1386) == 739992498,
{
    lemma_power_one(48271);
    lemma_square(48271, 1, 48271, 1, 182605794);
    lemma_square(48271, 2, 182605794, 15527417, 1914720637);
    lemma_times(48271, 4, 1914720637, 43038, 2078669041);
    lemma_square(48271, 5, 2078669041, 2012059550, 1596680831);
    lemma_square(48271, 10, 1596680831, 1187152078, 2075782095);
    lemma_times(48271, 20, 2075782095, 46659, 638022372);
    lemma_square(48271, 21, 638022372, 189557926, 928270262);
    lemma_times(48271, 42, 928270262, 20865, 1287522347);
    lemma_square(48271, 43, 1287522347, 771933139, 1444510476);
    lemma_square(48271, 86, 1444510476, 971653739, 224840443);
    lemma_times(48271, 172, 224840443, 5053, 2038155762);
    lemma_square(48271, 173, 2038155762, 1934393733, 1697016393);
    lemma_square(48271, 346, 1697016393, 1341041475, 599471124);
    lemma_times(48271, 692, 599471124, 13474, 1875966926);
    lemma_square(48271, 693, 1875966926, 1638779374, 739992498);
}

/// The power with exponent (2^31 - 2) / (2 * 3 * 3).
proof fn lemma_power_y_77()
    ensures
        power(73136486, 77) == 1074490442,
{
    lemma_power_one(73136486);
    lemma_square(73136486, 1, 73136486, 2490796, 1906415184);
    lemma_square(73136486, 2, 1906415184, 1692408162, 1841427042);
    lemma_square(73136486, 4, 1841427042, 1578989230, 794747954);
    lemma_times(73136486, 8, 794747954, 27066596, 321294032);
    lemma_square(73136486, 9, 321294032, 48070147, 407430915);
    lemma_times(73136486, 18, 407430915, 13875805, 1084403855);
    lemma_square(73136486, 19, 1084403855, 547585879, 258240312);
    lemma_square(73136486, 38, 258240312, 31054047, 636187935);
    lemma_times(73136486, 76, 636187935, 21666544, 1074490442);
}

/// The power with exponent (2^31 - 2) / (7 * 11).
proof fn lemma_power_y_18()
    ensures
        power(73136486, 18) == 407430915,
{
    lemma_power_one(73136486);
    lemma_square(73136486, 1, 73136486, 2490796, 1906415184);
    lemma_square(73136486, 2, 1906415184, 1692408162, 1841427042);
    lemma_square(73136486, 4, 1841427042, 1578989230, 794747954);
    lemma_times(73136486, 8, 794747954, 27066596, 321294032);
    lemma_square(73136486, 9, 321294032, 48070147, 407430915);
}

/// The power with exponent (2^31 - 2) / (151 * 331).
proof fn lemma_power_z_31()
    ensures
        power(739992498, 31) == 1377541393,
{
    lemma_power_one(739992498);
    lemma_square(739992498, 1, 739992498, 254990950, 1838285354);
    lemma_times(739992498, 2, 1838285354, 633447138, 1049322006);
    lemma_square(739992498, 3, 1049322006, 512728780, 1879603376);
    lemma_times(739992498, 6, 1879603376, 647684744, 1304091880);
    lemma_square(739992498, 7, 1304091880, 791929490, 2129884370);
    lemma_times(739992498, 14, 2129884370, 733928036, 22628968);
    lemma_square(739992498, 15, 22628968, 238451, 569634227);
    lemma_times(739992498, 30, 569634227, 196287899, 1377541393);
}

/// The power with exponent (2^31 - 2) / 2.
proof fn lemma_power_over_2()
    ensures
        power(1074490442, 9) == 2147483646,
{
    lemma_power_one(1074490442);
    lemma_square(1074490442, 1, 1074490442, 537619791, 473297587);
    lemma_square(1074490442, 2, 473297587, 104313067, 309107220);
    lemma_square(1074490442, 4, 309107220, 44492666, 809695498);
    lemma_times(1074490442, 8, 809695498, 405130010, 2147483646);
}

/// The power with exponent (2^31 - 2) / 3.
proof fn lemma_power_over_3()
    ensures
        power(1074490442, 6) == 634005911,
{
    lemma_power_one(1074490442);
    lemma_square(1074490442, 1, 1074490442, 537619791, 473297587);
    lemma_times(1074490442, 2, 473297587, 236813786, 634005912);
    lemma_square(1074490442, 3, 634005912, 187178839, 634005911);
}

/// The power with exponent (2^31 - 2) / 7.
proof fn lemma_power_over_7()
    ensures
        power(407430915, 11) == 1752599774,
{
    lemma_power_one(407430915);
    lemma_square(407430915, 1, 407430915, 77299750, 1455548975);
    lemma_square(407430915, 2, 1455548975, 986560629, 1072016662);
    lemma_times(407430915, 4, 1072016662, 203388151, 1227839033);
    lemma_square(407430915, 5, 1227839033, 702025690, 1909483659);
    lemma_times(407430915, 10, 1909483659, 362276413, 1752599774);
}

/// The power with exponent (2^31 - 2) / 11.
proof fn lemma_power_over_11()
    ensures
        power(407430915, 7) == 219454379,
{
    lemma_power_one(407430915);
    lemma_square(407430915, 1, 407430915, 77299750, 1455548975);
    lemma_times(407430915, 2, 1455548975, 276153744, 1413737757);
    lemma_square(407430915, 3, 1413737757, 930696002, 944111755);
    lemma_times(407430915, 6, 944111755, 179121418, 219454379);
}

/// The power with exponent (2^31 - 2) / 31.
proof fn lemma_power_over_31()
    ensures
        power(739992498, 49981) == 64,
{
    lemma_power_one(739992498);
    lemma_square(739992498, 1, 739992498, 254990950, 1838285354);
    lemma_times(739992498, 2, 1838285354, 633447138, 1049322006);
    lemma_square(739992498, 3, 1049322006, 512728780, 1879603376);
    lemma_square(739992498, 6, 1879603376, 1645138884, 636767428);
    lemma_square(739992498, 12, 636767428, 188812966, 535168182);
    lemma_square(739992498, 24, 535168182, 133367713, 319895813);
    lemma_square(739992498, 48, 319895813, 47652670, 1614043479);
    lemma_times(739992498, 96, 1614043479, 556176559, 608589869);
    lemma_square(739992498, 97, 608589869, 172472386, 155365419);
    lemma_times(739992498, 194, 155365419, 53536726, 909706940);
    lemma_square(739992498, 195, 909706940, 385365782, 1725796646);
    lemma_square(739992498, 390, 1725796646, 1386913501, 143831169);
    lemma_square(739992498, 780, 143831169, 9633323, 1567137580);
    lemma_times(739992498, 1560, 1567137580, 540013449, 1646306337);
    lemma_square(739992498, 1561, 1646306337, 1262093222, 11816935);
    lemma_times(739992498, 3122, 11816935, 4071948, 1507919274);
    lemma_square(739992498, 3123, 1507919274, 1058830198, 1745914970);
    lemma_times(739992498, 6246, 1745914970, 601617610, 723671390);
    lemma_square(739992498, 6247, 723671390, 243866946, 2125700038);
    lemma_times(739992498, 12494, 2125700038, 732486174, 799718346);
    lemma_square(739992498, 12495, 799718346, 297813412, 801702152);
    lemma_square(739992498, 24990, 801702152, 299292775, 543680679);
    lemma_times(739992498, 49980, 543680679, 187344674, 64);
}

/// The power with exponent (2^31 - 2) / 151.
proof fn lemma_power_over_151()
    ensures
        power(1377541393, 331) == 556613938,
{
    lemma_power_one(1377541393);
    lemma_square(1377541393, 1, 1377541393, 883648307, 446644820);
    lemma_square(1377541393, 2, 446644820, 92895513, 185656489);
    lemma_times(1377541393, 4, 185656489, 119092640, 1598491097);
    lemma_square(1377541393, 5, 1598491097, 1189845515, 1269470204);
    lemma_square(1377541393, 10, 1269470204, 750438589, 888547533);
    lemma_square(1377541393, 20, 888547533, 367647371, 1315344052);
    lemma_times(1377541393, 40, 1315344052, 843750722, 26901302);
    lemma_square(1377541393, 41, 26901302, 336989, 1682576321);
    lemma_square(1377541393, 82, 1682576321, 1318316477, 61743422);
    lemma_times(1377541393, 164, 61743422, 39606410, 1759089576);
    lemma_square(1377541393, 165, 1759089576, 1440940488, 2111660040);
    lemma_times(1377541393, 330, 2111660040, 1354561706, 556613938);
}

/// The power with exponent (2^31 - 2) / 331.
proof fn lemma_power_over_331()
    ensures
        power(1377541393, 151) == 1627574666,
{
    lemma_power_one(1377541393);
    lemma_square(1377541393, 1, 1377541393, 883648307, 446644820);
    lemma_square(1377541393, 2, 446644820, 92895513, 185656489);
    lemma_square(1377541393, 4, 185656489, 16050567, 1750229272);
    lemma_times(1377541393, 8, 1750229272, 1122715543, 595030575);
    lemma_square(1377541393, 9, 595030575, 164872680, 1047766665);
    lemma_square(1377541393, 18, 1047766665, 511209939, 98854692);
    lemma_times(1377541393, 36, 98854692, 63412091, 1677690079);
    lemma_square(1377541393, 37, 1677690079, 1310670749, 1096284638);
    lemma_times(1377541393, 74, 1096284638, 703231183, 1802056333);
    lemma_square(1377541393, 75, 1802056333, 1512191737, 969382050);
    lemma_times(1377541393, 150, 969382050, 621827272, 1627574666);
}

/// The powers of the multiplier at 2^31 - 2 and at 2^31 - 2 without one of its
/// prime factors.
proof fn lemma_powers()
    ensures
        power(48271, 2147483646) == 1,
        power(48271, 1073741823) != 1,
        power(48271, 715827882) != 1,
        power(48271, 306783378) != 1,
        power(48271, 195225786) != 1,
        power(48271, 69273666) != 1,
        power(48271, 14221746) != 1,
        power(48271, 6487866) != 1,
{
    lemma_power_y();
    lemma_power_z();
    lemma_power_y_77();
    lemma_power_y_18();
    lemma_power_z_31();
    lemma_power_over_2();
    lemma_power_over_3();
    lemma_power_over_7();
    lemma_power_over_11();
    lemma_power_over_31();
    lemma_power_over_151();
    lemma_power_over_331();
    lemma_power_of_power(48271, 1549411, 77);
    lemma_power_of_power(48271, 1549411, 18);
    lemma_power_of_power(48271, 1386, 31);
    lemma_power_of_power(48271, 119304647, 9);
    lemma_power_of_power(48271, 119304647, 6);
    lemma_power_of_power(48271, 27889398, 11);
    lemma_power_of_power(48271, 27889398, 7);
    lemma_power_of_power(48271, 1386, 49981);
    lemma_power_of_power(48271, 42966, 331);
    lemma_power_of_power(48271, 42966, 151);
    lemma_square(48271, 1073741823, 2147483646, 2147483645, 1);
}

/// `r` divides `q`.
spec fn divides(r: int, q: int) -> bool {
    q % r == 0
}

/// `q` is a prime number.
spec fn prime(q: int) -> bool {
    1 < q && forall|r: int| 1 < r < q ==> !#[trigger] divides(r, q)
}

/// What `c` does not divide, nothing equal to `c` divides.
proof fn lemma_not_a_factor(q: int, c: int, s: int)
    requires
        q % c != 0,
    ensures
        s == c ==> q % s != 0,
{
}

proof fn lemma_no_factor_of_7(s: int)
    requires
        1 < s <= 2,
    ensures
        7int % s != 0,
{
    lemma_not_a_factor(7, 2, s);
}

proof fn lemma_no_factor_of_11(s: int)
    requires
        1 < s <= 3,
    ensures
        11int % s != 0,
{
    lemma_not_a_factor(11, 2, s);
    lemma_not_a_factor(11, 3, s);
}

proof fn lemma_no_factor_of_31(s: int)
    requires
        1 < s <= 5,
    ensures
        31int % s != 0,
{
    lemma_not_a_factor(31, 2, s);
    lemma_not_a_factor(31, 3, s);
    lemma_not_a_factor(31, 4, s);
    lemma_not_a_factor(31, 5, s);
}

proof fn lemma_no_factor_of_151(s: int)
    requires
        1 < s <= 12,
    ensures
        151int % s != 0,
{
    lemma_not_a_factor(151, 2, s);
    lemma_not_a_factor(151, 3, s);
    lemma_not_a_factor(151, 4, s);
    lemma_not_a_factor(151, 5, s);
    lemma_not_a_factor(151, 6, s);
    lemma_not_a_factor(151, 7, s);
    lemma_not_a_factor(151, 8, s);
    lemma_not_a_factor(151, 9, s);
    lemma_not_a_factor(151, 10, s);
    lemma_not_a_factor(151, 11, s);
    lemma_not_a_factor(151, 12, s);
}

proof fn lemma_no_factor_of_331(s: int)
    requires
        1 < s <= 18,
    ensures
        331int % s != 0,
{
    lemma_not_a_factor(331, 2, s);
    lemma_not_a_factor(331, 3, s);
    lemma_not_a_factor(331, 4, s);
    lemma_not_a_factor(331, 5, s);
    lemma_not_a_factor(331, 6, s);
    lemma_not_a_factor(331, 7, s);
    lemma_not_a_factor(331, 8, s);
    lemma_not_a_factor(331, 9, s);
    lemma_not_a_factor(331, 10, s);
    lemma_not_a_factor(331, 11, s);
    lemma_not_a_factor(331, 12, s);
    lemma_not_a_factor(331, 13, s);
    lemma_not_a_factor(331, 14, s);
    lemma_not_a_factor(331, 15, s);
    lemma_not_a_factor(331, 16, s);
    lemma_not_a_factor(331, 17, s);
    lemma_not_a_factor(331, 18, s);
}

/// A number without a divisor from 2 up to its root is prime.
proof fn lemma_prime_by_trial(q: int, root: int)
    requires
        1 < q < (root + 1) * (root + 1),
        0 < root,
        forall|s: int| 1 < s <= root ==> !#[trigger] divides(s, q),
    ensures
        prime(q),
{
    assert forall|r: int| 1 < r < q implies !#[trigger] divides(r, q) by {
        if divides(r, q) {
            let m = q / r;
            lemma_fundamental_div_mod(q, r);
            assert(q == r * m);
            assert(1 < m) by (nonlinear_arith)
                requires
                    q == r * m,
                    1 < r < q,
            ;
            assert(r <= root || m <= root) by (nonlinear_arith)
                requires
                    q == r * m,
                    q < (root + 1) * (root + 1),
                    1 < r,
                    1 < m,
                    0 < root,
            ;
            lemma_mod_multiples_basic(r, m);
            assert(divides(m, q));
        }
    }
}

proof fn lemma_primes()
    ensures
        prime(2),
        prime(3),
        prime(7),
        prime(11),
        prime(31),
        prime(151),
        prime(331),
{
    lemma_prime_by_trial(2, 1);
    lemma_prime_by_trial(3, 1);
    assert forall|s: int| 1 < s <= 2 implies !#[trigger] divides(s, 7) by {
        lemma_no_factor_of_7(s);
    }
    lemma_prime_by_trial(7, 2);
    assert forall|s: int| 1 < s <= 3 implies !#[trigger] divides(s, 11) by {
        lemma_no_factor_of_11(s);
    }
    lemma_prime_by_trial(11, 3);
    assert forall|s: int| 1 < s <= 5 implies !#[trigger] divides(s, 31) by {
        lemma_no_factor_of_31(s);
    }
    lemma_prime_by_trial(31, 5);
    assert forall|s: int| 1 < s <= 12 implies !#[trigger] divides(s, 151) by {
        lemma_no_factor_of_151(s);
    }
    lemma_prime_by_trial(151, 12);
    assert forall|s: int| 1 < s <= 18 implies !#[trigger] divides(s, 331) by {
        lemma_no_factor_of_331(s);
    }
    lemma_prime_by_trial(331, 18);
}

/// A prime that divides a product of a number below it divides the other factor.
proof fn lemma_prime_divides_small(q: int, r: int, d: int)
    requires
        prime(q),
        0 < r < q,
        (r * d) % q == 0,
    ensures
        d % q == 0,
    decreases r,
{
    if r == 1 {
        assert(r * d == d) by (nonlinear_arith)
            requires
                r == 1,
        ;
    } else {
        let m = q / r;
        let rest = q % r;
        lemma_fundamental_div_mod(q, r);
        assert(!divides(r, q));
        let u = (r * d) / q;
        lemma_fundamental_div_mod(r * d, q);
        assert(rest * d == (d - m * u) * q) by (nonlinear_arith)
            requires
                q == r * m + rest,
                r * d == q * u,
        ;
        lemma_mod_multiples_basic(d - m * u, q);
        lemma_prime_divides_small(q, rest, d);
    }
}

/// A prime factor of a product `c * d` that is none of `c` can be taken from `d`.
proof fn lemma_strip(q: int, c: int, d: int, n: int) -> (e: int)
    requires
        prime(q),
        c % q != 0,
        c * d == q * n,
    ensures
        d == q * e,
        c * e == n,
{
    let r = c % q;
    let u = c / q;
    lemma_fundamental_div_mod(c, q);
    assert(r * d == (n - u * d) * q) by (nonlinear_arith)
        requires
            c == q * u + r,
            c * d == q * n,
    ;
    lemma_mod_multiples_basic(n - u * d, q);
    lemma_prime_divides_small(q, r, d);
    let e = d / q;
    lemma_fundamental_div_mod(d, q);
    assert(c * e == n) by (nonlinear_arith)
        requires
            c * d == q * n,
            d == q * e,
            q > 1,
    ;
    e
}

/// A divisor of 2^31 - 2 other than 1 has one of its prime factors.
proof fn lemma_divisor_has_a_prime(c: int, d: int)
    requires
        1 < c,
        c * d == 2147483646,
    ensures
        c % 2 == 0 || c % 3 == 0 || c % 7 == 0 || c % 11 == 0 || c % 31 == 0 || c % 151 == 0 || c
            % 331 == 0,
{
    lemma_primes();
    if !(c % 2 == 0 || c % 3 == 0 || c % 7 == 0 || c % 11 == 0 || c % 31 == 0 || c % 151 == 0 || c
        % 331 == 0) {
        let e = lemma_strip(2, c, d, 1073741823);
        let e = lemma_strip(3, c, e, 357913941);
        let e = lemma_strip(3, c, e, 119304647);
        let e = lemma_strip(7, c, e, 17043521);
        let e = lemma_strip(11, c, e, 1549411);
        let e = lemma_strip(31, c, e, 49981);
        let e = lemma_strip(151, c, e, 331);
        let e = lemma_strip(331, c, e, 1);
        assert(false) by (nonlinear_arith)
            requires
                c * e == 1,
                1 < c,
        ;
    }
}

proof fn lemma_power_of_one(n: nat)
    ensures
        power(1, n) == 1,
    decreases n,
{
    reveal(power);
    if n > 0 {
        lemma_power_of_one((n - 1) as nat);
    }
}

/// A multiple of an exponent that gives 1 gives 1.
proof fn lemma_multiple_gives_one(n: nat, m: nat)
    requires
        power(48271, n) == 1,
    ensures
        power(48271, n * m) == 1,
{
    lemma_power_of_power(48271, n, m);
    lemma_power_of_one(m);
}

/// The remainder of two exponents that give 1 gives 1.
proof fn lemma_remainder_gives_one(x: nat, y: nat)
    requires
        y > 0,
        power(48271, x) == 1,
        power(48271, y) == 1,
    ensures
        power(48271, x % y) == 1,
{
    lemma_fundamental_div_mod(x as int, y as int);
    lemma_multiple_gives_one(y, x / y);
    lemma_power_sum(48271, y * (x / y), x % y);
    lemma_power_range(48271, x % y);
    lemma_small_mod(power(48271, x % y) as nat, MODULUS as nat);
}

/// Two exponents that give 1 have a common divisor that does.
proof fn lemma_common_divisor(x: nat, y: nat) -> (g: nat)
    requires
        x > 0,
        power(48271, x) == 1,
        power(48271, y) == 1,
    ensures
        0 < g <= x,
        x % g == 0,
        y % g == 0,
        power(48271, g) == 1,
    decreases y,
{
    if y == 0 {
        vstd::arithmetic::div_mod::lemma_mod_self_0(x as int);
        lemma_small_mod(0, x);
        x
    } else {
        lemma_remainder_gives_one(x, y);
        let g = lemma_common_divisor(y, x % y);
        let q = x / y;
        let u = y / g;
        let v = (x % y) / g;
        lemma_fundamental_div_mod(x as int, y as int);
        lemma_fundamental_div_mod(y as int, g as int);
        lemma_fundamental_div_mod((x % y) as int, g as int);
        assert(x == (u * q + v) * g) by (nonlinear_arith)
            requires
                x == y * q + x % y,
                y == g * u,
                x % y == g * v,
        ;
        lemma_mod_multiples_basic((u * q + v) as int, g as int);
        assert(g <= x) by (nonlinear_arith)
            requires
                x == (u * q + v) * g,
                x > 0,
                g > 0,
        ;
        g
    }
}

/// No exponent below 2^31 - 2 but 0 gives 1.
proof fn lemma_order(k: nat)
    requires
        0 < k < 2147483646,
    ensures
        power(48271, k) != 1,
{
    if power(48271, k) == 1 {
        lemma_powers();
        let g = lemma_common_divisor(k, 2147483646);
        let c = 2147483646nat / g;
        lemma_fundamental_div_mod(2147483646, g as int);
        assert(1 < c) by (nonlinear_arith)
            requires
                g * c == 2147483646,
                0 < g < 2147483646,
        ;
        lemma_mul_is_commutative(g as int, c as int);
        lemma_divisor_has_a_prime(c as int, g as int);
        lemma_leave_out(g, c, 2, 1073741823);
        lemma_leave_out(g, c, 3, 715827882);
        lemma_leave_out(g, c, 7, 306783378);
        lemma_leave_out(g, c, 11, 195225786);
        lemma_leave_out(g, c, 31, 69273666);
        lemma_leave_out(g, c, 151, 14221746);
        lemma_leave_out(g, c, 331, 6487866);
    }
}

/// If `q` divides what `g` lacks to `q * n`, then `g` divides `n`, and with
/// `g` also `n` gives 1.
proof fn lemma_leave_out(g: nat, c: nat, q: nat, n: nat)
    requires
        q > 0,
        g * c == q * n,
        power(48271, g) == 1,
    ensures
        c % q == 0 ==> power(48271, n) == 1,
{
    if c % q == 0 {
        let m = c / q;
        lemma_fundamental_div_mod(c as int, q as int);
        assert(g * m == n) by (nonlinear_arith)
            requires
                g * c == q * n,
                c == q * m,
                q > 0,
        ;
        lemma_multiple_gives_one(g, m);
    }
}

/// The product of the multiplier and its inverse drops out.
proof fn lemma_inverse(x: int, y: int)
    ensures
        ((1899818559 * x) * (48271 * y)) % (MODULUS as int) == (x * y) % (MODULUS as int),
{
    let z = x * y;
    assert((1899818559 * x) * (48271 * y) == 1899818559 * (48271 * z)) by (nonlinear_arith)
        requires
            z == x * y,
    ;
    lemma_mod_multiples_vanish(42704 * z, z, MODULUS as int);
}

/// Powers of the multiplier are undone by powers of its inverse.
proof fn lemma_power_undone(i: nat)
    ensures
        (power(1899818559, i) * power(48271, i)) % (MODULUS as int) == 1,
    decreases i,
{
    reveal(power);
    if i > 0 {
        let k = (i - 1) as nat;
        let x = power(1899818559, k);
        let y = power(48271, k);
        lemma_power_undone(k);
        lemma_reduce(1899818559 * x, 48271 * y);
        lemma_reduce(power(1899818559, i), 48271 * y);
        lemma_inverse(x, y);
    }
}

/// A factor that leaves a power of the multiplier as it is, is 1.
proof fn lemma_cancel(i: nat, u: int)
    requires
        0 <= u < MODULUS,
        (power(48271, i) * u) % (MODULUS as int) == power(48271, i),
    ensures
        u == 1,
{
    let x = power(48271, i);
    let y = power(1899818559, i);
    lemma_power_undone(i);
    lemma_reduce(y, x * u);
    lemma_reduce(y * x, u);
    lemma_mul_is_associative(y, x, u);
    lemma_small_mod(u as nat, MODULUS as nat);
}

/// Every residue but 0 is a power of the multiplier.
proof fn lemma_every_seed_is_a_power(s: int) -> (i: nat)
    requires
        0 < s < MODULUS,
    ensures
        power(48271, i) == s,
{
    let f = |i: int| power(48271, i as nat);
    let exponents = set_int_range(0, 2147483646);
    let residues = set_int_range(1, MODULUS as int);
    lemma_int_range(0, 2147483646);
    lemma_int_range(1, MODULUS as int);
    assert forall|i: int, j: int| 0 <= i < j < 2147483646 implies #[trigger] f(i) != #[trigger] f(j) by {
        if f(i) == f(j) {
            lemma_power_sum(48271, i as nat, (j - i) as nat);
            lemma_power_range(48271, (j - i) as nat);
            lemma_cancel(i as nat, power(48271, (j - i) as nat));
            lemma_order((j - i) as nat);
        }
    }
    lemma_map_size(exponents, exponents.map(f), f);
    assert(exponents.map(f).subset_of(residues)) by {
        assert forall|x: int| #[trigger] exponents.map(f).contains(x) implies residues.contains(
            x,
        ) by {
            let i = choose|i: int| exponents.contains(i) && f(i) == x;
            lemma_power_range(48271, i as nat);
            lemma_power_undone(i as nat);
        }
    }
    lemma_subset_equality(exponents.map(f), residues);
    assert(residues.contains(s));
    assert(exponents.map(f).contains(s));
    let i = choose|i: int| exponents.contains(i) && f(i) == s;
    i as nat
}

/// Draws multiply by powers of the multiplier.
proof fn lemma_draws_multiply(seed: u64, k: nat)
    requires
        0 < seed < MODULUS,
    ensures
        0 < lcg::draws(seed, k) < MODULUS,
        lcg::draws(seed, k) == (power(48271, k) * seed) % (MODULUS as int),
    decreases k,
{
    reveal(power);
    if k == 0 {
        lemma_small_mod(seed as nat, MODULUS as nat);
    } else {
        let n = (k - 1) as nat;
        let x = power(48271, n);
        lemma_draws_multiply(seed, n);
        lcg::law_lcg_permutes(lcg::draws(seed, n), lcg::draws(seed, n));
        lcg::law_lcg_is_minimal_standard(lcg::draws(seed, n));
        lemma_reduce(48271, x * seed);
        lemma_reduce(48271 * x, seed as int);
        lemma_mul_is_associative(48271, x, seed as int);
    }
}

/// The generator has full period: from any seed strictly between 0 and
/// 2^31 - 1 exactly the multiples of 2^31 - 2 are the numbers of draws that
/// give the seed back, so the least positive one is 2^31 - 2.
pub proof fn law_full_period(seed: u64, k: nat)
    requires
        0 < seed < MODULUS,
    ensures
        lcg::draws(seed, k) == seed <==> k % 2147483646 == 0,
        lcg::draws(seed, 2147483646) == seed,
        0 < k < 2147483646 ==> lcg::draws(seed, k) != seed,
{
    lemma_period_iff(seed, k);
    lemma_period_iff(seed, 2147483646);
}

proof fn lemma_period_iff(seed: u64, k: nat)
    requires
        0 < seed < MODULUS,
    ensures
        lcg::draws(seed, k) == seed <==> k % 2147483646 == 0,
{
    lemma_draws_multiply(seed, k);
    lemma_power_range(48271, k);
    lemma_powers();
    if k % 2147483646 == 0 {
        lemma_multiple_gives_one(2147483646, k / 2147483646);
        lemma_small_mod(seed as nat, MODULUS as nat);
    }
    if lcg::draws(seed, k) == seed {
        let i = lemma_every_seed_is_a_power(seed as int);
        lemma_mul_is_commutative(power(48271, k), seed as int);
        lemma_cancel(i, power(48271, k));
        lemma_remainder_gives_one(k, 2147483646);
        if k % 2147483646 != 0 {
            lemma_order(k % 2147483646);
        }
    }
}

} // verus!
