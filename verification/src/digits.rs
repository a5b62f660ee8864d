//! Powers of ten and the number of decimal digits of an integer.
use vstd::arithmetic::power2::*;
use vstd::bits::*;
use vstd::prelude::*;
use vstd::std_specs::bits::*;

verus! {

/// 10^n
pub open spec fn pow10(n: nat) -> nat
    decreases n,
{
    if n == 0 {
        1
    } else {
        10 * pow10((n - 1) as nat)
    }
}

/// The number of decimal digits of `v` (none for zero).
pub open spec fn num_digits(v: nat) -> nat
    decreases v,
{
    if v == 0 {
        0
    } else {
        1 + num_digits(v / 10)
    }
}

/// The values of 10^0 to 10^39.
pub proof fn lemma_pow10_values()
    ensures
        pow10(0) == 1,
        pow10(1) == 10,
        pow10(2) == 100,
        pow10(3) == 1000,
        pow10(4) == 10000,
        pow10(5) == 100000,
        pow10(6) == 1000000,
        pow10(7) == 10000000,
        pow10(8) == 100000000,
        pow10(9) == 1000000000,
        pow10(10) == 10000000000,
        pow10(11) == 100000000000,
        pow10(12) == 1000000000000,
        pow10(13) == 10000000000000,
        pow10(14) == 100000000000000,
        pow10(15) == 1000000000000000,
        pow10(16) == 10000000000000000,
        pow10(17) == 100000000000000000,
        pow10(18) == 1000000000000000000,
        pow10(19) == 10000000000000000000,
        pow10(20) == 100000000000000000000,
        pow10(21) == 1000000000000000000000,
        pow10(22) == 10000000000000000000000,
        pow10(23) == 100000000000000000000000,
        pow10(24) == 1000000000000000000000000,
        pow10(25) == 10000000000000000000000000,
        pow10(26) == 100000000000000000000000000,
        pow10(27) == 1000000000000000000000000000,
        pow10(28) == 10000000000000000000000000000,
        pow10(29) == 100000000000000000000000000000,
        pow10(30) == 1000000000000000000000000000000,
        pow10(31) == 10000000000000000000000000000000,
        pow10(32) == 100000000000000000000000000000000,
        pow10(33) == 1000000000000000000000000000000000,
        pow10(34) == 10000000000000000000000000000000000,
        pow10(35) == 100000000000000000000000000000000000,
        pow10(36) == 1000000000000000000000000000000000000,
        pow10(37) == 10000000000000000000000000000000000000,
        pow10(38) == 100000000000000000000000000000000000000,
        pow10(39) == 1000000000000000000000000000000000000000,
{
    assert(pow10(0) == 1);
    assert(pow10(1) == 10);
    assert(pow10(2) == 100);
    assert(pow10(3) == 1000);
    assert(pow10(4) == 10000);
    assert(pow10(5) == 100000);
    assert(pow10(6) == 1000000);
    assert(pow10(7) == 10000000);
    assert(pow10(8) == 100000000);
    assert(pow10(9) == 1000000000);
    assert(pow10(10) == 10000000000);
    assert(pow10(11) == 100000000000);
    assert(pow10(12) == 1000000000000);
    assert(pow10(13) == 10000000000000);
    assert(pow10(14) == 100000000000000);
    assert(pow10(15) == 1000000000000000);
    assert(pow10(16) == 10000000000000000);
    assert(pow10(17) == 100000000000000000);
    assert(pow10(18) == 1000000000000000000);
    assert(pow10(19) == 10000000000000000000);
    assert(pow10(20) == 100000000000000000000);
    assert(pow10(21) == 1000000000000000000000);
    assert(pow10(22) == 10000000000000000000000);
    assert(pow10(23) == 100000000000000000000000);
    assert(pow10(24) == 1000000000000000000000000);
    assert(pow10(25) == 10000000000000000000000000);
    assert(pow10(26) == 100000000000000000000000000);
    assert(pow10(27) == 1000000000000000000000000000);
    assert(pow10(28) == 10000000000000000000000000000);
    assert(pow10(29) == 100000000000000000000000000000);
    assert(pow10(30) == 1000000000000000000000000000000);
    assert(pow10(31) == 10000000000000000000000000000000);
    assert(pow10(32) == 100000000000000000000000000000000);
    assert(pow10(33) == 1000000000000000000000000000000000);
    assert(pow10(34) == 10000000000000000000000000000000000);
    assert(pow10(35) == 100000000000000000000000000000000000);
    assert(pow10(36) == 1000000000000000000000000000000000000);
    assert(pow10(37) == 10000000000000000000000000000000000000);
    assert(pow10(38) == 100000000000000000000000000000000000000);
    assert(pow10(39) == 1000000000000000000000000000000000000000);
}

/// The values of 2^0 to 2^128.
pub proof fn lemma_pow2_values()
    ensures
        pow2(0) == 1,
        pow2(1) == 2,
        pow2(2) == 4,
        pow2(3) == 8,
        pow2(4) == 16,
        pow2(5) == 32,
        pow2(6) == 64,
        pow2(7) == 128,
        pow2(8) == 256,
        pow2(9) == 512,
        pow2(10) == 1024,
        pow2(11) == 2048,
        pow2(12) == 4096,
        pow2(13) == 8192,
        pow2(14) == 16384,
        pow2(15) == 32768,
        pow2(16) == 65536,
        pow2(17) == 131072,
        pow2(18) == 262144,
        pow2(19) == 524288,
        pow2(20) == 1048576,
        pow2(21) == 2097152,
        pow2(22) == 4194304,
        pow2(23) == 8388608,
        pow2(24) == 16777216,
        pow2(25) == 33554432,
        pow2(26) == 67108864,
        pow2(27) == 134217728,
        pow2(28) == 268435456,
        pow2(29) == 536870912,
        pow2(30) == 1073741824,
        pow2(31) == 2147483648,
        pow2(32) == 4294967296,
        pow2(33) == 8589934592,
        pow2(34) == 17179869184,
        pow2(35) == 34359738368,
        pow2(36) == 68719476736,
        pow2(37) == 137438953472,
        pow2(38) == 274877906944,
        pow2(39) == 549755813888,
        pow2(40) == 1099511627776,
        pow2(41) == 2199023255552,
        pow2(42) == 4398046511104,
        pow2(43) == 8796093022208,
        pow2(44) == 17592186044416,
        pow2(45) == 35184372088832,
        pow2(46) == 70368744177664,
        pow2(47) == 140737488355328,
        pow2(48) == 281474976710656,
        pow2(49) == 562949953421312,
        pow2(50) == 1125899906842624,
        pow2(51) == 2251799813685248,
        pow2(52) == 4503599627370496,
        pow2(53) == 9007199254740992,
        pow2(54) == 18014398509481984,
        pow2(55) == 36028797018963968,
        pow2(56) == 72057594037927936,
        pow2(57) == 144115188075855872,
        pow2(58) == 288230376151711744,
        pow2(59) == 576460752303423488,
        pow2(60) == 1152921504606846976,
        pow2(61) == 2305843009213693952,
        pow2(62) == 4611686018427387904,
        pow2(63) == 9223372036854775808,
        pow2(64) == 18446744073709551616,
        pow2(65) == 36893488147419103232,
        pow2(66) == 73786976294838206464,
        pow2(67) == 147573952589676412928,
        pow2(68) == 295147905179352825856,
        pow2(69) == 590295810358705651712,
        pow2(70) == 1180591620717411303424,
        pow2(71) == 2361183241434822606848,
        pow2(72) == 4722366482869645213696,
        pow2(73) == 9444732965739290427392,
        pow2(74) == 18889465931478580854784,
        pow2(75) == 37778931862957161709568,
        pow2(76) == 75557863725914323419136,
        pow2(77) == 151115727451828646838272,
        pow2(78) == 302231454903657293676544,
        pow2(79) == 604462909807314587353088,
        pow2(80) == 1208925819614629174706176,
        pow2(81) == 2417851639229258349412352,
        pow2(82) == 4835703278458516698824704,
        pow2(83) == 9671406556917033397649408,
        pow2(84) == 19342813113834066795298816,
        pow2(85) == 38685626227668133590597632,
        pow2(86) == 77371252455336267181195264,
        pow2(87) == 154742504910672534362390528,
        pow2(88) == 309485009821345068724781056,
        pow2(89) == 618970019642690137449562112,
        pow2(90) == 1237940039285380274899124224,
        pow2(91) == 2475880078570760549798248448,
        pow2(92) == 4951760157141521099596496896,
        pow2(93) == 9903520314283042199192993792,
        pow2(94) == 19807040628566084398385987584,
        pow2(95) == 39614081257132168796771975168,
        pow2(96) == 79228162514264337593543950336,
        pow2(97) == 158456325028528675187087900672,
        pow2(98) == 316912650057057350374175801344,
        pow2(99) == 633825300114114700748351602688,
        pow2(100) == 1267650600228229401496703205376,
        pow2(101) == 2535301200456458802993406410752,
        pow2(102) == 5070602400912917605986812821504,
        pow2(103) == 10141204801825835211973625643008,
        pow2(104) == 20282409603651670423947251286016,
        pow2(105) == 40564819207303340847894502572032,
        pow2(106) == 81129638414606681695789005144064,
        pow2(107) == 162259276829213363391578010288128,
        pow2(108) == 324518553658426726783156020576256,
        pow2(109) == 649037107316853453566312041152512,
        pow2(110) == 1298074214633706907132624082305024,
        pow2(111) == 2596148429267413814265248164610048,
        pow2(112) == 5192296858534827628530496329220096,
        pow2(113) == 10384593717069655257060992658440192,
        pow2(114) == 20769187434139310514121985316880384,
        pow2(115) == 41538374868278621028243970633760768,
        pow2(116) == 83076749736557242056487941267521536,
        pow2(117) == 166153499473114484112975882535043072,
        pow2(118) == 332306998946228968225951765070086144,
        pow2(119) == 664613997892457936451903530140172288,
        pow2(120) == 1329227995784915872903807060280344576,
        pow2(121) == 2658455991569831745807614120560689152,
        pow2(122) == 5316911983139663491615228241121378304,
        pow2(123) == 10633823966279326983230456482242756608,
        pow2(124) == 21267647932558653966460912964485513216,
        pow2(125) == 42535295865117307932921825928971026432,
        pow2(126) == 85070591730234615865843651857942052864,
        pow2(127) == 170141183460469231731687303715884105728,
        pow2(128) == 340282366920938463463374607431768211456,
{
    lemma2_to64();
    lemma2_to64_rest();
    lemma_pow2_unfold(65);
    lemma_pow2_unfold(66);
    lemma_pow2_unfold(67);
    lemma_pow2_unfold(68);
    lemma_pow2_unfold(69);
    lemma_pow2_unfold(70);
    lemma_pow2_unfold(71);
    lemma_pow2_unfold(72);
    lemma_pow2_unfold(73);
    lemma_pow2_unfold(74);
    lemma_pow2_unfold(75);
    lemma_pow2_unfold(76);
    lemma_pow2_unfold(77);
    lemma_pow2_unfold(78);
    lemma_pow2_unfold(79);
    lemma_pow2_unfold(80);
    lemma_pow2_unfold(81);
    lemma_pow2_unfold(82);
    lemma_pow2_unfold(83);
    lemma_pow2_unfold(84);
    lemma_pow2_unfold(85);
    lemma_pow2_unfold(86);
    lemma_pow2_unfold(87);
    lemma_pow2_unfold(88);
    lemma_pow2_unfold(89);
    lemma_pow2_unfold(90);
    lemma_pow2_unfold(91);
    lemma_pow2_unfold(92);
    lemma_pow2_unfold(93);
    lemma_pow2_unfold(94);
    lemma_pow2_unfold(95);
    lemma_pow2_unfold(96);
    lemma_pow2_unfold(97);
    lemma_pow2_unfold(98);
    lemma_pow2_unfold(99);
    lemma_pow2_unfold(100);
    lemma_pow2_unfold(101);
    lemma_pow2_unfold(102);
    lemma_pow2_unfold(103);
    lemma_pow2_unfold(104);
    lemma_pow2_unfold(105);
    lemma_pow2_unfold(106);
    lemma_pow2_unfold(107);
    lemma_pow2_unfold(108);
    lemma_pow2_unfold(109);
    lemma_pow2_unfold(110);
    lemma_pow2_unfold(111);
    lemma_pow2_unfold(112);
    lemma_pow2_unfold(113);
    lemma_pow2_unfold(114);
    lemma_pow2_unfold(115);
    lemma_pow2_unfold(116);
    lemma_pow2_unfold(117);
    lemma_pow2_unfold(118);
    lemma_pow2_unfold(119);
    lemma_pow2_unfold(120);
    lemma_pow2_unfold(121);
    lemma_pow2_unfold(122);
    lemma_pow2_unfold(123);
    lemma_pow2_unfold(124);
    lemma_pow2_unfold(125);
    lemma_pow2_unfold(126);
    lemma_pow2_unfold(127);
    lemma_pow2_unfold(128);
}

/// For a value of bit length `b`, the digit estimate `b * 1233 / 4096` is either the number of
/// decimal digits or one less.
pub proof fn lemma_estimate_bounds(b: nat)
    requires
        1 <= b <= 128,
    ensures
        pow2(b) <= pow10(b * 1233 / 4096 + 1),
        b * 1233 / 4096 >= 1 ==> pow10((b * 1233 / 4096 - 1) as nat) <= pow2((b - 1) as nat),
{
    lemma_pow10_values();
    lemma_pow2_values();
    if b == 1 {
        assert(b * 1233 / 4096 == 0);
        assert(pow2(1) <= pow10(1));
    } else if b == 2 {
        assert(b * 1233 / 4096 == 0);
        assert(pow2(2) <= pow10(1));
    } else if b == 3 {
        assert(b * 1233 / 4096 == 0);
        assert(pow2(3) <= pow10(1));
    } else if b == 4 {
        assert(b * 1233 / 4096 == 1);
        assert(pow2(4) <= pow10(2));
        assert(pow10(0) <= pow2(3));
    } else if b == 5 {
        assert(b * 1233 / 4096 == 1);
        assert(pow2(5) <= pow10(2));
        assert(pow10(0) <= pow2(4));
    } else if b == 6 {
        assert(b * 1233 / 4096 == 1);
        assert(pow2(6) <= pow10(2));
        assert(pow10(0) <= pow2(5));
    } else if b == 7 {
        assert(b * 1233 / 4096 == 2);
        assert(pow2(7) <= pow10(3));
        assert(pow10(1) <= pow2(6));
    } else if b == 8 {
        assert(b * 1233 / 4096 == 2);
        assert(pow2(8) <= pow10(3));
        assert(pow10(1) <= pow2(7));
    } else if b == 9 {
        assert(b * 1233 / 4096 == 2);
        assert(pow2(9) <= pow10(3));
        assert(pow10(1) <= pow2(8));
    } else if b == 10 {
        assert(b * 1233 / 4096 == 3);
        assert(pow2(10) <= pow10(4));
        assert(pow10(2) <= pow2(9));
    } else if b == 11 {
        assert(b * 1233 / 4096 == 3);
        assert(pow2(11) <= pow10(4));
        assert(pow10(2) <= pow2(10));
    } else if b == 12 {
        assert(b * 1233 / 4096 == 3);
        assert(pow2(12) <= pow10(4));
        assert(pow10(2) <= pow2(11));
    } else if b == 13 {
        assert(b * 1233 / 4096 == 3);
        assert(pow2(13) <= pow10(4));
        assert(pow10(2) <= pow2(12));
    } else if b == 14 {
        assert(b * 1233 / 4096 == 4);
        assert(pow2(14) <= pow10(5));
        assert(pow10(3) <= pow2(13));
    } else if b == 15 {
        assert(b * 1233 / 4096 == 4);
        assert(pow2(15) <= pow10(5));
        assert(pow10(3) <= pow2(14));
    } else if b == 16 {
        assert(b * 1233 / 4096 == 4);
        assert(pow2(16) <= pow10(5));
        assert(pow10(3) <= pow2(15));
    } else if b == 17 {
        assert(b * 1233 / 4096 == 5);
        assert(pow2(17) <= pow10(6));
        assert(pow10(4) <= pow2(16));
    } else if b == 18 {
        assert(b * 1233 / 4096 == 5);
        assert(pow2(18) <= pow10(6));
        assert(pow10(4) <= pow2(17));
    } else if b == 19 {
        assert(b * 1233 / 4096 == 5);
        assert(pow2(19) <= pow10(6));
        assert(pow10(4) <= pow2(18));
    } else if b == 20 {
        assert(b * 1233 / 4096 == 6);
        assert(pow2(20) <= pow10(7));
        assert(pow10(5) <= pow2(19));
    } else if b == 21 {
        assert(b * 1233 / 4096 == 6);
        assert(pow2(21) <= pow10(7));
        assert(pow10(5) <= pow2(20));
    } else if b == 22 {
        assert(b * 1233 / 4096 == 6);
        assert(pow2(22) <= pow10(7));
        assert(pow10(5) <= pow2(21));
    } else if b == 23 {
        assert(b * 1233 / 4096 == 6);
        assert(pow2(23) <= pow10(7));
        assert(pow10(5) <= pow2(22));
    } else if b == 24 {
        assert(b * 1233 / 4096 == 7);
        assert(pow2(24) <= pow10(8));
        assert(pow10(6) <= pow2(23));
    } else if b == 25 {
        assert(b * 1233 / 4096 == 7);
        assert(pow2(25) <= pow10(8));
        assert(pow10(6) <= pow2(24));
    } else if b == 26 {
        assert(b * 1233 / 4096 == 7);
        assert(pow2(26) <= pow10(8));
        assert(pow10(6) <= pow2(25));
    } else if b == 27 {
        assert(b * 1233 / 4096 == 8);
        assert(pow2(27) <= pow10(9));
        assert(pow10(7) <= pow2(26));
    } else if b == 28 {
        assert(b * 1233 / 4096 == 8);
        assert(pow2(28) <= pow10(9));
        assert(pow10(7) <= pow2(27));
    } else if b == 29 {
        assert(b * 1233 / 4096 == 8);
        assert(pow2(29) <= pow10(9));
        assert(pow10(7) <= pow2(28));
    } else if b == 30 {
        assert(b * 1233 / 4096 == 9);
        assert(pow2(30) <= pow10(10));
        assert(pow10(8) <= pow2(29));
    } else if b == 31 {
        assert(b * 1233 / 4096 == 9);
        assert(pow2(31) <= pow10(10));
        assert(pow10(8) <= pow2(30));
    } else if b == 32 {
        assert(b * 1233 / 4096 == 9);
        assert(pow2(32) <= pow10(10));
        assert(pow10(8) <= pow2(31));
    } else if b == 33 {
        assert(b * 1233 / 4096 == 9);
        assert(pow2(33) <= pow10(10));
        assert(pow10(8) <= pow2(32));
    } else if b == 34 {
        assert(b * 1233 / 4096 == 10);
        assert(pow2(34) <= pow10(11));
        assert(pow10(9) <= pow2(33));
    } else if b == 35 {
        assert(b * 1233 / 4096 == 10);
        assert(pow2(35) <= pow10(11));
        assert(pow10(9) <= pow2(34));
    } else if b == 36 {
        assert(b * 1233 / 4096 == 10);
        assert(pow2(36) <= pow10(11));
        assert(pow10(9) <= pow2(35));
    } else if b == 37 {
        assert(b * 1233 / 4096 == 11);
        assert(pow2(37) <= pow10(12));
        assert(pow10(10) <= pow2(36));
    } else if b == 38 {
        assert(b * 1233 / 4096 == 11);
        assert(pow2(38) <= pow10(12));
        assert(pow10(10) <= pow2(37));
    } else if b == 39 {
        assert(b * 1233 / 4096 == 11);
        assert(pow2(39) <= pow10(12));
        assert(pow10(10) <= pow2(38));
    } else if b == 40 {
        assert(b * 1233 / 4096 == 12);
        assert(pow2(40) <= pow10(13));
        assert(pow10(11) <= pow2(39));
    } else if b == 41 {
        assert(b * 1233 / 4096 == 12);
        assert(pow2(41) <= pow10(13));
        assert(pow10(11) <= pow2(40));
    } else if b == 42 {
        assert(b * 1233 / 4096 == 12);
        assert(pow2(42) <= pow10(13));
        assert(pow10(11) <= pow2(41));
    } else if b == 43 {
        assert(b * 1233 / 4096 == 12);
        assert(pow2(43) <= pow10(13));
        assert(pow10(11) <= pow2(42));
    } else if b == 44 {
        assert(b * 1233 / 4096 == 13);
        assert(pow2(44) <= pow10(14));
        assert(pow10(12) <= pow2(43));
    } else if b == 45 {
        assert(b * 1233 / 4096 == 13);
        assert(pow2(45) <= pow10(14));
        assert(pow10(12) <= pow2(44));
    } else if b == 46 {
        assert(b * 1233 / 4096 == 13);
        assert(pow2(46) <= pow10(14));
        assert(pow10(12) <= pow2(45));
    } else if b == 47 {
        assert(b * 1233 / 4096 == 14);
        assert(pow2(47) <= pow10(15));
        assert(pow10(13) <= pow2(46));
    } else if b == 48 {
        assert(b * 1233 / 4096 == 14);
        assert(pow2(48) <= pow10(15));
        assert(pow10(13) <= pow2(47));
    } else if b == 49 {
        assert(b * 1233 / 4096 == 14);
        assert(pow2(49) <= pow10(15));
        assert(pow10(13) <= pow2(48));
    } else if b == 50 {
        assert(b * 1233 / 4096 == 15);
        assert(pow2(50) <= pow10(16));
        assert(pow10(14) <= pow2(49));
    } else if b == 51 {
        assert(b * 1233 / 4096 == 15);
        assert(pow2(51) <= pow10(16));
        assert(pow10(14) <= pow2(50));
    } else if b == 52 {
        assert(b * 1233 / 4096 == 15);
        assert(pow2(52) <= pow10(16));
        assert(pow10(14) <= pow2(51));
    } else if b == 53 {
        assert(b * 1233 / 4096 == 15);
        assert(pow2(53) <= pow10(16));
        assert(pow10(14) <= pow2(52));
    } else if b == 54 {
        assert(b * 1233 / 4096 == 16);
        assert(pow2(54) <= pow10(17));
        assert(pow10(15) <= pow2(53));
    } else if b == 55 {
        assert(b * 1233 / 4096 == 16);
        assert(pow2(55) <= pow10(17));
        assert(pow10(15) <= pow2(54));
    } else if b == 56 {
        assert(b * 1233 / 4096 == 16);
        assert(pow2(56) <= pow10(17));
        assert(pow10(15) <= pow2(55));
    } else if b == 57 {
        assert(b * 1233 / 4096 == 17);
        assert(pow2(57) <= pow10(18));
        assert(pow10(16) <= pow2(56));
    } else if b == 58 {
        assert(b * 1233 / 4096 == 17);
        assert(pow2(58) <= pow10(18));
        assert(pow10(16) <= pow2(57));
    } else if b == 59 {
        assert(b * 1233 / 4096 == 17);
        assert(pow2(59) <= pow10(18));
        assert(pow10(16) <= pow2(58));
    } else if b == 60 {
        assert(b * 1233 / 4096 == 18);
        assert(pow2(60) <= pow10(19));
        assert(pow10(17) <= pow2(59));
    } else if b == 61 {
        assert(b * 1233 / 4096 == 18);
        assert(pow2(61) <= pow10(19));
        assert(pow10(17) <= pow2(60));
    } else if b == 62 {
        assert(b * 1233 / 4096 == 18);
        assert(pow2(62) <= pow10(19));
        assert(pow10(17) <= pow2(61));
    } else if b == 63 {
        assert(b * 1233 / 4096 == 18);
        assert(pow2(63) <= pow10(19));
        assert(pow10(17) <= pow2(62));
    } else if b == 64 {
        assert(b * 1233 / 4096 == 19);
        assert(pow2(64) <= pow10(20));
        assert(pow10(18) <= pow2(63));
    } else if b == 65 {
        assert(b * 1233 / 4096 == 19);
        assert(pow2(65) <= pow10(20));
        assert(pow10(18) <= pow2(64));
    } else if b == 66 {
        assert(b * 1233 / 4096 == 19);
        assert(pow2(66) <= pow10(20));
        assert(pow10(18) <= pow2(65));
    } else if b == 67 {
        assert(b * 1233 / 4096 == 20);
        assert(pow2(67) <= pow10(21));
        assert(pow10(19) <= pow2(66));
    } else if b == 68 {
        assert(b * 1233 / 4096 == 20);
        assert(pow2(68) <= pow10(21));
        assert(pow10(19) <= pow2(67));
    } else if b == 69 {
        assert(b * 1233 / 4096 == 20);
        assert(pow2(69) <= pow10(21));
        assert(pow10(19) <= pow2(68));
    } else if b == 70 {
        assert(b * 1233 / 4096 == 21);
        assert(pow2(70) <= pow10(22));
        assert(pow10(20) <= pow2(69));
    } else if b == 71 {
        assert(b * 1233 / 4096 == 21);
        assert(pow2(71) <= pow10(22));
        assert(pow10(20) <= pow2(70));
    } else if b == 72 {
        assert(b * 1233 / 4096 == 21);
        assert(pow2(72) <= pow10(22));
        assert(pow10(20) <= pow2(71));
    } else if b == 73 {
        assert(b * 1233 / 4096 == 21);
        assert(pow2(73) <= pow10(22));
        assert(pow10(20) <= pow2(72));
    } else if b == 74 {
        assert(b * 1233 / 4096 == 22);
        assert(pow2(74) <= pow10(23));
        assert(pow10(21) <= pow2(73));
    } else if b == 75 {
        assert(b * 1233 / 4096 == 22);
        assert(pow2(75) <= pow10(23));
        assert(pow10(21) <= pow2(74));
    } else if b == 76 {
        assert(b * 1233 / 4096 == 22);
        assert(pow2(76) <= pow10(23));
        assert(pow10(21) <= pow2(75));
    } else if b == 77 {
        assert(b * 1233 / 4096 == 23);
        assert(pow2(77) <= pow10(24));
        assert(pow10(22) <= pow2(76));
    } else if b == 78 {
        assert(b * 1233 / 4096 == 23);
        assert(pow2(78) <= pow10(24));
        assert(pow10(22) <= pow2(77));
    } else if b == 79 {
        assert(b * 1233 / 4096 == 23);
        assert(pow2(79) <= pow10(24));
        assert(pow10(22) <= pow2(78));
    } else if b == 80 {
        assert(b * 1233 / 4096 == 24);
        assert(pow2(80) <= pow10(25));
        assert(pow10(23) <= pow2(79));
    } else if b == 81 {
        assert(b * 1233 / 4096 == 24);
        assert(pow2(81) <= pow10(25));
        assert(pow10(23) <= pow2(80));
    } else if b == 82 {
        assert(b * 1233 / 4096 == 24);
        assert(pow2(82) <= pow10(25));
        assert(pow10(23) <= pow2(81));
    } else if b == 83 {
        assert(b * 1233 / 4096 == 24);
        assert(pow2(83) <= pow10(25));
        assert(pow10(23) <= pow2(82));
    } else if b == 84 {
        assert(b * 1233 / 4096 == 25);
        assert(pow2(84) <= pow10(26));
        assert(pow10(24) <= pow2(83));
    } else if b == 85 {
        assert(b * 1233 / 4096 == 25);
        assert(pow2(85) <= pow10(26));
        assert(pow10(24) <= pow2(84));
    } else if b == 86 {
        assert(b * 1233 / 4096 == 25);
        assert(pow2(86) <= pow10(26));
        assert(pow10(24) <= pow2(85));
    } else if b == 87 {
        assert(b * 1233 / 4096 == 26);
        assert(pow2(87) <= pow10(27));
        assert(pow10(25) <= pow2(86));
    } else if b == 88 {
        assert(b * 1233 / 4096 == 26);
        assert(pow2(88) <= pow10(27));
        assert(pow10(25) <= pow2(87));
    } else if b == 89 {
        assert(b * 1233 / 4096 == 26);
        assert(pow2(89) <= pow10(27));
        assert(pow10(25) <= pow2(88));
    } else if b == 90 {
        assert(b * 1233 / 4096 == 27);
        assert(pow2(90) <= pow10(28));
        assert(pow10(26) <= pow2(89));
    } else if b == 91 {
        assert(b * 1233 / 4096 == 27);
        assert(pow2(91) <= pow10(28));
        assert(pow10(26) <= pow2(90));
    } else if b == 92 {
        assert(b * 1233 / 4096 == 27);
        assert(pow2(92) <= pow10(28));
        assert(pow10(26) <= pow2(91));
    } else if b == 93 {
        assert(b * 1233 / 4096 == 27);
        assert(pow2(93) <= pow10(28));
        assert(pow10(26) <= pow2(92));
    } else if b == 94 {
        assert(b * 1233 / 4096 == 28);
        assert(pow2(94) <= pow10(29));
        assert(pow10(27) <= pow2(93));
    } else if b == 95 {
        assert(b * 1233 / 4096 == 28);
        assert(pow2(95) <= pow10(29));
        assert(pow10(27) <= pow2(94));
    } else if b == 96 {
        assert(b * 1233 / 4096 == 28);
        assert(pow2(96) <= pow10(29));
        assert(pow10(27) <= pow2(95));
    } else if b == 97 {
        assert(b * 1233 / 4096 == 29);
        assert(pow2(97) <= pow10(30));
        assert(pow10(28) <= pow2(96));
    } else if b == 98 {
        assert(b * 1233 / 4096 == 29);
        assert(pow2(98) <= pow10(30));
        assert(pow10(28) <= pow2(97));
    } else if b == 99 {
        assert(b * 1233 / 4096 == 29);
        assert(pow2(99) <= pow10(30));
        assert(pow10(28) <= pow2(98));
    } else if b == 100 {
        assert(b * 1233 / 4096 == 30);
        assert(pow2(100) <= pow10(31));
        assert(pow10(29) <= pow2(99));
    } else if b == 101 {
        assert(b * 1233 / 4096 == 30);
        assert(pow2(101) <= pow10(31));
        assert(pow10(29) <= pow2(100));
    } else if b == 102 {
        assert(b * 1233 / 4096 == 30);
        assert(pow2(102) <= pow10(31));
        assert(pow10(29) <= pow2(101));
    } else if b == 103 {
        assert(b * 1233 / 4096 == 31);
        assert(pow2(103) <= pow10(32));
        assert(pow10(30) <= pow2(102));
    } else if b == 104 {
        assert(b * 1233 / 4096 == 31);
        assert(pow2(104) <= pow10(32));
        assert(pow10(30) <= pow2(103));
    } else if b == 105 {
        assert(b * 1233 / 4096 == 31);
        assert(pow2(105) <= pow10(32));
        assert(pow10(30) <= pow2(104));
    } else if b == 106 {
        assert(b * 1233 / 4096 == 31);
        assert(pow2(106) <= pow10(32));
        assert(pow10(30) <= pow2(105));
    } else if b == 107 {
        assert(b * 1233 / 4096 == 32);
        assert(pow2(107) <= pow10(33));
        assert(pow10(31) <= pow2(106));
    } else if b == 108 {
        assert(b * 1233 / 4096 == 32);
        assert(pow2(108) <= pow10(33));
        assert(pow10(31) <= pow2(107));
    } else if b == 109 {
        assert(b * 1233 / 4096 == 32);
        assert(pow2(109) <= pow10(33));
        assert(pow10(31) <= pow2(108));
    } else if b == 110 {
        assert(b * 1233 / 4096 == 33);
        assert(pow2(110) <= pow10(34));
        assert(pow10(32) <= pow2(109));
    } else if b == 111 {
        assert(b * 1233 / 4096 == 33);
        assert(pow2(111) <= pow10(34));
        assert(pow10(32) <= pow2(110));
    } else if b == 112 {
        assert(b * 1233 / 4096 == 33);
        assert(pow2(112) <= pow10(34));
        assert(pow10(32) <= pow2(111));
    } else if b == 113 {
        assert(b * 1233 / 4096 == 34);
        assert(pow2(113) <= pow10(35));
        assert(pow10(33) <= pow2(112));
    } else if b == 114 {
        assert(b * 1233 / 4096 == 34);
        assert(pow2(114) <= pow10(35));
        assert(pow10(33) <= pow2(113));
    } else if b == 115 {
        assert(b * 1233 / 4096 == 34);
        assert(pow2(115) <= pow10(35));
        assert(pow10(33) <= pow2(114));
    } else if b == 116 {
        assert(b * 1233 / 4096 == 34);
        assert(pow2(116) <= pow10(35));
        assert(pow10(33) <= pow2(115));
    } else if b == 117 {
        assert(b * 1233 / 4096 == 35);
        assert(pow2(117) <= pow10(36));
        assert(pow10(34) <= pow2(116));
    } else if b == 118 {
        assert(b * 1233 / 4096 == 35);
        assert(pow2(118) <= pow10(36));
        assert(pow10(34) <= pow2(117));
    } else if b == 119 {
        assert(b * 1233 / 4096 == 35);
        assert(pow2(119) <= pow10(36));
        assert(pow10(34) <= pow2(118));
    } else if b == 120 {
        assert(b * 1233 / 4096 == 36);
        assert(pow2(120) <= pow10(37));
        assert(pow10(35) <= pow2(119));
    } else if b == 121 {
        assert(b * 1233 / 4096 == 36);
        assert(pow2(121) <= pow10(37));
        assert(pow10(35) <= pow2(120));
    } else if b == 122 {
        assert(b * 1233 / 4096 == 36);
        assert(pow2(122) <= pow10(37));
        assert(pow10(35) <= pow2(121));
    } else if b == 123 {
        assert(b * 1233 / 4096 == 37);
        assert(pow2(123) <= pow10(38));
        assert(pow10(36) <= pow2(122));
    } else if b == 124 {
        assert(b * 1233 / 4096 == 37);
        assert(pow2(124) <= pow10(38));
        assert(pow10(36) <= pow2(123));
    } else if b == 125 {
        assert(b * 1233 / 4096 == 37);
        assert(pow2(125) <= pow10(38));
        assert(pow10(36) <= pow2(124));
    } else if b == 126 {
        assert(b * 1233 / 4096 == 37);
        assert(pow2(126) <= pow10(38));
        assert(pow10(36) <= pow2(125));
    } else if b == 127 {
        assert(b * 1233 / 4096 == 38);
        assert(pow2(127) <= pow10(39));
        assert(pow10(37) <= pow2(126));
    } else if b == 128 {
        assert(b * 1233 / 4096 == 38);
        assert(pow2(128) <= pow10(39));
        assert(pow10(37) <= pow2(127));
    }
}
/// 10^i, for i below 10.
pub fn powers_10(i: usize) -> (r: u32)
    requires
        i < 10,
    ensures
        r as nat == pow10(i as nat),
{
    proof {
        lemma_pow10_values();
    }
    match i {
        0 => 1,
        1 => 10,
        2 => 100,
        3 => 1000,
        4 => 10000,
        5 => 100000,
        6 => 1000000,
        7 => 10000000,
        8 => 100000000,
        _ => 1000000000,
    }
}

/// 10^(i + 1), for i below 19.
pub fn big_powers_10(i: usize) -> (r: u64)
    requires
        i < 19,
    ensures
        r as nat == pow10((i + 1) as nat),
{
    proof {
        lemma_pow10_values();
    }
    match i {
        0 => 10,
        1 => 100,
        2 => 1000,
        3 => 10000,
        4 => 100000,
        5 => 1000000,
        6 => 10000000,
        7 => 100000000,
        8 => 1000000000,
        9 => 10000000000,
        10 => 100000000000,
        11 => 1000000000000,
        12 => 10000000000000,
        13 => 100000000000000,
        14 => 1000000000000000,
        15 => 10000000000000000,
        16 => 100000000000000000,
        17 => 1000000000000000000,
        _ => 10000000000000000000,
    }
}

/// 10^i, for i below 39.
pub fn pow10_u128(i: usize) -> (r: u128)
    requires
        i < 39,
    ensures
        r as nat == pow10(i as nat),
{
    proof {
        lemma_pow10_values();
    }
    match i {
        0 => 1,
        1 => 10,
        2 => 100,
        3 => 1000,
        4 => 10000,
        5 => 100000,
        6 => 1000000,
        7 => 10000000,
        8 => 100000000,
        9 => 1000000000,
        10 => 10000000000,
        11 => 100000000000,
        12 => 1000000000000,
        13 => 10000000000000,
        14 => 100000000000000,
        15 => 1000000000000000,
        16 => 10000000000000000,
        17 => 100000000000000000,
        18 => 1000000000000000000,
        19 => 10000000000000000000,
        20 => 100000000000000000000,
        21 => 1000000000000000000000,
        22 => 10000000000000000000000,
        23 => 100000000000000000000000,
        24 => 1000000000000000000000000,
        25 => 10000000000000000000000000,
        26 => 100000000000000000000000000,
        27 => 1000000000000000000000000000,
        28 => 10000000000000000000000000000,
        29 => 100000000000000000000000000000,
        30 => 1000000000000000000000000000000,
        31 => 10000000000000000000000000000000,
        32 => 100000000000000000000000000000000,
        33 => 1000000000000000000000000000000000,
        34 => 10000000000000000000000000000000000,
        35 => 100000000000000000000000000000000000,
        36 => 1000000000000000000000000000000000000,
        37 => 10000000000000000000000000000000000000,
        _ => 100000000000000000000000000000000000000,
    }
}
/// 10^n is positive.
pub proof fn lemma_pow10_pos(n: nat)
    ensures
        pow10(n) >= 1,
    decreases n,
{
    if n > 0 {
        lemma_pow10_pos((n - 1) as nat);
    }
}

/// 10^n grows with n.
pub proof fn lemma_pow10_monotone(m: nat, n: nat)
    requires
        m <= n,
    ensures
        pow10(m) <= pow10(n),
    decreases n,
{
    if m < n {
        lemma_pow10_monotone(m, (n - 1) as nat);
        lemma_pow10_pos((n - 1) as nat);
    }
}

/// A value lies between 10^(n - 1) and 10^n exactly when it has n digits.
pub proof fn lemma_num_digits_exact(v: nat, n: nat)
    requires
        n >= 1,
        pow10((n - 1) as nat) <= v < pow10(n),
    ensures
        num_digits(v) == n,
    decreases n,
{
    if n == 1 {
        assert(v / 10 == 0);
        assert(num_digits(0) == 0);
    } else {
        assert(pow10((n - 1) as nat) == 10 * pow10((n - 2) as nat));
        lemma_num_digits_exact(v / 10, (n - 1) as nat);
    }
}

/// A value is below 10^k exactly when it has at most k digits.
pub proof fn lemma_num_digits_below(t: nat, k: nat)
    ensures
        (t < pow10(k)) == (num_digits(t) <= k),
    decreases k,
{
    lemma_pow10_pos(k);
    if t == 0 {
        assert(num_digits(0) == 0);
    } else if k == 0 {
        assert(num_digits(t) >= 1);
    } else {
        lemma_num_digits_below(t / 10, (k - 1) as nat);
    }
}

/// The bit length of a non-zero u32 from its leading zeros.
pub proof fn lemma_u32_bit_length(v: u32)
    requires
        v != 0,
    ensures
        u32_leading_zeros(v) < 32,
        pow2((31 - u32_leading_zeros(v)) as nat) <= v,
        v < pow2((32 - u32_leading_zeros(v)) as nat),
{
    axiom_u32_leading_zeros(v);
    lemma2_to64();
    let lz = u32_leading_zeros(v);
    let k: u32 = (31 - lz) as u32;
    assert((v >> k) & 1u32 != 0u32 ==> v >> k != 0u32) by (bit_vector);
    lemma_u32_shr_is_div(v, k);
    lemma_pow2_pos(k as nat);
    vstd::arithmetic::div_mod::lemma_fundamental_div_mod(v as int, pow2(k as nat) as int);
    vstd::arithmetic::mul::lemma_mul_inequality(1, (v as nat / pow2(k as nat)) as int, pow2(k as nat) as int);
    if lz >= 1 {
        let k2: u32 = (32 - lz) as u32;
        lemma_u32_shr_is_div(v, k2);
        lemma_pow2_pos(k2 as nat);
        vstd::arithmetic::div_mod::lemma_fundamental_div_mod(v as int, pow2(k2 as nat) as int);
    }
}

/// `u128::leading_zeros`: the number of zero bits above the highest set bit, so that the value
/// lies below 2^(128 - r) and, unless it is zero, at or above 2^(127 - r).
pub assume_specification[ std::primitive::u128::leading_zeros ](x: u128) -> (r: u32)
    ensures
        r <= 128,
        x < pow2((128 - r) as nat),
        r < 128 ==> pow2((127 - r) as nat) <= x,
;

/// The digit estimate from a bit length, and its correction.
proof fn lemma_digits_from_estimate(v: nat, b: nat)
    requires
        1 <= b <= 128,
        pow2((b - 1) as nat) <= v < pow2(b),
    ensures
        b * 1233 / 4096 <= 38,
        num_digits(v) == b * 1233 / 4096 + (if v >= pow10(b * 1233 / 4096) {
            1nat
        } else {
            0nat
        }),
{
    let e = b * 1233 / 4096;
    lemma_estimate_bounds(b);
    if v >= pow10(e) {
        lemma_num_digits_exact(v, e + 1);
    } else {
        if e == 0 {
            lemma_pow2_pos((b - 1) as nat);
        } else {
            lemma_num_digits_exact(v, e);
        }
    }
}

/// Returns the number of decimal digits in `value` (zero has none).
pub fn decimal_digits_u32(value: u32) -> (r: u32)
    ensures
        r as nat == num_digits(value as nat),
{
    let lz = value.leading_zeros();
    proof {
        if value != 0 {
            lemma_u32_bit_length(value);
        }
    }
    let bits = 32 - lz;
    let product = bits * 1233;
    let estimate = product >> 12;
    proof {
        lemma_u32_shr_is_div(product, 12);
        lemma2_to64();
        if value != 0 {
            lemma_digits_from_estimate(value as nat, bits as nat);
            assert(bits as nat - 1 == 31 - lz);
        } else {
            assert(num_digits(0) == 0);
            assert(pow10(0) == 1);
        }
    }
    estimate + (value >= powers_10(estimate as usize)) as u32
}

/// Returns the number of decimal digits in `value` (zero has none).
pub fn decimal_digits_u128(value: u128) -> (r: u32)
    ensures
        r as nat == num_digits(value as nat),
{
    let lz = value.leading_zeros();
    proof {
        lemma_pow2_pos((127 - lz) as nat);
    }
    let bits = 128 - lz;
    let product = bits * 1233;
    let estimate = product >> 12;
    proof {
        lemma_u32_shr_is_div(product, 12);
        lemma2_to64();
        if value != 0 {
            lemma_digits_from_estimate(value as nat, bits as nat);
        } else {
            assert(num_digits(0) == 0);
            assert(pow10(0) == 1);
        }
    }
    estimate + (value >= pow10_u128(estimate as usize)) as u32
}

} // verus!
