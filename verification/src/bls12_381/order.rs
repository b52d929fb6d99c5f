//! The order of the groups is a prime number.
//!
//! The order less 1 is `f * (f - 1)`, where `f` is the square of `0xd201000000010000`, which is
//! `2^16 * 906349 * 254760293`. The test of Pocklington applies with an element of order `f`.
//! Powers are computed a few bits at a time: `x1`, `x2` and so on are the powers to `e1`, `e2` and
//! so on.
use vstd::arithmetic::div_mod::{
    lemma_fundamental_div_mod_converse, lemma_mod_twice, lemma_small_mod,
};
use vstd::arithmetic::power::{lemma_pow1, lemma_pow_adds, pow};
use vstd::arithmetic::power2::{lemma2_to64, lemma_pow2};
use vstd::prelude::*;

use crate::algebra::{lemma_cong_mul, lemma_cong_sub};
use crate::bls12_381::fr::order;
use crate::primality::{
    covers, divides, is_inverse, is_prime, is_unit, lemma_covers_multiple, lemma_covers_one,
    lemma_covers_power, lemma_pocklington, lemma_pocklington_prime, lemma_power_of_power,
    lemma_power_step, lemma_prime_without_divisors,
};

verus! {

/// 359 is prime.
proof fn lemma_prime_359()
    ensures
        is_prime(359),
{
    assert forall|d: int| 1 < d && d * d <= 359 implies !#[trigger] divides(d, 359) by {
        assert(d <= 18) by (nonlinear_arith)
            requires
                1 < d,
                d * d <= 359,
        ;
        assert(359int % 2 != 0
            && 359int % 3 != 0
            && 359int % 4 != 0
            && 359int % 5 != 0
            && 359int % 6 != 0
            && 359int % 7 != 0
            && 359int % 8 != 0
            && 359int % 9 != 0
            && 359int % 10 != 0
            && 359int % 11 != 0
            && 359int % 12 != 0
            && 359int % 13 != 0
            && 359int % 14 != 0
            && 359int % 15 != 0
            && 359int % 16 != 0
            && 359int % 17 != 0
            && 359int % 18 != 0);
    }
    lemma_prime_without_divisors(359);
}

/// 110573 is prime, because 359 is.
proof fn lemma_prime_110573()
    ensures
        is_prime(110573),
{
    let n = 110573int;
    let b = 49205int;
    lemma_pow1(b);
    lemma_small_mod(b as nat, n as nat);
    let x1 = 69360int;
    let e1 = lemma_power_step(n, b, 1, b, 2, 1, x1);
    let x2 = 68548int;
    let e2 = lemma_power_step(n, b, e1, x1, 1, 1, x2);
    let x3 = 73381int;
    let e3 = lemma_power_step(n, b, e2, x2, 3, 1, x3);
    let x4 = 14024int;
    let e4 = lemma_power_step(n, b, e3, x3, 1, 1, x4);
    let x5 = 1int;
    let e5 = lemma_power_step(n, b, e4, x4, 1, 1, x5);
    assert(e5 == 359);
    assert(is_inverse(49392, b - 1, n));
    lemma_prime_359();
    lemma_pocklington_prime(n, b, 359, 49392);
}

/// 2653753 is prime, because 110573 is.
proof fn lemma_prime_2653753()
    ensures
        is_prime(2653753),
{
    let n = 2653753int;
    let b = 854698int;
    lemma_pow1(b);
    lemma_small_mod(b as nat, n as nat);
    let x1 = 0x287971int;
    let e1 = lemma_power_step(n, b, 1, b, 1, 1, x1);
    let x2 = 0x215e5fint;
    let e2 = lemma_power_step(n, b, e1, x1, 2, 1, x2);
    let x3 = 0x121650int;
    let e3 = lemma_power_step(n, b, e2, x2, 2, 1, x3);
    let x4 = 313871int;
    let e4 = lemma_power_step(n, b, e3, x3, 1, 1, x4);
    let x5 = 0x264119int;
    let e5 = lemma_power_step(n, b, e4, x4, 1, 1, x5);
    let x6 = 0x248563int;
    let e6 = lemma_power_step(n, b, e5, x5, 1, 1, x6);
    let x7 = 0x16f9ddint;
    let e7 = lemma_power_step(n, b, e6, x6, 1, 1, x7);
    let x8 = 693093int;
    let e8 = lemma_power_step(n, b, e7, x7, 1, 1, x8);
    let x9 = 50551int;
    let e9 = lemma_power_step(n, b, e8, x8, 1, 1, x9);
    let x10 = 162158int;
    let e10 = lemma_power_step(n, b, e9, x9, 2, 1, x10);
    let x11 = 373184int;
    let e11 = lemma_power_step(n, b, e10, x10, 1, 1, x11);
    let x12 = 1int;
    let e12 = lemma_power_step(n, b, e11, x11, 2, 1, x12);
    assert(e12 == 110573);
    assert(is_inverse(166544, b - 1, n));
    lemma_prime_110573();
    lemma_pocklington_prime(n, b, 110573, 166544);
}

/// 63690073 is prime, because 2653753 is.
proof fn lemma_prime_63690073()
    ensures
        is_prime(63690073),
{
    let n = 63690073int;
    let b = 16777216int;
    lemma_pow1(b);
    lemma_small_mod(b as nat, n as nat);
    let x1 = 0x27c9aa8int;
    let e1 = lemma_power_step(n, b, 1, b, 2, 1, x1);
    let x2 = 0x16323b0int;
    let e2 = lemma_power_step(n, b, e1, x1, 4, 0, x2);
    let x3 = 0x3636872int;
    let e3 = lemma_power_step(n, b, e2, x2, 1, 1, x3);
    let x4 = 0x7c0121int;
    let e4 = lemma_power_step(n, b, e3, x3, 1, 1, x4);
    let x5 = 0x1c5b032int;
    let e5 = lemma_power_step(n, b, e4, x4, 1, 1, x5);
    let x6 = 0x35837d4int;
    let e6 = lemma_power_step(n, b, e5, x5, 1, 1, x6);
    let x7 = 0x2fbaa3int;
    let e7 = lemma_power_step(n, b, e6, x6, 1, 1, x7);
    let x8 = 0x301e212int;
    let e8 = lemma_power_step(n, b, e7, x7, 1, 1, x8);
    let x9 = 0x2896ad1int;
    let e9 = lemma_power_step(n, b, e8, x8, 4, 1, x9);
    let x10 = 0x2cb3929int;
    let e10 = lemma_power_step(n, b, e9, x9, 1, 1, x10);
    let x11 = 0x3525aaeint;
    let e11 = lemma_power_step(n, b, e10, x10, 1, 1, x11);
    let x12 = 1int;
    let e12 = lemma_power_step(n, b, e11, x11, 3, 1, x12);
    assert(e12 == 2653753);
    assert(is_inverse(34981479, b - 1, n));
    lemma_prime_2653753();
    lemma_pocklington_prime(n, b, 2653753, 34981479);
}

/// 254760293 is prime, because 63690073 is.
proof fn lemma_prime_254760293()
    ensures
        is_prime(254760293),
{
    let n = 254760293int;
    let b = 16int;
    lemma_pow1(b);
    lemma_small_mod(b as nat, n as nat);
    let x1 = 4096int;
    let e1 = lemma_power_step(n, b, 1, b, 1, 1, x1);
    let x2 = 0xd0aa9bint;
    let e2 = lemma_power_step(n, b, e1, x1, 1, 1, x2);
    let x3 = 0x97febaaint;
    let e3 = lemma_power_step(n, b, e2, x2, 1, 1, x3);
    let x4 = 0xe580d0bint;
    let e4 = lemma_power_step(n, b, e3, x3, 3, 1, x4);
    let x5 = 0xc582149int;
    let e5 = lemma_power_step(n, b, e4, x4, 2, 1, x5);
    let x6 = 0xc620130int;
    let e6 = lemma_power_step(n, b, e5, x5, 1, 1, x6);
    let x7 = 0x2b4214fint;
    let e7 = lemma_power_step(n, b, e6, x6, 1, 1, x7);
    let x8 = 0xbc49089int;
    let e8 = lemma_power_step(n, b, e7, x7, 1, 1, x8);
    let x9 = 0x8b4ff17int;
    let e9 = lemma_power_step(n, b, e8, x8, 2, 1, x9);
    let x10 = 0xc31eac2int;
    let e10 = lemma_power_step(n, b, e9, x9, 2, 1, x10);
    let x11 = 0x60a5703int;
    let e11 = lemma_power_step(n, b, e10, x10, 2, 1, x11);
    let x12 = 0xcbbb33fint;
    let e12 = lemma_power_step(n, b, e11, x11, 2, 1, x12);
    let x13 = 0x92b7286int;
    let e13 = lemma_power_step(n, b, e12, x12, 2, 1, x13);
    let x14 = 0xd3ac45eint;
    let e14 = lemma_power_step(n, b, e13, x13, 1, 1, x14);
    let x15 = 1int;
    let e15 = lemma_power_step(n, b, e14, x14, 3, 1, x15);
    assert(e15 == 63690073);
    assert(is_inverse(220792254, b - 1, n));
    lemma_prime_63690073();
    lemma_pocklington_prime(n, b, 63690073, 220792254);
}

/// 73 is prime.
proof fn lemma_prime_73()
    ensures
        is_prime(73),
{
    assert forall|d: int| 1 < d && d * d <= 73 implies !#[trigger] divides(d, 73) by {
        assert(d <= 8) by (nonlinear_arith)
            requires
                1 < d,
                d * d <= 73,
        ;
        assert(73int % 2 != 0
            && 73int % 3 != 0
            && 73int % 4 != 0
            && 73int % 5 != 0
            && 73int % 6 != 0
            && 73int % 7 != 0
            && 73int % 8 != 0);
    }
    lemma_prime_without_divisors(73);
}

/// 1607 is prime, because 73 is.
proof fn lemma_prime_1607()
    ensures
        is_prime(1607),
{
    let n = 1607int;
    let b = 34int;
    lemma_pow1(b);
    lemma_small_mod(b as nat, n as nat);
    let x1 = 1198int;
    let e1 = lemma_power_step(n, b, 1, b, 3, 1, x1);
    let x2 = 1int;
    let e2 = lemma_power_step(n, b, e1, x1, 3, 1, x2);
    assert(e2 == 73);
    assert(is_inverse(487, b - 1, n));
    lemma_prime_73();
    lemma_pocklington_prime(n, b, 73, 487);
}

/// 906349 is prime, because 1607 is.
proof fn lemma_prime_906349()
    ensures
        is_prime(906349),
{
    let n = 906349int;
    let b = 210417int;
    lemma_pow1(b);
    lemma_small_mod(b as nat, n as nat);
    let x1 = 640674int;
    let e1 = lemma_power_step(n, b, 1, b, 1, 1, x1);
    let x2 = 507258int;
    let e2 = lemma_power_step(n, b, e1, x1, 3, 1, x2);
    let x3 = 288547int;
    let e3 = lemma_power_step(n, b, e2, x2, 4, 1, x3);
    let x4 = 2695int;
    let e4 = lemma_power_step(n, b, e3, x3, 1, 1, x4);
    let x5 = 1int;
    let e5 = lemma_power_step(n, b, e4, x4, 1, 1, x5);
    assert(e5 == 1607);
    assert(is_inverse(298534, b - 1, n));
    lemma_prime_1607();
    lemma_pocklington_prime(n, b, 1607, 298534);
}

/// 2 is prime.
proof fn lemma_prime_2()
    ensures
        is_prime(2),
{
    assert forall|d: int| 1 < d && d * d <= 2 implies !#[trigger] divides(d, 2) by {
        assert(d * d > 2) by (nonlinear_arith)
            requires
                1 < d,
        ;
    }
    lemma_prime_without_divisors(2);
}

/// An element whose order is the square of `0xd201000000010000`.
spec fn element_b() -> int {
    0x1d77eace680cd11e9f997ef84280ddce5c3824eb5b59f3d7767a72ba8d2aa11cint
}

/// `element_b` to the power `0xd201000000010000`.
spec fn element_h() -> int {
    0x27d82b2c3529471eabf434b5ff29f0ec4b34ee8f4a14cef10d306627d22803f1int
}

/// `element_h` to the power `2^15 * 254760293`.
spec fn element_u() -> int {
    0x3f9686d1551dd05c69a9fb8146ab07a8f48a87e3f25d8a3c15e3a8f2b97905deint
}

/// `element_h` to the power `2^16 * 906349`.
spec fn element_v() -> int {
    0x4a7a5acf5dc0e762414782ae22b4119ca76fee9d4c748ed263a7435fa7fde54fint
}

/// The square of `element_u`.
spec fn element_w() -> int {
    0x67ee5d1f3b069511cd89744d5897256537cb1d8475a21d7924a57ba2b69a4d76int
}

/// The power that gives `element_h`.
proof fn lemma_power_h()
    ensures
        pow(element_b(), 0xd201000000010000) % order() == element_h(),
{
    let n = order();
    let b = element_b();
    lemma_pow1(b);
    lemma_small_mod(b as nat, n as nat);
    let x1 = 0x5b220a2c3ff3b539763cdb474f8877db33f66e8d0731265aec69cd8a847b899cint;
    let e1 = lemma_power_step(n, b, 1, b, 1, 1, x1);
    let x2 = 0x3b0015e2eac89d34f7127d4d91398511655b97baff5d4b978622ecbeba9a2d9eint;
    let e2 = lemma_power_step(n, b, e1, x1, 2, 1, x2);
    let x3 = 0x7181fc01022aa72444c87c59653748b15c7772c451824732f93f4360a4fb3608int;
    let e3 = lemma_power_step(n, b, e2, x2, 3, 1, x3);
    let x4 = 0xb0bc6eb7743ec9294fc89689d804657d682e48090a7a936a192154992abbe34int;
    let e4 = lemma_power_step(n, b, e3, x3, 4, 0, x4);
    let x5 = 0x34a30645ad59a799c3e14f992ab0507ff5ff181662c81e7195c81b53047f4891int;
    let e5 = lemma_power_step(n, b, e4, x4, 4, 0, x5);
    let x6 = 0x21572d189c92f412eec960b2304ef8096c9d54598f7f1ad35682c320f80306aeint;
    let e6 = lemma_power_step(n, b, e5, x5, 1, 1, x6);
    let x7 = 0x4ff02704269d1d83f3ef5e0294078222f80c4da7127b079b52b267f24ed4ad6dint;
    let e7 = lemma_power_step(n, b, e6, x6, 4, 0, x7);
    let x8 = 0x6689bd653099d0ce29c0e5dfac847eefc5b6f02e9143f4ad0f8883246562702bint;
    let e8 = lemma_power_step(n, b, e7, x7, 4, 0, x8);
    let x9 = 0x4a1ce47ae40711f238d8a36dca1b605432349ca730b298ad1b61e1f4ca474306int;
    let e9 = lemma_power_step(n, b, e8, x8, 4, 0, x9);
    let x10 = 0xade578df4c760d5328c708b9835adf32ccf33285a196547b42fa14b3c0c9db3int;
    let e10 = lemma_power_step(n, b, e9, x9, 4, 0, x10);
    let x11 = 0x4ee375c3dfcf2b8830b6e00537e20a467156968e73960ff152bc347dde63e78int;
    let e11 = lemma_power_step(n, b, e10, x10, 4, 0, x11);
    let x12 = 0x44be7033fba49ce199577a7d175965448738cc99be9db2fe2b3042909201a8cfint;
    let e12 = lemma_power_step(n, b, e11, x11, 4, 0, x12);
    let x13 = 0x1267f482bb6938382146b2ca277a5a3bf0291ef89ca86bb312676d415791e662int;
    let e13 = lemma_power_step(n, b, e12, x12, 4, 0, x13);
    let x14 = 0x4990c269a2732a1a8df97ebc2867f9c00a65e36640abb1e3c8a03d1d8b840691int;
    let e14 = lemma_power_step(n, b, e13, x13, 4, 1, x14);
    let x15 = 0x19ef8e40c6827a959721d2d813c7b0af103841e0156c33749cefbe0ba9ca5accint;
    let e15 = lemma_power_step(n, b, e14, x14, 4, 0, x15);
    let x16 = 0x426c8e01e9cbd219d1b29976c96cd953cced11eb5ded1bc415c8362cacc8a52fint;
    let e16 = lemma_power_step(n, b, e15, x15, 4, 0, x16);
    let x17 = 0x5b645dcbde345180d2b628eaa0cf6b56ecbe7b95a5ee0c476b8d676bdc487c79int;
    let e17 = lemma_power_step(n, b, e16, x16, 4, 0, x17);
    let x18 = 0x27d82b2c3529471eabf434b5ff29f0ec4b34ee8f4a14cef10d306627d22803f1int;
    let e18 = lemma_power_step(n, b, e17, x17, 4, 0, x18);
    assert(e18 == 0xd201000000010000);
}

/// The power that gives `element_u`.
proof fn lemma_power_u()
    ensures
        pow(element_h(), 8347985281024) % order() == element_u(),
{
    let n = order();
    let b = element_h();
    lemma_pow1(b);
    lemma_small_mod(b as nat, n as nat);
    let x1 = 0x1c79c7dc022b31d9135b3bb3b68449e5d9b226a270232dff0e694149de9c0d6int;
    let e1 = lemma_power_step(n, b, 1, b, 1, 1, x1);
    let x2 = 0x10f74228fac69c2e1130e3b8f3281eaa96f287757d1dbba191804088a158f5b6int;
    let e2 = lemma_power_step(n, b, e1, x1, 1, 1, x2);
    let x3 = 0x48842fd7a0f2bd1c74e6477852d642f5c050165caeefde6240cdbc79cb79f980int;
    let e3 = lemma_power_step(n, b, e2, x2, 1, 1, x3);
    let x4 = 0x6f847228d9165810480c51309c520981c69dc7f793505b12e0730b1a91ed86c5int;
    let e4 = lemma_power_step(n, b, e3, x3, 3, 1, x4);
    let x5 = 0x55a5ba21fa6f9c3e4dc180c69dbdb578a9cb2c3ec5ef2b706a0a32e478da1083int;
    let e5 = lemma_power_step(n, b, e4, x4, 2, 1, x5);
    let x6 = 0x6c9b5eaa4b38e97c88e6aeb748683a1298e65aae7b7051e06f7727cb50c9451cint;
    let e6 = lemma_power_step(n, b, e5, x5, 1, 1, x6);
    let x7 = 0x5a64825c654eb21134762d6f7fe1d2176f2720547fa2153c208c6287131e62a9int;
    let e7 = lemma_power_step(n, b, e6, x6, 1, 1, x7);
    let x8 = 0xa34ccaad001270339ffafec7d42165f490cc78553cbb14bee583ae2e6f43de0int;
    let e8 = lemma_power_step(n, b, e7, x7, 1, 1, x8);
    let x9 = 0x42c0e46f0f858fcfb46f44e0ad042356f9c0c1db5ff6d773e6ae30e3c53171a3int;
    let e9 = lemma_power_step(n, b, e8, x8, 2, 1, x9);
    let x10 = 0x26451b9e6bf8ae13a52a7948bf6f5edfa6f5cfea52b39b2b51fdb3606f4022e1int;
    let e10 = lemma_power_step(n, b, e9, x9, 2, 1, x10);
    let x11 = 0x2e74eda073e126cd62443e482d1642c5958b19e159bb42eb2d6c6646a150c61bint;
    let e11 = lemma_power_step(n, b, e10, x10, 2, 1, x11);
    let x12 = 0x23a94cc63e86526513da9331eb54314427b8e6bec44f641b5ca2e37e1e97a722int;
    let e12 = lemma_power_step(n, b, e11, x11, 2, 1, x12);
    let x13 = 0x215bd9be2dcd909cb02aca6fed14b5246897bbb3da6b94decf9e2054873f188aint;
    let e13 = lemma_power_step(n, b, e12, x12, 2, 1, x13);
    let x14 = 0x291aea7c60f85d602648b21f58a61abb0f4d162ed3a5ce70c8e1725dad7c5caint;
    let e14 = lemma_power_step(n, b, e13, x13, 1, 1, x14);
    let x15 = 0x3d8fcdee9e87307ba6206d20062de3adba688f4433a814f8c6a662fbe17a6719int;
    let e15 = lemma_power_step(n, b, e14, x14, 3, 1, x15);
    let x16 = 0x1a17e5fdace2cb00ba4a825988071e80c1d8f3e17659f46a4fac7ad43381e7c3int;
    let e16 = lemma_power_step(n, b, e15, x15, 2, 1, x16);
    let x17 = 0x80506a96220fe29bc3f68a4e53aa57446d981cba12989083df4a5902a5b79f9int;
    let e17 = lemma_power_step(n, b, e16, x16, 4, 0, x17);
    let x18 = 0x14bf2cdae0d682e0b00be7a69a6a44014d7c1478608b124719b265f408a3ce80int;
    let e18 = lemma_power_step(n, b, e17, x17, 4, 0, x18);
    let x19 = 0x439889e67e08990e10f20b248fe0f0e18ffabf7961fcd26803a5244b7e4d43a6int;
    let e19 = lemma_power_step(n, b, e18, x18, 4, 0, x19);
    let x20 = 0x3f9686d1551dd05c69a9fb8146ab07a8f48a87e3f25d8a3c15e3a8f2b97905deint;
    let e20 = lemma_power_step(n, b, e19, x19, 3, 0, x20);
    assert(e20 == 8347985281024);
}

/// The power that gives `element_v`.
proof fn lemma_power_v()
    ensures
        pow(element_h(), 59398488064) % order() == element_v(),
{
    let n = order();
    let b = element_h();
    lemma_pow1(b);
    lemma_small_mod(b as nat, n as nat);
    let x1 = 0x1c79c7dc022b31d9135b3bb3b68449e5d9b226a270232dff0e694149de9c0d6int;
    let e1 = lemma_power_step(n, b, 1, b, 1, 1, x1);
    let x2 = 0x898b089bc30f9c0234d6112796a3132af30f39e2334750c753944ef77e36419int;
    let e2 = lemma_power_step(n, b, e1, x1, 2, 1, x2);
    let x3 = 0x1c128fd2f819ce881b46efdd81eabadd6808f72c5bd6bd0d2251ee30d3eca2a4int;
    let e3 = lemma_power_step(n, b, e2, x2, 1, 1, x3);
    let x4 = 0x177aecfd863fffceae0ec4e019f91ef6d2613554cb8decf80a2868d437c40d55int;
    let e4 = lemma_power_step(n, b, e3, x3, 1, 1, x4);
    let x5 = 0x2f2a3906f20bb204e7e00423fc59c835521b2fca220e9a1db7e29e1a09872f79int;
    let e5 = lemma_power_step(n, b, e4, x4, 2, 1, x5);
    let x6 = 0x29cd2200a800dcb45e1ada6b64ae2bc401ff13553f06f78fe4a9e0c649526b9int;
    let e6 = lemma_power_step(n, b, e5, x5, 2, 1, x6);
    let x7 = 0x272efd2de97fa925e010e66629a1d5d3995f6eafe38807d7f6a1411a81cb86ddint;
    let e7 = lemma_power_step(n, b, e6, x6, 4, 1, x7);
    let x8 = 0x50c0669a33e48dd5a9be5cf216631282db40d823c54ebbdfdfaf5b6e90bc846aint;
    let e8 = lemma_power_step(n, b, e7, x7, 1, 1, x8);
    let x9 = 0x3f669fc636e906d1d812aff1aca8108a2682ccf26f9792eafa5a2f97310fb487int;
    let e9 = lemma_power_step(n, b, e8, x8, 2, 1, x9);
    let x10 = 0x42ccb4e22855cb5ec9db675e982ac8a819f3ebc9de499ab405cf705a9b774c1int;
    let e10 = lemma_power_step(n, b, e9, x9, 1, 1, x10);
    let x11 = 0x54fac575ee20a61816b92750c8c5c5f30c99053f6bee14e88ba58ba7ff1e68f2int;
    let e11 = lemma_power_step(n, b, e10, x10, 2, 1, x11);
    let x12 = 0x18f2da35779f14b7c50e71b75078151107fe038b56e35bca44af9871ef1c6440int;
    let e12 = lemma_power_step(n, b, e11, x11, 4, 0, x12);
    let x13 = 0x43ea67031284242b23e6261d7ed7e30368ccf2631575eb09cfab2d1395020827int;
    let e13 = lemma_power_step(n, b, e12, x12, 4, 0, x13);
    let x14 = 0x10192b5291407e41bde570c4544f5a9eba62844d856b7134efb6d8df9b3c6098int;
    let e14 = lemma_power_step(n, b, e13, x13, 4, 0, x14);
    let x15 = 0x4a7a5acf5dc0e762414782ae22b4119ca76fee9d4c748ed263a7435fa7fde54fint;
    let e15 = lemma_power_step(n, b, e14, x14, 4, 0, x15);
    assert(e15 == 59398488064);
}

/// The power that gives `element_w`.
proof fn lemma_power_w()
    ensures
        pow(element_u(), 2) % order() == element_w(),
{
    let n = order();
    let b = element_u();
    lemma_pow1(b);
    lemma_small_mod(b as nat, n as nat);
    let x1 = 0x67ee5d1f3b069511cd89744d5897256537cb1d8475a21d7924a57ba2b69a4d76int;
    let e1 = lemma_power_step(n, b, 1, b, 1, 0, x1);
    assert(e1 == 2);
}

/// The power that gives -1.
proof fn lemma_power_minus_one()
    ensures
        pow(element_u(), 906349) % order() == order() - 1,
{
    let n = order();
    let b = element_u();
    lemma_pow1(b);
    lemma_small_mod(b as nat, n as nat);
    let x1 = 0x3e312e7102bfca683bcc0c6236c45347a0e34ff25c3a6e1babdfcd95f3eae2e3int;
    let e1 = lemma_power_step(n, b, 1, b, 1, 1, x1);
    let x2 = 0x48cdb15e4293a9ed85b75cfcb96752949184e4fd63cbd23dfce60345b33c3867int;
    let e2 = lemma_power_step(n, b, e1, x1, 2, 1, x2);
    let x3 = 0x517f35df7168441d6b3bdab3d24af25bee92cc25cea9f04afe941c10c7ba0b31int;
    let e3 = lemma_power_step(n, b, e2, x2, 1, 1, x3);
    let x4 = 0x5a056523630a0c440edc95edab96810536a46c124ea263726a6915bfd9e0fdceint;
    let e4 = lemma_power_step(n, b, e3, x3, 1, 1, x4);
    let x5 = 0x2bbefa2af14fa33dc1efb7de13194e6b336e97509ee2c2d46979aba7fd96e207int;
    let e5 = lemma_power_step(n, b, e4, x4, 2, 1, x5);
    let x6 = 0x62cb67f2c8cdfd99eff29b5249699a1fa03415baacb061ffb868c1cb0649f6b5int;
    let e6 = lemma_power_step(n, b, e5, x5, 2, 1, x6);
    let x7 = 0x1be893695eca2500b70c9844b83275c882c7a68e5e6fbaf2b611e943a185b09bint;
    let e7 = lemma_power_step(n, b, e6, x6, 4, 1, x7);
    let x8 = 0x5cb6710bac9483a2d45b05c4b12a4771d33b924adfc9f895b56a0168b9c44ffbint;
    let e8 = lemma_power_step(n, b, e7, x7, 1, 1, x8);
    let x9 = 0x4c96962826be9937b4aec989e944da2f5b7bf4f61633302d781ea6e4e9bca8e6int;
    let e9 = lemma_power_step(n, b, e8, x8, 2, 1, x9);
    let x10 = 0xb2cccbaac95b0c4ef9ac634cf907891b1003b58e41bb49ada2652185dec17f6int;
    let e10 = lemma_power_step(n, b, e9, x9, 1, 1, x10);
    let x11 = 0x73eda753299d7d483339d80809a1d80553bda402fffe5bfeffffffff00000000int;
    let e11 = lemma_power_step(n, b, e10, x10, 2, 1, x11);
    assert(e11 == 906349);
}

/// The square of `0xd201000000010000`.
spec fn element_order() -> nat {
    228988810152649578064853576960394133504
}

/// No divisor of the order of `element_b` is without one of its primes.
proof fn lemma_element_order_is_covered()
    ensures
        covers(seq![2, 906349, 254760293], element_order() as int),
        is_prime(2),
{
    let (q, p) = (906349int, 254760293int);
    let primes = seq![2, q, p];
    lemma_prime_2();
    lemma_prime_906349();
    lemma_prime_254760293();
    lemma_covers_one(primes);
    lemma_covers_multiple(primes, 1, 1);
    lemma_covers_multiple(primes, q, 1);
    lemma_covers_multiple(primes, q * q, 2);
    lemma_covers_multiple(primes, p * (q * q), 2);
    lemma_covers_power(primes, p * (p * (q * q)), 0, 32);
    lemma2_to64();
    lemma_pow2(32);
}

/// The powers of `element_b` by which its order is known.
proof fn lemma_powers_of_element()
    ensures
        pow(element_b(), element_order()) % order() == 1,
        pow(element_b(), 114494405076324789032426788480197066752) % order() == order() - 1,
        pow(element_b(), 252649707952068770490013865476096) % order() == element_w(),
        pow(element_b(), 898840268458356569973224112128) % order() == element_v(),
{
    let n = order();
    lemma_power_h();
    lemma_power_u();
    lemma_power_v();
    lemma_power_w();
    lemma_power_minus_one();
    lemma_power_of_power(n, element_h(), 8347985281024, element_u(), 2, element_w());
    lemma_power_of_power(n, element_h(), 8347985281024, element_u(), 906349, n - 1);
    lemma_power_of_power(
        n,
        element_b(),
        0xd201000000010000,
        element_h(),
        16695970562048,
        element_w(),
    );
    lemma_power_of_power(n, element_b(), 0xd201000000010000, element_h(), 59398488064, element_v());
    lemma_power_of_power(
        n,
        element_b(),
        0xd201000000010000,
        element_h(),
        7566188111470821376,
        n - 1,
    );
    let b = element_b();
    let half = pow(b, 114494405076324789032426788480197066752);
    lemma_pow_adds(
        b,
        114494405076324789032426788480197066752,
        114494405076324789032426788480197066752,
    );
    lemma_small_mod((n - 1) as nat, n as nat);
    lemma_cong_mul(half, n - 1, half, n - 1, n);
    assert((n - 1) * (n - 1) == (n - 2) * n + 1) by (nonlinear_arith);
    lemma_fundamental_div_mod_converse((n - 1) * (n - 1), n, n - 2, 1);
}

/// The order of the groups is prime.
pub proof fn lemma_order_is_prime()
    ensures
        is_prime(order()),
{
    let n = order();
    let b = element_b();
    let f = element_order();
    let primes = seq![2int, 906349, 254760293];
    lemma_element_order_is_covered();
    lemma_powers_of_element();
    lemma_unit(
        pow(b, 114494405076324789032426788480197066752),
        n - 1,
        0x39f6d3a994cebea4199cec0404d0ec02a9ded2017fff2dff7fffffff80000000int,
    );
    lemma_unit(
        pow(b, 252649707952068770490013865476096),
        element_w(),
        0x4073079c76e730aa62741bebe6d9531e37410dc18dff928c35a724b5ba8ff759int,
    );
    lemma_unit(
        pow(b, 898840268458356569973224112128),
        element_v(),
        0x368dbd074ff9836a930809af157cff63da1b0c0f6060dce04e64605cfdc0b16aint,
    );
    assert(f as int / 2 == 114494405076324789032426788480197066752
        && f as int / 906349 == 252649707952068770490013865476096
        && f as int / 254760293 == 898840268458356569973224112128);
    assert(divides(2, f as int) && divides(906349, f as int) && divides(254760293, f as int));
    assert forall|i: int| 0 <= i < primes.len() implies {
        let q = #[trigger] primes[i];
        q > 1 && divides(q, f as int) && is_unit(pow(b, (f as int / q) as nat) - 1, n)
    } by {
        assert(i == 0 || i == 1 || i == 2);
    }
    lemma_pocklington(n, b, f, primes);
}

/// What is congruent to `x` has an inverse after 1 is taken from it where `u` is one of `x - 1`.
proof fn lemma_unit(p: int, x: int, u: int)
    requires
        p % order() == x,
        is_inverse(u, x - 1, order()),
    ensures
        is_unit(p - 1, order()),
{
    lemma_mod_twice(p, order());
    lemma_cong_sub(p, x, 1, 1, order());
    lemma_cong_mul(u, u, p - 1, x - 1, order());
    let y = p - 1;
    assert(is_inverse(u, y, order()));
}

} // verus!
