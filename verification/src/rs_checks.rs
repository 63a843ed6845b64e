//! The trit-level parity checks of the grid solver are the Reed-Solomon
//! syndromes: a codeword that satisfies all `6·p` equations over GF(3) has
//! `p` zero syndromes over GF(3⁶), so it decodes to its data part.
use vstd::prelude::*;
use crate::field::{
    dg, lemma_add_dg, lemma_add_zero, lemma_digits_of, lemma_dg_bound, lemma_eq_by_digits,
    lemma_mul_assoc, lemma_mul_comm, lemma_mul_distrib, lemma_mul_one, lemma_mul_scale_right,
    lemma_mul_zero, lemma_scale_dg, lemma_zero_facts, sym,
};
use crate::gf3::{
    digit, prefix6, gf_add, gf_exp, gf_mul, gf_scale, gf_xtime, lemma_exp_range, lemma_gf_ranges,
    mul_digits,
};
use crate::rs::{horner, law_clean_word_decodes, spec_decode, syndromes, RsError};
use crate::rs_roots::{lemma_horner_concat, pw, symbols};
use crate::tri_gauss_solver::{
    check_entry, codeword_of, eq_coeff, fixed_trit, in_message, layout_ok, message_symbol, message_trit,
    msg_symbols_for, num_symbols_for, parity_holds, parity_sum, spec_parity_count,
};
use crate::trigrid::TriGrid;
use crate::solver::ConstraintMask;
use crate::codec::{all_chunks_valid, law_length_roundtrip, spec_length_trits, take_upto};
use crate::ecc::{
    attempt_ok, candidate_parity, chunk_erased, erased_in, first_header, framed_codeword, header_accepted,
    header_payload, raw_chunk, raw_erasures, raw_symbol, raw_symbols, rs_recovered,
};
use crate::tri_gauss_solver::{cells_placed, last_constraint, padded_trit};

verus! {

/// Multiplication by α is multiplication by the symbol 3 (the class of `x`).
proof fn lemma_xtime_mul_alpha(y: nat)
    requires
        y < 729,
    ensures
        gf_xtime(y) == gf_mul(y, 3),
{
    reveal_with_fuel(mul_digits, 3);
    lemma_zero_facts(0);
    lemma_scale_dg(y, 0);
    lemma_digits_of(0, 0, 0, 0, 0, 0);
    assert(gf_scale(y, 0) == 0);
    assert(gf_scale(y, 1) == gf_add(y, 0));
    lemma_add_zero(y);
    crate::field::lemma_xtime_dg(y);
    lemma_add_zero(gf_xtime(y));
    assert(mul_digits(y, 0, 4) == 0) by {
        reveal_with_fuel(mul_digits, 5);
    }
}

/// `αⁿ` is the `n`-th power of the symbol 3.
pub proof fn lemma_exp_pw(n: nat)
    ensures
        gf_exp(n) == pw(3, n),
    decreases n,
{
    if n > 0 {
        lemma_exp_pw((n - 1) as nat);
        lemma_exp_range((n - 1) as nat);
        lemma_xtime_mul_alpha(gf_exp((n - 1) as nat));
    }
}

proof fn lemma_pw_range(x: nat, n: nat)
    ensures
        pw(x, n) < 729,
{
    if n > 0 {
        lemma_gf_ranges(pw(x, (n - 1) as nat), x);
    }
}

/// `x^(a + b) = xᵃ · xᵇ`.
pub proof fn lemma_pw_add(x: nat, a: nat, b: nat)
    requires
        x < 729,
    ensures
        pw(x, a + b) == gf_mul(pw(x, a), pw(x, b)),
    decreases b,
{
    lemma_pw_range(x, a);
    if b == 0 {
        lemma_mul_one(pw(x, a));
    } else {
        lemma_pw_add(x, a, (b - 1) as nat);
        lemma_pw_range(x, (b - 1) as nat);
        lemma_mul_assoc(pw(x, a), pw(x, (b - 1) as nat), x);
        assert((a + b - 1) as nat == a + (b - 1) as nat);
    }
}

/// `(xᵃ)ᵇ = x^(a·b)`.
pub proof fn lemma_pw_mul(x: nat, a: nat, b: nat)
    requires
        x < 729,
    ensures
        pw(pw(x, a), b) == pw(x, a * b),
    decreases b,
{
    if b > 0 {
        let b1 = (b - 1) as nat;
        lemma_pw_mul(x, a, b1);
        assert(pw(pw(x, a), b) == gf_mul(pw(pw(x, a), b1), pw(x, a)));
        let ab1 = a * b1;
        assert(ab1 + a == a * b) by (nonlinear_arith)
            requires
                ab1 == a * b1,
                b1 + 1 == b,
        ;
        lemma_pw_add(x, ab1, a);
        lemma_pw_range(x, ab1);
        lemma_pw_range(x, a);
        lemma_mul_comm(pw(x, ab1), pw(x, a));
    } else {
        assert(a * b == 0) by (nonlinear_arith)
            requires
                b == 0,
        ;
    }
}

/// `1ⁿ = 1`.
proof fn lemma_pw_one(n: nat)
    ensures
        pw(1, n) == 1,
    decreases n,
{
    if n > 0 {
        lemma_pw_one((n - 1) as nat);
        lemma_mul_one(1);
    }
}

/// One more power of α, from the value of `xtime` on a known symbol.
proof fn lemma_exp_step(k: nat, a: nat, b: nat)
    requires
        gf_exp(k) == a,
        b == a / 243 % 3 + 3 * ((a % 3 + 2 * (a / 243 % 3)) % 3) + 9 * (a % 243 / 3),
    ensures
        gf_exp(k + 1) == b,
{
}

proof fn lemma_alpha_powers_0()
    ensures
        gf_exp(56) == 502,
{
    lemma_exp_step(0, 1, 3);
    lemma_exp_step(1, 3, 9);
    lemma_exp_step(2, 9, 27);
    lemma_exp_step(3, 27, 81);
    lemma_exp_step(4, 81, 243);
    lemma_exp_step(5, 243, 7);
    lemma_exp_step(6, 7, 21);
    lemma_exp_step(7, 21, 63);
    lemma_exp_step(8, 63, 189);
    lemma_exp_step(9, 189, 567);
    lemma_exp_step(10, 567, 248);
    lemma_exp_step(11, 248, 13);
    lemma_exp_step(12, 13, 39);
    lemma_exp_step(13, 39, 117);
    lemma_exp_step(14, 117, 351);
    lemma_exp_step(15, 351, 331);
    lemma_exp_step(16, 331, 262);
    lemma_exp_step(17, 262, 55);
    lemma_exp_step(18, 55, 165);
    lemma_exp_step(19, 165, 495);
    lemma_exp_step(20, 495, 32);
    lemma_exp_step(21, 32, 96);
    lemma_exp_step(22, 96, 288);
    lemma_exp_step(23, 288, 142);
    lemma_exp_step(24, 142, 426);
    lemma_exp_step(25, 426, 556);
    lemma_exp_step(26, 556, 215);
    lemma_exp_step(27, 215, 645);
    lemma_exp_step(28, 645, 482);
    lemma_exp_step(29, 482, 715);
    lemma_exp_step(30, 715, 692);
    lemma_exp_step(31, 692, 614);
    lemma_exp_step(32, 614, 380);
    lemma_exp_step(33, 380, 409);
    lemma_exp_step(34, 409, 496);
    lemma_exp_step(35, 496, 35);
    lemma_exp_step(36, 35, 105);
    lemma_exp_step(37, 105, 315);
    lemma_exp_step(38, 315, 223);
    lemma_exp_step(39, 223, 669);
    lemma_exp_step(40, 669, 554);
    lemma_exp_step(41, 554, 200);
    lemma_exp_step(42, 200, 600);
    lemma_exp_step(43, 600, 347);
    lemma_exp_step(44, 347, 310);
    lemma_exp_step(45, 310, 199);
    lemma_exp_step(46, 199, 597);
    lemma_exp_step(47, 597, 338);
    lemma_exp_step(48, 338, 283);
    lemma_exp_step(49, 283, 118);
    lemma_exp_step(50, 118, 354);
    lemma_exp_step(51, 354, 340);
    lemma_exp_step(52, 340, 289);
    lemma_exp_step(53, 289, 136);
    lemma_exp_step(54, 136, 408);
    lemma_exp_step(55, 408, 502);
}

proof fn lemma_alpha_powers_1()
    requires
        gf_exp(56) == 502,
    ensures
        gf_exp(112) == 207,
{
    lemma_exp_step(56, 502, 53);
    lemma_exp_step(57, 53, 159);
    lemma_exp_step(58, 159, 477);
    lemma_exp_step(59, 477, 709);
    lemma_exp_step(60, 709, 674);
    lemma_exp_step(61, 674, 560);
    lemma_exp_step(62, 560, 218);
    lemma_exp_step(63, 218, 654);
    lemma_exp_step(64, 654, 509);
    lemma_exp_step(65, 509, 65);
    lemma_exp_step(66, 65, 195);
    lemma_exp_step(67, 195, 585);
    lemma_exp_step(68, 585, 302);
    lemma_exp_step(69, 302, 175);
    lemma_exp_step(70, 175, 525);
    lemma_exp_step(71, 525, 122);
    lemma_exp_step(72, 122, 366);
    lemma_exp_step(73, 366, 376);
    lemma_exp_step(74, 376, 397);
    lemma_exp_step(75, 397, 460);
    lemma_exp_step(76, 460, 649);
    lemma_exp_step(77, 649, 494);
    lemma_exp_step(78, 494, 20);
    lemma_exp_step(79, 20, 60);
    lemma_exp_step(80, 60, 180);
    lemma_exp_step(81, 180, 540);
    lemma_exp_step(82, 540, 167);
    lemma_exp_step(83, 167, 501);
    lemma_exp_step(84, 501, 50);
    lemma_exp_step(85, 50, 150);
    lemma_exp_step(86, 150, 450);
    lemma_exp_step(87, 450, 628);
    lemma_exp_step(88, 628, 431);
    lemma_exp_step(89, 431, 562);
    lemma_exp_step(90, 562, 233);
    lemma_exp_step(91, 233, 699);
    lemma_exp_step(92, 699, 644);
    lemma_exp_step(93, 644, 470);
    lemma_exp_step(94, 470, 679);
    lemma_exp_step(95, 679, 584);
    lemma_exp_step(96, 584, 290);
    lemma_exp_step(97, 290, 139);
    lemma_exp_step(98, 139, 417);
    lemma_exp_step(99, 417, 529);
    lemma_exp_step(100, 529, 134);
    lemma_exp_step(101, 134, 402);
    lemma_exp_step(102, 402, 484);
    lemma_exp_step(103, 484, 721);
    lemma_exp_step(104, 721, 710);
    lemma_exp_step(105, 710, 668);
    lemma_exp_step(106, 668, 542);
    lemma_exp_step(107, 542, 164);
    lemma_exp_step(108, 164, 492);
    lemma_exp_step(109, 492, 23);
    lemma_exp_step(110, 23, 69);
    lemma_exp_step(111, 69, 207);
}

proof fn lemma_alpha_powers_2()
    requires
        gf_exp(112) == 207,
    ensures
        gf_exp(168) == 683,
{
    lemma_exp_step(112, 207, 621);
    lemma_exp_step(113, 621, 410);
    lemma_exp_step(114, 410, 499);
    lemma_exp_step(115, 499, 44);
    lemma_exp_step(116, 44, 132);
    lemma_exp_step(117, 132, 396);
    lemma_exp_step(118, 396, 466);
    lemma_exp_step(119, 466, 667);
    lemma_exp_step(120, 667, 548);
    lemma_exp_step(121, 548, 182);
    lemma_exp_step(122, 182, 546);
    lemma_exp_step(123, 546, 185);
    lemma_exp_step(124, 185, 555);
    lemma_exp_step(125, 555, 212);
    lemma_exp_step(126, 212, 636);
    lemma_exp_step(127, 636, 455);
    lemma_exp_step(128, 455, 634);
    lemma_exp_step(129, 634, 449);
    lemma_exp_step(130, 449, 616);
    lemma_exp_step(131, 616, 395);
    lemma_exp_step(132, 395, 454);
    lemma_exp_step(133, 454, 631);
    lemma_exp_step(134, 631, 440);
    lemma_exp_step(135, 440, 589);
    lemma_exp_step(136, 589, 314);
    lemma_exp_step(137, 314, 211);
    lemma_exp_step(138, 211, 633);
    lemma_exp_step(139, 633, 446);
    lemma_exp_step(140, 446, 607);
    lemma_exp_step(141, 607, 368);
    lemma_exp_step(142, 368, 373);
    lemma_exp_step(143, 373, 388);
    lemma_exp_step(144, 388, 433);
    lemma_exp_step(145, 433, 568);
    lemma_exp_step(146, 568, 251);
    lemma_exp_step(147, 251, 22);
    lemma_exp_step(148, 22, 66);
    lemma_exp_step(149, 66, 198);
    lemma_exp_step(150, 198, 594);
    lemma_exp_step(151, 594, 329);
    lemma_exp_step(152, 329, 256);
    lemma_exp_step(153, 256, 37);
    lemma_exp_step(154, 37, 111);
    lemma_exp_step(155, 111, 333);
    lemma_exp_step(156, 333, 277);
    lemma_exp_step(157, 277, 100);
    lemma_exp_step(158, 100, 300);
    lemma_exp_step(159, 300, 178);
    lemma_exp_step(160, 178, 534);
    lemma_exp_step(161, 534, 149);
    lemma_exp_step(162, 149, 447);
    lemma_exp_step(163, 447, 619);
    lemma_exp_step(164, 619, 404);
    lemma_exp_step(165, 404, 481);
    lemma_exp_step(166, 481, 712);
    lemma_exp_step(167, 712, 683);
}

proof fn lemma_alpha_powers_3()
    requires
        gf_exp(168) == 683,
    ensures
        gf_exp(224) == 381,
{
    lemma_exp_step(168, 683, 587);
    lemma_exp_step(169, 587, 299);
    lemma_exp_step(170, 299, 166);
    lemma_exp_step(171, 166, 498);
    lemma_exp_step(172, 498, 41);
    lemma_exp_step(173, 41, 123);
    lemma_exp_step(174, 123, 369);
    lemma_exp_step(175, 369, 385);
    lemma_exp_step(176, 385, 424);
    lemma_exp_step(177, 424, 541);
    lemma_exp_step(178, 541, 170);
    lemma_exp_step(179, 170, 510);
    lemma_exp_step(180, 510, 77);
    lemma_exp_step(181, 77, 231);
    lemma_exp_step(182, 231, 693);
    lemma_exp_step(183, 693, 626);
    lemma_exp_step(184, 626, 416);
    lemma_exp_step(185, 416, 517);
    lemma_exp_step(186, 517, 98);
    lemma_exp_step(187, 98, 294);
    lemma_exp_step(188, 294, 160);
    lemma_exp_step(189, 160, 480);
    lemma_exp_step(190, 480, 718);
    lemma_exp_step(191, 718, 701);
    lemma_exp_step(192, 701, 641);
    lemma_exp_step(193, 641, 461);
    lemma_exp_step(194, 461, 652);
    lemma_exp_step(195, 652, 503);
    lemma_exp_step(196, 503, 47);
    lemma_exp_step(197, 47, 141);
    lemma_exp_step(198, 141, 423);
    lemma_exp_step(199, 423, 547);
    lemma_exp_step(200, 547, 188);
    lemma_exp_step(201, 188, 564);
    lemma_exp_step(202, 564, 239);
    lemma_exp_step(203, 239, 717);
    lemma_exp_step(204, 717, 698);
    lemma_exp_step(205, 698, 632);
    lemma_exp_step(206, 632, 434);
    lemma_exp_step(207, 434, 571);
    lemma_exp_step(208, 571, 260);
    lemma_exp_step(209, 260, 49);
    lemma_exp_step(210, 49, 147);
    lemma_exp_step(211, 147, 441);
    lemma_exp_step(212, 441, 601);
    lemma_exp_step(213, 601, 350);
    lemma_exp_step(214, 350, 319);
    lemma_exp_step(215, 319, 226);
    lemma_exp_step(216, 226, 678);
    lemma_exp_step(217, 678, 581);
    lemma_exp_step(218, 581, 281);
    lemma_exp_step(219, 281, 112);
    lemma_exp_step(220, 112, 336);
    lemma_exp_step(221, 336, 286);
    lemma_exp_step(222, 286, 127);
    lemma_exp_step(223, 127, 381);
}

proof fn lemma_alpha_powers_4()
    requires
        gf_exp(224) == 381,
    ensures
        gf_exp(280) == 209,
{
    lemma_exp_step(224, 381, 421);
    lemma_exp_step(225, 421, 532);
    lemma_exp_step(226, 532, 143);
    lemma_exp_step(227, 143, 429);
    lemma_exp_step(228, 429, 565);
    lemma_exp_step(229, 565, 242);
    lemma_exp_step(230, 242, 726);
    lemma_exp_step(231, 726, 725);
    lemma_exp_step(232, 725, 713);
    lemma_exp_step(233, 713, 677);
    lemma_exp_step(234, 677, 569);
    lemma_exp_step(235, 569, 245);
    lemma_exp_step(236, 245, 4);
    lemma_exp_step(237, 4, 12);
    lemma_exp_step(238, 12, 36);
    lemma_exp_step(239, 36, 108);
    lemma_exp_step(240, 108, 324);
    lemma_exp_step(241, 324, 250);
    lemma_exp_step(242, 250, 19);
    lemma_exp_step(243, 19, 57);
    lemma_exp_step(244, 57, 171);
    lemma_exp_step(245, 171, 513);
    lemma_exp_step(246, 513, 86);
    lemma_exp_step(247, 86, 258);
    lemma_exp_step(248, 258, 52);
    lemma_exp_step(249, 52, 156);
    lemma_exp_step(250, 156, 468);
    lemma_exp_step(251, 468, 682);
    lemma_exp_step(252, 682, 593);
    lemma_exp_step(253, 593, 317);
    lemma_exp_step(254, 317, 220);
    lemma_exp_step(255, 220, 660);
    lemma_exp_step(256, 660, 527);
    lemma_exp_step(257, 527, 119);
    lemma_exp_step(258, 119, 357);
    lemma_exp_step(259, 357, 349);
    lemma_exp_step(260, 349, 316);
    lemma_exp_step(261, 316, 217);
    lemma_exp_step(262, 217, 651);
    lemma_exp_step(263, 651, 500);
    lemma_exp_step(264, 500, 38);
    lemma_exp_step(265, 38, 114);
    lemma_exp_step(266, 114, 342);
    lemma_exp_step(267, 342, 304);
    lemma_exp_step(268, 304, 181);
    lemma_exp_step(269, 181, 543);
    lemma_exp_step(270, 543, 176);
    lemma_exp_step(271, 176, 528);
    lemma_exp_step(272, 528, 131);
    lemma_exp_step(273, 131, 393);
    lemma_exp_step(274, 393, 457);
    lemma_exp_step(275, 457, 640);
    lemma_exp_step(276, 640, 467);
    lemma_exp_step(277, 467, 670);
    lemma_exp_step(278, 670, 557);
    lemma_exp_step(279, 557, 209);
}

proof fn lemma_alpha_powers_5()
    requires
        gf_exp(280) == 209,
    ensures
        gf_exp(336) == 208,
{
    lemma_exp_step(280, 209, 627);
    lemma_exp_step(281, 627, 428);
    lemma_exp_step(282, 428, 553);
    lemma_exp_step(283, 553, 206);
    lemma_exp_step(284, 206, 618);
    lemma_exp_step(285, 618, 401);
    lemma_exp_step(286, 401, 472);
    lemma_exp_step(287, 472, 685);
    lemma_exp_step(288, 685, 602);
    lemma_exp_step(289, 602, 344);
    lemma_exp_step(290, 344, 301);
    lemma_exp_step(291, 301, 172);
    lemma_exp_step(292, 172, 516);
    lemma_exp_step(293, 516, 95);
    lemma_exp_step(294, 95, 285);
    lemma_exp_step(295, 285, 133);
    lemma_exp_step(296, 133, 399);
    lemma_exp_step(297, 399, 475);
    lemma_exp_step(298, 475, 694);
    lemma_exp_step(299, 694, 629);
    lemma_exp_step(300, 629, 425);
    lemma_exp_step(301, 425, 544);
    lemma_exp_step(302, 544, 179);
    lemma_exp_step(303, 179, 537);
    lemma_exp_step(304, 537, 158);
    lemma_exp_step(305, 158, 474);
    lemma_exp_step(306, 474, 700);
    lemma_exp_step(307, 700, 647);
    lemma_exp_step(308, 647, 479);
    lemma_exp_step(309, 479, 706);
    lemma_exp_step(310, 706, 665);
    lemma_exp_step(311, 665, 533);
    lemma_exp_step(312, 533, 137);
    lemma_exp_step(313, 137, 411);
    lemma_exp_step(314, 411, 511);
    lemma_exp_step(315, 511, 80);
    lemma_exp_step(316, 80, 240);
    lemma_exp_step(317, 240, 720);
    lemma_exp_step(318, 720, 707);
    lemma_exp_step(319, 707, 659);
    lemma_exp_step(320, 659, 515);
    lemma_exp_step(321, 515, 83);
    lemma_exp_step(322, 83, 249);
    lemma_exp_step(323, 249, 25);
    lemma_exp_step(324, 25, 75);
    lemma_exp_step(325, 75, 225);
    lemma_exp_step(326, 225, 675);
    lemma_exp_step(327, 675, 572);
    lemma_exp_step(328, 572, 254);
    lemma_exp_step(329, 254, 31);
    lemma_exp_step(330, 31, 93);
    lemma_exp_step(331, 93, 279);
    lemma_exp_step(332, 279, 115);
    lemma_exp_step(333, 115, 345);
    lemma_exp_step(334, 345, 313);
    lemma_exp_step(335, 313, 208);
}

proof fn lemma_alpha_powers_6()
    requires
        gf_exp(336) == 208,
    ensures
        gf_exp(392) == 444,
{
    lemma_exp_step(336, 208, 624);
    lemma_exp_step(337, 624, 419);
    lemma_exp_step(338, 419, 526);
    lemma_exp_step(339, 526, 125);
    lemma_exp_step(340, 125, 375);
    lemma_exp_step(341, 375, 403);
    lemma_exp_step(342, 403, 478);
    lemma_exp_step(343, 478, 703);
    lemma_exp_step(344, 703, 656);
    lemma_exp_step(345, 656, 506);
    lemma_exp_step(346, 506, 56);
    lemma_exp_step(347, 56, 168);
    lemma_exp_step(348, 168, 504);
    lemma_exp_step(349, 504, 59);
    lemma_exp_step(350, 59, 177);
    lemma_exp_step(351, 177, 531);
    lemma_exp_step(352, 531, 140);
    lemma_exp_step(353, 140, 420);
    lemma_exp_step(354, 420, 538);
    lemma_exp_step(355, 538, 161);
    lemma_exp_step(356, 161, 483);
    lemma_exp_step(357, 483, 727);
    lemma_exp_step(358, 727, 728);
    lemma_exp_step(359, 728, 722);
    lemma_exp_step(360, 722, 704);
    lemma_exp_step(361, 704, 650);
    lemma_exp_step(362, 650, 488);
    lemma_exp_step(363, 488, 2);
    lemma_exp_step(364, 2, 6);
    lemma_exp_step(365, 6, 18);
    lemma_exp_step(366, 18, 54);
    lemma_exp_step(367, 54, 162);
    lemma_exp_step(368, 162, 486);
    lemma_exp_step(369, 486, 5);
    lemma_exp_step(370, 5, 15);
    lemma_exp_step(371, 15, 45);
    lemma_exp_step(372, 45, 135);
    lemma_exp_step(373, 135, 405);
    lemma_exp_step(374, 405, 493);
    lemma_exp_step(375, 493, 26);
    lemma_exp_step(376, 26, 78);
    lemma_exp_step(377, 78, 234);
    lemma_exp_step(378, 234, 702);
    lemma_exp_step(379, 702, 653);
    lemma_exp_step(380, 653, 497);
    lemma_exp_step(381, 497, 29);
    lemma_exp_step(382, 29, 87);
    lemma_exp_step(383, 87, 261);
    lemma_exp_step(384, 261, 61);
    lemma_exp_step(385, 61, 183);
    lemma_exp_step(386, 183, 549);
    lemma_exp_step(387, 549, 194);
    lemma_exp_step(388, 194, 582);
    lemma_exp_step(389, 582, 293);
    lemma_exp_step(390, 293, 148);
    lemma_exp_step(391, 148, 444);
}

proof fn lemma_alpha_powers_7()
    requires
        gf_exp(392) == 444,
    ensures
        gf_exp(448) == 264,
{
    lemma_exp_step(392, 444, 610);
    lemma_exp_step(393, 610, 377);
    lemma_exp_step(394, 377, 400);
    lemma_exp_step(395, 400, 469);
    lemma_exp_step(396, 469, 676);
    lemma_exp_step(397, 676, 575);
    lemma_exp_step(398, 575, 263);
    lemma_exp_step(399, 263, 58);
    lemma_exp_step(400, 58, 174);
    lemma_exp_step(401, 174, 522);
    lemma_exp_step(402, 522, 113);
    lemma_exp_step(403, 113, 339);
    lemma_exp_step(404, 339, 295);
    lemma_exp_step(405, 295, 154);
    lemma_exp_step(406, 154, 462);
    lemma_exp_step(407, 462, 664);
    lemma_exp_step(408, 664, 539);
    lemma_exp_step(409, 539, 155);
    lemma_exp_step(410, 155, 465);
    lemma_exp_step(411, 465, 673);
    lemma_exp_step(412, 673, 566);
    lemma_exp_step(413, 566, 236);
    lemma_exp_step(414, 236, 708);
    lemma_exp_step(415, 708, 671);
    lemma_exp_step(416, 671, 551);
    lemma_exp_step(417, 551, 191);
    lemma_exp_step(418, 191, 573);
    lemma_exp_step(419, 573, 266);
    lemma_exp_step(420, 266, 67);
    lemma_exp_step(421, 67, 201);
    lemma_exp_step(422, 201, 603);
    lemma_exp_step(423, 603, 356);
    lemma_exp_step(424, 356, 337);
    lemma_exp_step(425, 337, 280);
    lemma_exp_step(426, 280, 109);
    lemma_exp_step(427, 109, 327);
    lemma_exp_step(428, 327, 259);
    lemma_exp_step(429, 259, 46);
    lemma_exp_step(430, 46, 138);
    lemma_exp_step(431, 138, 414);
    lemma_exp_step(432, 414, 520);
    lemma_exp_step(433, 520, 107);
    lemma_exp_step(434, 107, 321);
    lemma_exp_step(435, 321, 241);
    lemma_exp_step(436, 241, 723);
    lemma_exp_step(437, 723, 716);
    lemma_exp_step(438, 716, 686);
    lemma_exp_step(439, 686, 596);
    lemma_exp_step(440, 596, 326);
    lemma_exp_step(441, 326, 247);
    lemma_exp_step(442, 247, 10);
    lemma_exp_step(443, 10, 30);
    lemma_exp_step(444, 30, 90);
    lemma_exp_step(445, 90, 270);
    lemma_exp_step(446, 270, 88);
    lemma_exp_step(447, 88, 264);
}

proof fn lemma_alpha_powers_8()
    requires
        gf_exp(448) == 264,
    ensures
        gf_exp(504) == 646,
{
    lemma_exp_step(448, 264, 70);
    lemma_exp_step(449, 70, 210);
    lemma_exp_step(450, 210, 630);
    lemma_exp_step(451, 630, 437);
    lemma_exp_step(452, 437, 580);
    lemma_exp_step(453, 580, 287);
    lemma_exp_step(454, 287, 130);
    lemma_exp_step(455, 130, 390);
    lemma_exp_step(456, 390, 448);
    lemma_exp_step(457, 448, 613);
    lemma_exp_step(458, 613, 386);
    lemma_exp_step(459, 386, 427);
    lemma_exp_step(460, 427, 550);
    lemma_exp_step(461, 550, 197);
    lemma_exp_step(462, 197, 591);
    lemma_exp_step(463, 591, 320);
    lemma_exp_step(464, 320, 229);
    lemma_exp_step(465, 229, 687);
    lemma_exp_step(466, 687, 608);
    lemma_exp_step(467, 608, 362);
    lemma_exp_step(468, 362, 355);
    lemma_exp_step(469, 355, 334);
    lemma_exp_step(470, 334, 271);
    lemma_exp_step(471, 271, 82);
    lemma_exp_step(472, 82, 246);
    lemma_exp_step(473, 246, 16);
    lemma_exp_step(474, 16, 48);
    lemma_exp_step(475, 48, 144);
    lemma_exp_step(476, 144, 432);
    lemma_exp_step(477, 432, 574);
    lemma_exp_step(478, 574, 269);
    lemma_exp_step(479, 269, 76);
    lemma_exp_step(480, 76, 228);
    lemma_exp_step(481, 228, 684);
    lemma_exp_step(482, 684, 599);
    lemma_exp_step(483, 599, 335);
    lemma_exp_step(484, 335, 274);
    lemma_exp_step(485, 274, 91);
    lemma_exp_step(486, 91, 273);
    lemma_exp_step(487, 273, 97);
    lemma_exp_step(488, 97, 291);
    lemma_exp_step(489, 291, 151);
    lemma_exp_step(490, 151, 453);
    lemma_exp_step(491, 453, 637);
    lemma_exp_step(492, 637, 458);
    lemma_exp_step(493, 458, 643);
    lemma_exp_step(494, 643, 476);
    lemma_exp_step(495, 476, 697);
    lemma_exp_step(496, 697, 638);
    lemma_exp_step(497, 638, 452);
    lemma_exp_step(498, 452, 625);
    lemma_exp_step(499, 625, 422);
    lemma_exp_step(500, 422, 535);
    lemma_exp_step(501, 535, 152);
    lemma_exp_step(502, 152, 456);
    lemma_exp_step(503, 456, 646);
}

proof fn lemma_alpha_powers_9()
    requires
        gf_exp(504) == 646,
    ensures
        gf_exp(560) == 265,
{
    lemma_exp_step(504, 646, 485);
    lemma_exp_step(505, 485, 724);
    lemma_exp_step(506, 724, 719);
    lemma_exp_step(507, 719, 695);
    lemma_exp_step(508, 695, 623);
    lemma_exp_step(509, 623, 407);
    lemma_exp_step(510, 407, 490);
    lemma_exp_step(511, 490, 17);
    lemma_exp_step(512, 17, 51);
    lemma_exp_step(513, 51, 153);
    lemma_exp_step(514, 153, 459);
    lemma_exp_step(515, 459, 655);
    lemma_exp_step(516, 655, 512);
    lemma_exp_step(517, 512, 74);
    lemma_exp_step(518, 74, 222);
    lemma_exp_step(519, 222, 666);
    lemma_exp_step(520, 666, 545);
    lemma_exp_step(521, 545, 173);
    lemma_exp_step(522, 173, 519);
    lemma_exp_step(523, 519, 104);
    lemma_exp_step(524, 104, 312);
    lemma_exp_step(525, 312, 214);
    lemma_exp_step(526, 214, 642);
    lemma_exp_step(527, 642, 473);
    lemma_exp_step(528, 473, 688);
    lemma_exp_step(529, 688, 611);
    lemma_exp_step(530, 611, 371);
    lemma_exp_step(531, 371, 382);
    lemma_exp_step(532, 382, 415);
    lemma_exp_step(533, 415, 514);
    lemma_exp_step(534, 514, 89);
    lemma_exp_step(535, 89, 267);
    lemma_exp_step(536, 267, 79);
    lemma_exp_step(537, 79, 237);
    lemma_exp_step(538, 237, 711);
    lemma_exp_step(539, 711, 680);
    lemma_exp_step(540, 680, 578);
    lemma_exp_step(541, 578, 272);
    lemma_exp_step(542, 272, 85);
    lemma_exp_step(543, 85, 255);
    lemma_exp_step(544, 255, 43);
    lemma_exp_step(545, 43, 129);
    lemma_exp_step(546, 129, 387);
    lemma_exp_step(547, 387, 439);
    lemma_exp_step(548, 439, 586);
    lemma_exp_step(549, 586, 305);
    lemma_exp_step(550, 305, 184);
    lemma_exp_step(551, 184, 552);
    lemma_exp_step(552, 552, 203);
    lemma_exp_step(553, 203, 609);
    lemma_exp_step(554, 609, 374);
    lemma_exp_step(555, 374, 391);
    lemma_exp_step(556, 391, 442);
    lemma_exp_step(557, 442, 595);
    lemma_exp_step(558, 595, 332);
    lemma_exp_step(559, 332, 265);
}

proof fn lemma_alpha_powers_10()
    requires
        gf_exp(560) == 265,
    ensures
        gf_exp(616) == 383,
{
    lemma_exp_step(560, 265, 64);
    lemma_exp_step(561, 64, 192);
    lemma_exp_step(562, 192, 576);
    lemma_exp_step(563, 576, 275);
    lemma_exp_step(564, 275, 94);
    lemma_exp_step(565, 94, 282);
    lemma_exp_step(566, 282, 124);
    lemma_exp_step(567, 124, 372);
    lemma_exp_step(568, 372, 394);
    lemma_exp_step(569, 394, 451);
    lemma_exp_step(570, 451, 622);
    lemma_exp_step(571, 622, 413);
    lemma_exp_step(572, 413, 508);
    lemma_exp_step(573, 508, 71);
    lemma_exp_step(574, 71, 213);
    lemma_exp_step(575, 213, 639);
    lemma_exp_step(576, 639, 464);
    lemma_exp_step(577, 464, 661);
    lemma_exp_step(578, 661, 530);
    lemma_exp_step(579, 530, 128);
    lemma_exp_step(580, 128, 384);
    lemma_exp_step(581, 384, 430);
    lemma_exp_step(582, 430, 559);
    lemma_exp_step(583, 559, 224);
    lemma_exp_step(584, 224, 672);
    lemma_exp_step(585, 672, 563);
    lemma_exp_step(586, 563, 227);
    lemma_exp_step(587, 227, 681);
    lemma_exp_step(588, 681, 590);
    lemma_exp_step(589, 590, 308);
    lemma_exp_step(590, 308, 193);
    lemma_exp_step(591, 193, 579);
    lemma_exp_step(592, 579, 284);
    lemma_exp_step(593, 284, 121);
    lemma_exp_step(594, 121, 363);
    lemma_exp_step(595, 363, 367);
    lemma_exp_step(596, 367, 370);
    lemma_exp_step(597, 370, 379);
    lemma_exp_step(598, 379, 406);
    lemma_exp_step(599, 406, 487);
    lemma_exp_step(600, 487, 8);
    lemma_exp_step(601, 8, 24);
    lemma_exp_step(602, 24, 72);
    lemma_exp_step(603, 72, 216);
    lemma_exp_step(604, 216, 648);
    lemma_exp_step(605, 648, 491);
    lemma_exp_step(606, 491, 11);
    lemma_exp_step(607, 11, 33);
    lemma_exp_step(608, 33, 99);
    lemma_exp_step(609, 99, 297);
    lemma_exp_step(610, 297, 169);
    lemma_exp_step(611, 169, 507);
    lemma_exp_step(612, 507, 68);
    lemma_exp_step(613, 68, 204);
    lemma_exp_step(614, 204, 612);
    lemma_exp_step(615, 612, 383);
}

proof fn lemma_alpha_powers_11()
    requires
        gf_exp(616) == 383,
    ensures
        gf_exp(672) == 445,
{
    lemma_exp_step(616, 383, 418);
    lemma_exp_step(617, 418, 523);
    lemma_exp_step(618, 523, 116);
    lemma_exp_step(619, 116, 348);
    lemma_exp_step(620, 348, 322);
    lemma_exp_step(621, 322, 235);
    lemma_exp_step(622, 235, 705);
    lemma_exp_step(623, 705, 662);
    lemma_exp_step(624, 662, 524);
    lemma_exp_step(625, 524, 110);
    lemma_exp_step(626, 110, 330);
    lemma_exp_step(627, 330, 268);
    lemma_exp_step(628, 268, 73);
    lemma_exp_step(629, 73, 219);
    lemma_exp_step(630, 219, 657);
    lemma_exp_step(631, 657, 518);
    lemma_exp_step(632, 518, 92);
    lemma_exp_step(633, 92, 276);
    lemma_exp_step(634, 276, 106);
    lemma_exp_step(635, 106, 318);
    lemma_exp_step(636, 318, 232);
    lemma_exp_step(637, 232, 696);
    lemma_exp_step(638, 696, 635);
    lemma_exp_step(639, 635, 443);
    lemma_exp_step(640, 443, 598);
    lemma_exp_step(641, 598, 341);
    lemma_exp_step(642, 341, 292);
    lemma_exp_step(643, 292, 145);
    lemma_exp_step(644, 145, 435);
    lemma_exp_step(645, 435, 583);
    lemma_exp_step(646, 583, 296);
    lemma_exp_step(647, 296, 157);
    lemma_exp_step(648, 157, 471);
    lemma_exp_step(649, 471, 691);
    lemma_exp_step(650, 691, 620);
    lemma_exp_step(651, 620, 398);
    lemma_exp_step(652, 398, 463);
    lemma_exp_step(653, 463, 658);
    lemma_exp_step(654, 658, 521);
    lemma_exp_step(655, 521, 101);
    lemma_exp_step(656, 101, 303);
    lemma_exp_step(657, 303, 187);
    lemma_exp_step(658, 187, 561);
    lemma_exp_step(659, 561, 230);
    lemma_exp_step(660, 230, 690);
    lemma_exp_step(661, 690, 617);
    lemma_exp_step(662, 617, 389);
    lemma_exp_step(663, 389, 436);
    lemma_exp_step(664, 436, 577);
    lemma_exp_step(665, 577, 278);
    lemma_exp_step(666, 278, 103);
    lemma_exp_step(667, 103, 309);
    lemma_exp_step(668, 309, 205);
    lemma_exp_step(669, 205, 615);
    lemma_exp_step(670, 615, 392);
    lemma_exp_step(671, 392, 445);
}

proof fn lemma_alpha_powers_12()
    requires
        gf_exp(672) == 445,
    ensures
        gf_exp(728) == 1,
{
    lemma_exp_step(672, 445, 604);
    lemma_exp_step(673, 604, 359);
    lemma_exp_step(674, 359, 346);
    lemma_exp_step(675, 346, 307);
    lemma_exp_step(676, 307, 190);
    lemma_exp_step(677, 190, 570);
    lemma_exp_step(678, 570, 257);
    lemma_exp_step(679, 257, 40);
    lemma_exp_step(680, 40, 120);
    lemma_exp_step(681, 120, 360);
    lemma_exp_step(682, 360, 358);
    lemma_exp_step(683, 358, 343);
    lemma_exp_step(684, 343, 298);
    lemma_exp_step(685, 298, 163);
    lemma_exp_step(686, 163, 489);
    lemma_exp_step(687, 489, 14);
    lemma_exp_step(688, 14, 42);
    lemma_exp_step(689, 42, 126);
    lemma_exp_step(690, 126, 378);
    lemma_exp_step(691, 378, 412);
    lemma_exp_step(692, 412, 505);
    lemma_exp_step(693, 505, 62);
    lemma_exp_step(694, 62, 186);
    lemma_exp_step(695, 186, 558);
    lemma_exp_step(696, 558, 221);
    lemma_exp_step(697, 221, 663);
    lemma_exp_step(698, 663, 536);
    lemma_exp_step(699, 536, 146);
    lemma_exp_step(700, 146, 438);
    lemma_exp_step(701, 438, 592);
    lemma_exp_step(702, 592, 323);
    lemma_exp_step(703, 323, 238);
    lemma_exp_step(704, 238, 714);
    lemma_exp_step(705, 714, 689);
    lemma_exp_step(706, 689, 605);
    lemma_exp_step(707, 605, 353);
    lemma_exp_step(708, 353, 328);
    lemma_exp_step(709, 328, 253);
    lemma_exp_step(710, 253, 28);
    lemma_exp_step(711, 28, 84);
    lemma_exp_step(712, 84, 252);
    lemma_exp_step(713, 252, 34);
    lemma_exp_step(714, 34, 102);
    lemma_exp_step(715, 102, 306);
    lemma_exp_step(716, 306, 196);
    lemma_exp_step(717, 196, 588);
    lemma_exp_step(718, 588, 311);
    lemma_exp_step(719, 311, 202);
    lemma_exp_step(720, 202, 606);
    lemma_exp_step(721, 606, 365);
    lemma_exp_step(722, 365, 364);
    lemma_exp_step(723, 364, 361);
    lemma_exp_step(724, 361, 352);
    lemma_exp_step(725, 352, 325);
    lemma_exp_step(726, 325, 244);
    lemma_exp_step(727, 244, 1);
}

/// α has order dividing 728: `α⁷²⁸ = 1`.
pub proof fn lemma_alpha_order()
    ensures
        gf_exp(728) == 1,
{
    lemma_alpha_powers_0();
    lemma_alpha_powers_1();
    lemma_alpha_powers_2();
    lemma_alpha_powers_3();
    lemma_alpha_powers_4();
    lemma_alpha_powers_5();
    lemma_alpha_powers_6();
    lemma_alpha_powers_7();
    lemma_alpha_powers_8();
    lemma_alpha_powers_9();
    lemma_alpha_powers_10();
    lemma_alpha_powers_11();
    lemma_alpha_powers_12();
}

/// Powers of α repeat with period 728.
pub proof fn lemma_exp_mod(n: nat)
    ensures
        gf_exp(n) == gf_exp(n % 728),
{
    let q = n / 728;
    let r = n % 728;
    assert(n == 728 * q + r);
    lemma_exp_pw(n);
    lemma_exp_pw(r);
    lemma_exp_pw(728);
    lemma_alpha_order();
    lemma_pw_add(3, 728 * q, r);
    lemma_pw_mul(3, 728, q);
    lemma_pw_one(q);
    lemma_pw_range(3, r);
    lemma_mul_one(pw(3, r));
    lemma_mul_comm(1, pw(3, r));
}

/// `Σ_{j<n} c_j · xʲ`, summed in increasing `j`.
pub open spec fn power_sum(c: Seq<nat>, x: nat, n: int) -> nat
    decreases n,
{
    if n <= 0 {
        0
    } else {
        gf_add(power_sum(c, x, n - 1), gf_mul(c[n - 1], pw(x, (n - 1) as nat)))
    }
}

/// `Σ_{j<n} H_ij · c_j`: check `i` of the parity-check matrix applied to `c`.
pub open spec fn check_sum(i: nat, c: Seq<nat>, n: int) -> nat
    decreases n,
{
    if n <= 0 {
        0
    } else {
        gf_add(check_sum(i, c, n - 1), gf_mul(check_entry(i, (n - 1) as nat), c[n - 1]))
    }
}

/// Symbol `j` of a trit word: the six trits from `6j`, each taken modulo 3,
/// least significant first.
pub open spec fn trit_symbol(w: Seq<int>, j: int) -> nat {
    sym(
        (w[6 * j] % 3) as nat,
        (w[6 * j + 1] % 3) as nat,
        (w[6 * j + 2] % 3) as nat,
        (w[6 * j + 3] % 3) as nat,
        (w[6 * j + 4] % 3) as nat,
        (w[6 * j + 5] % 3) as nat,
    )
}

/// The first `n` symbols of a trit word.
pub open spec fn trit_symbols(w: Seq<int>, n: nat) -> Seq<nat> {
    Seq::new(n, |j: int| trit_symbol(w, j))
}

proof fn lemma_horner_single(a: nat, x: nat)
    requires
        a < 729,
        x < 729,
    ensures
        horner(seq![a], x) == a,
{
    assert(seq![a].drop_first() =~= Seq::<nat>::empty());
    assert(horner(Seq::<nat>::empty(), x) == 0);
    lemma_mul_zero(x);
    lemma_add_zero(a);
}

/// Evaluating a prefix is summing its terms.
proof fn lemma_horner_power_sum(c: Seq<nat>, x: nat, n: int)
    requires
        x < 729,
        symbols(c),
        0 <= n <= c.len(),
    ensures
        horner(c.take(n), x) == power_sum(c, x, n),
    decreases n,
{
    if n == 0 {
        assert(c.take(0) =~= Seq::<nat>::empty());
    } else {
        lemma_horner_power_sum(c, x, n - 1);
        let last = seq![c[n - 1]];
        assert(c.take(n) =~= c.take(n - 1) + last);
        lemma_horner_concat(c.take(n - 1), last, x);
        lemma_horner_single(c[n - 1], x);
    }
}

/// The power sum at `α^(i+1)` is parity check `i`.
proof fn lemma_power_sum_check(c: Seq<nat>, i: nat, n: int)
    requires
        symbols(c),
        0 <= n <= c.len(),
    ensures
        power_sum(c, gf_exp((i + 1) % 728), n) == check_sum(i, c, n),
    decreases n,
{
    if n > 0 {
        lemma_power_sum_check(c, i, n - 1);
        let j = (n - 1) as nat;
        let x = gf_exp((i + 1) % 728);
        lemma_exp_mod(i + 1);
        lemma_exp_pw(i + 1);
        lemma_pw_mul(3, i + 1, j);
        lemma_exp_pw((i + 1) * j);
        lemma_exp_mod((i + 1) * j);
        assert(pw(x, j) == check_entry(i, j));
        lemma_exp_range((((i + 1) * j) % 728) as nat);
        lemma_mul_comm(c[n - 1], pw(x, j));
    }
}

/// `3ʳ = αʳ` for `r < 6`.
proof fn lemma_small_powers()
    ensures
        gf_exp(0) == 1,
        gf_exp(1) == 3,
        gf_exp(2) == 9,
        gf_exp(3) == 27,
        gf_exp(4) == 81,
        gf_exp(5) == 243,
{
    reveal_with_fuel(gf_exp, 7);
}

/// `d · αʳ` for a digit `d`.
pub open spec fn term(r: nat, d: nat) -> nat {
    gf_scale(gf_exp(r), d)
}

/// The symbol with digits `d₀ … d₅` as the field sum `Σ dᵣ · αʳ`.
pub open spec fn basis_sum(d0: nat, d1: nat, d2: nat, d3: nat, d4: nat, d5: nat) -> nat {
    gf_add(term(0, d0), gf_add(term(1, d1), gf_add(term(2, d2), gf_add(term(3, d3), gf_add(term(4, d4), term(5, d5))))))
}

/// Digit `i` of `d · αʳ` is `d` at `i = r` and 0 elsewhere.
proof fn lemma_term_dg(r: nat, d: nat)
    requires
        r < 6,
        d < 3,
    ensures
        term(r, d) < 729,
        forall|i: int| 0 <= i < 6 ==> #[trigger] dg(term(r, d), i) == (if i == r { d } else { 0 }),
{
    lemma_small_powers();
    lemma_scale_dg(gf_exp(r), d);
    let e = gf_exp(r);
    let (u0, u1, u2, u3, u4, u5): (nat, nat, nat, nat, nat, nat) = if r == 0 {
        (1, 0, 0, 0, 0, 0)
    } else if r == 1 {
        (0, 1, 0, 0, 0, 0)
    } else if r == 2 {
        (0, 0, 1, 0, 0, 0)
    } else if r == 3 {
        (0, 0, 0, 1, 0, 0)
    } else if r == 4 {
        (0, 0, 0, 0, 1, 0)
    } else {
        (0, 0, 0, 0, 0, 1)
    };
    assert(e == sym(u0, u1, u2, u3, u4, u5));
    lemma_digits_of(u0, u1, u2, u3, u4, u5);
    assert(u0 == (if r == 0 { 1nat } else { 0nat }));
    assert(u1 == (if r == 1 { 1nat } else { 0nat }));
    assert(u2 == (if r == 2 { 1nat } else { 0nat }));
    assert(u3 == (if r == 3 { 1nat } else { 0nat }));
    assert(u4 == (if r == 4 { 1nat } else { 0nat }));
    assert(u5 == (if r == 5 { 1nat } else { 0nat }));
    assert forall|i: int| 0 <= i < 6 implies #[trigger] dg(term(r, d), i) == (if i == r { d } else { 0 }) by {
        assert(dg(term(r, d), i) == (d % 3 * dg(e, i)) % 3);
        let ui: nat = if i == 0 {
            u0
        } else if i == 1 {
            u1
        } else if i == 2 {
            u2
        } else if i == 3 {
            u3
        } else if i == 4 {
            u4
        } else {
            u5
        };
        assert(dg(e, i) == ui);
        if i == r {
            assert(ui == 1);
            assert((d % 3 * 1) % 3 == d);
        } else {
            assert(ui == 0);
            assert((d % 3 * 0) % 3 == 0);
        }
    }
}

/// Digit `i` of the basis sum is `dᵢ`.
proof fn lemma_basis_digit(d0: nat, d1: nat, d2: nat, d3: nat, d4: nat, d5: nat, i: int)
    requires
        d0 < 3,
        d1 < 3,
        d2 < 3,
        d3 < 3,
        d4 < 3,
        d5 < 3,
        0 <= i < 6,
    ensures
        dg(basis_sum(d0, d1, d2, d3, d4, d5), i) == (if i == 0 {
            d0
        } else if i == 1 {
            d1
        } else if i == 2 {
            d2
        } else if i == 3 {
            d3
        } else if i == 4 {
            d4
        } else {
            d5
        }),
{
    lemma_term_dg(0, d0);
    lemma_term_dg(1, d1);
    lemma_term_dg(2, d2);
    lemma_term_dg(3, d3);
    lemma_term_dg(4, d4);
    lemma_term_dg(5, d5);
    let s4 = gf_add(term(4, d4), term(5, d5));
    let s3 = gf_add(term(3, d3), s4);
    let s2 = gf_add(term(2, d2), s3);
    let s1 = gf_add(term(1, d1), s2);
    lemma_add_dg(term(4, d4), term(5, d5));
    lemma_add_dg(term(3, d3), s4);
    lemma_add_dg(term(2, d2), s3);
    lemma_add_dg(term(1, d1), s2);
    lemma_add_dg(term(0, d0), s1);
    let t0 = dg(term(0, d0), i);
    let t1 = dg(term(1, d1), i);
    let t2 = dg(term(2, d2), i);
    let t3 = dg(term(3, d3), i);
    let t4 = dg(term(4, d4), i);
    let t5 = dg(term(5, d5), i);
    assert(dg(s4, i) == (t4 + t5) % 3);
    assert(dg(s3, i) == (t3 + dg(s4, i)) % 3);
    assert(dg(s2, i) == (t2 + dg(s3, i)) % 3);
    assert(dg(s1, i) == (t1 + dg(s2, i)) % 3);
    assert(dg(basis_sum(d0, d1, d2, d3, d4, d5), i) == (t0 + dg(s1, i)) % 3);
}

/// A symbol is the field sum of its digits times the powers of α.
proof fn lemma_basis_sum(d0: nat, d1: nat, d2: nat, d3: nat, d4: nat, d5: nat)
    requires
        d0 < 3,
        d1 < 3,
        d2 < 3,
        d3 < 3,
        d4 < 3,
        d5 < 3,
    ensures
        sym(d0, d1, d2, d3, d4, d5) == basis_sum(d0, d1, d2, d3, d4, d5),
{
    lemma_basis_digit(d0, d1, d2, d3, d4, d5, 0);
    lemma_basis_digit(d0, d1, d2, d3, d4, d5, 1);
    lemma_basis_digit(d0, d1, d2, d3, d4, d5, 2);
    lemma_basis_digit(d0, d1, d2, d3, d4, d5, 3);
    lemma_basis_digit(d0, d1, d2, d3, d4, d5, 4);
    lemma_basis_digit(d0, d1, d2, d3, d4, d5, 5);
    lemma_digits_of(d0, d1, d2, d3, d4, d5);
    crate::field::lemma_add_dg(term(0, d0), gf_add(term(1, d1), gf_add(term(2, d2), gf_add(term(3, d3), gf_add(term(4, d4), term(5, d5))))));
    lemma_eq_by_digits(sym(d0, d1, d2, d3, d4, d5), basis_sum(d0, d1, d2, d3, d4, d5));
}

/// `d · (h · αʳ)`.
pub open spec fn hterm(h: nat, r: nat, d: nat) -> nat {
    gf_scale(gf_mul(h, gf_exp(r)), d)
}

/// `h` times the symbol with digits `d₀ … d₅`, as a sum over the digits.
pub open spec fn product_sum(h: nat, d0: nat, d1: nat, d2: nat, d3: nat, d4: nat, d5: nat) -> nat {
    gf_add(
        hterm(h, 0, d0),
        gf_add(hterm(h, 1, d1), gf_add(hterm(h, 2, d2), gf_add(hterm(h, 3, d3), gf_add(hterm(h, 4, d4), hterm(h, 5, d5))))),
    )
}

/// `h · (d · αʳ) = d · (h · αʳ)`.
proof fn lemma_mul_term(h: nat, r: nat, d: nat)
    requires
        h < 729,
        r < 6,
    ensures
        gf_mul(h, term(r, d)) == hterm(h, r, d),
{
    lemma_exp_range(r);
    lemma_mul_scale_right(h, gf_exp(r), d);
}

/// Multiplying a symbol distributes over its digits.
proof fn lemma_mul_symbol(h: nat, d0: nat, d1: nat, d2: nat, d3: nat, d4: nat, d5: nat)
    requires
        h < 729,
        d0 < 3,
        d1 < 3,
        d2 < 3,
        d3 < 3,
        d4 < 3,
        d5 < 3,
    ensures
        gf_mul(h, sym(d0, d1, d2, d3, d4, d5)) == product_sum(h, d0, d1, d2, d3, d4, d5),
{
    lemma_basis_sum(d0, d1, d2, d3, d4, d5);
    let s4 = gf_add(term(4, d4), term(5, d5));
    let s3 = gf_add(term(3, d3), s4);
    let s2 = gf_add(term(2, d2), s3);
    let s1 = gf_add(term(1, d1), s2);
    lemma_mul_distrib(h, term(0, d0), s1);
    lemma_mul_distrib(h, term(1, d1), s2);
    lemma_mul_distrib(h, term(2, d2), s3);
    lemma_mul_distrib(h, term(3, d3), s4);
    lemma_mul_distrib(h, term(4, d4), term(5, d5));
    lemma_mul_term(h, 0, d0);
    lemma_mul_term(h, 1, d1);
    lemma_mul_term(h, 2, d2);
    lemma_mul_term(h, 3, d3);
    lemma_mul_term(h, 4, d4);
    lemma_mul_term(h, 5, d5);
}

#[verifier::spinoff_prover]
proof fn lemma_m3_sum6(a0: nat, a1: nat, a2: nat, a3: nat, a4: nat, a5: nat)
    ensures
        (a0 % 3 + (a1 % 3 + (a2 % 3 + (a3 % 3 + (a4 % 3 + a5 % 3) % 3) % 3) % 3) % 3) % 3 == (a0 + a1 + a2 + a3 + a4
            + a5) % 3,
{
    let b4 = (a4 % 3 + a5 % 3) % 3;
    vstd::arithmetic::div_mod::lemma_add_mod_noop(a4 as int, a5 as int, 3);
    assert(b4 == (a4 + a5) % 3);
    let b3 = (a3 % 3 + b4) % 3;
    vstd::arithmetic::div_mod::lemma_add_mod_noop(a3 as int, (a4 + a5) as int, 3);
    vstd::arithmetic::div_mod::lemma_mod_twice((a4 + a5) as int, 3);
    assert(b3 == (a3 + a4 + a5) % 3);
    let b2 = (a2 % 3 + b3) % 3;
    vstd::arithmetic::div_mod::lemma_add_mod_noop(a2 as int, (a3 + a4 + a5) as int, 3);
    vstd::arithmetic::div_mod::lemma_mod_twice((a3 + a4 + a5) as int, 3);
    assert(b2 == (a2 + a3 + a4 + a5) % 3);
    let b1 = (a1 % 3 + b2) % 3;
    vstd::arithmetic::div_mod::lemma_add_mod_noop(a1 as int, (a2 + a3 + a4 + a5) as int, 3);
    vstd::arithmetic::div_mod::lemma_mod_twice((a2 + a3 + a4 + a5) as int, 3);
    assert(b1 == (a1 + a2 + a3 + a4 + a5) % 3);
    vstd::arithmetic::div_mod::lemma_add_mod_noop(a0 as int, (a1 + a2 + a3 + a4 + a5) as int, 3);
    vstd::arithmetic::div_mod::lemma_mod_twice((a1 + a2 + a3 + a4 + a5) as int, 3);
}

/// Digit `i` of `h · c` is the digit-weighted sum of the digits of `h · αʳ`.
proof fn lemma_mul_symbol_digit(h: nat, d0: nat, d1: nat, d2: nat, d3: nat, d4: nat, d5: nat, i: int)
    requires
        h < 729,
        d0 < 3,
        d1 < 3,
        d2 < 3,
        d3 < 3,
        d4 < 3,
        d5 < 3,
        0 <= i < 6,
    ensures
        dg(gf_mul(h, sym(d0, d1, d2, d3, d4, d5)), i) == (d0 * dg(gf_mul(h, gf_exp(0)), i) + d1 * dg(
            gf_mul(h, gf_exp(1)),
            i,
        ) + d2 * dg(gf_mul(h, gf_exp(2)), i) + d3 * dg(gf_mul(h, gf_exp(3)), i) + d4 * dg(gf_mul(h, gf_exp(4)), i)
            + d5 * dg(gf_mul(h, gf_exp(5)), i)) % 3,
{
    lemma_mul_symbol(h, d0, d1, d2, d3, d4, d5);
    let e4 = gf_add(hterm(h, 4, d4), hterm(h, 5, d5));
    let e3 = gf_add(hterm(h, 3, d3), e4);
    let e2 = gf_add(hterm(h, 2, d2), e3);
    let e1 = gf_add(hterm(h, 1, d1), e2);
    lemma_add_dg(hterm(h, 4, d4), hterm(h, 5, d5));
    lemma_add_dg(hterm(h, 3, d3), e4);
    lemma_add_dg(hterm(h, 2, d2), e3);
    lemma_add_dg(hterm(h, 1, d1), e2);
    lemma_add_dg(hterm(h, 0, d0), e1);
    lemma_scale_dg(gf_mul(h, gf_exp(0)), d0);
    lemma_scale_dg(gf_mul(h, gf_exp(1)), d1);
    lemma_scale_dg(gf_mul(h, gf_exp(2)), d2);
    lemma_scale_dg(gf_mul(h, gf_exp(3)), d3);
    lemma_scale_dg(gf_mul(h, gf_exp(4)), d4);
    lemma_scale_dg(gf_mul(h, gf_exp(5)), d5);
    let a0 = d0 * dg(gf_mul(h, gf_exp(0)), i);
    let a1 = d1 * dg(gf_mul(h, gf_exp(1)), i);
    let a2 = d2 * dg(gf_mul(h, gf_exp(2)), i);
    let a3 = d3 * dg(gf_mul(h, gf_exp(3)), i);
    let a4 = d4 * dg(gf_mul(h, gf_exp(4)), i);
    let a5 = d5 * dg(gf_mul(h, gf_exp(5)), i);
    assert(dg(hterm(h, 0, d0), i) == a0 % 3);
    assert(dg(hterm(h, 1, d1), i) == a1 % 3);
    assert(dg(hterm(h, 2, d2), i) == a2 % 3);
    assert(dg(hterm(h, 3, d3), i) == a3 % 3);
    assert(dg(hterm(h, 4, d4), i) == a4 % 3);
    assert(dg(hterm(h, 5, d5), i) == a5 % 3);
    lemma_m3_sum6(a0, a1, a2, a3, a4, a5);
}

/// `digit` and `dg` agree on the six digits of a symbol.
proof fn lemma_digit_is_dg(a: nat, i: int)
    requires
        0 <= i < 6,
    ensures
        digit(a, i as nat) == dg(a, i),
{
    crate::gf3::lemma_pow3_small();
    reveal(dg);
    if i == 0 {
    } else if i == 1 {
    } else if i == 2 {
    } else if i == 3 {
    } else if i == 4 {
    } else {
    }
}

proof fn lemma_term_split(w: int, k: int)
    ensures
        k * w == 3 * ((w / 3) * k) + (w % 3) * k,
{
    vstd::arithmetic::div_mod::lemma_fundamental_div_mod(w, 3);
    assert(k * w == 3 * ((w / 3) * k) + (w % 3) * k) by (nonlinear_arith)
        requires
            w == 3 * (w / 3) + w % 3,
    ;
}

/// `k · w ≡ k · (w mod 3)` summed over six terms, modulo 3.
proof fn lemma_mod_combo(
    x: int,
    w0: int,
    w1: int,
    w2: int,
    w3: int,
    w4: int,
    w5: int,
    k0: int,
    k1: int,
    k2: int,
    k3: int,
    k4: int,
    k5: int,
)
    ensures
        (x % 3 + ((w0 % 3) * k0 + (w1 % 3) * k1 + (w2 % 3) * k2 + (w3 % 3) * k3 + (w4 % 3) * k4 + (w5 % 3) * k5)
            % 3) % 3 == (x + (k0 * w0 + k1 * w1 + k2 * w2 + k3 * w3 + k4 * w4 + k5 * w5)) % 3,
{
    let s1 = (w0 % 3) * k0 + (w1 % 3) * k1 + (w2 % 3) * k2 + (w3 % 3) * k3 + (w4 % 3) * k4 + (w5 % 3) * k5;
    let q = (w0 / 3) * k0 + (w1 / 3) * k1 + (w2 / 3) * k2 + (w3 / 3) * k3 + (w4 / 3) * k4 + (w5 / 3) * k5;
    vstd::arithmetic::div_mod::lemma_fundamental_div_mod(w0, 3);
    vstd::arithmetic::div_mod::lemma_fundamental_div_mod(w1, 3);
    vstd::arithmetic::div_mod::lemma_fundamental_div_mod(w2, 3);
    vstd::arithmetic::div_mod::lemma_fundamental_div_mod(w3, 3);
    vstd::arithmetic::div_mod::lemma_fundamental_div_mod(w4, 3);
    vstd::arithmetic::div_mod::lemma_fundamental_div_mod(w5, 3);
    lemma_term_split(w0, k0);
    lemma_term_split(w1, k1);
    lemma_term_split(w2, k2);
    lemma_term_split(w3, k3);
    lemma_term_split(w4, k4);
    lemma_term_split(w5, k5);
    assert(k0 * w0 + k1 * w1 + k2 * w2 + k3 * w3 + k4 * w4 + k5 * w5 == s1 + 3 * q);
    vstd::arithmetic::div_mod::lemma_add_mod_noop(x, s1, 3);
    vstd::arithmetic::div_mod::lemma_mod_multiples_vanish(q, x + s1, 3);
}

/// Six more terms of a trit equation.
proof fn lemma_parity_block(e: int, w: Seq<int>, j: int)
    requires
        j >= 0,
    ensures
        parity_sum(e, w, 6 * j + 6) == parity_sum(e, w, 6 * j) + eq_coeff(e, 6 * j) * w[6 * j] + eq_coeff(e, 6 * j + 1)
            * w[6 * j + 1] + eq_coeff(e, 6 * j + 2) * w[6 * j + 2] + eq_coeff(e, 6 * j + 3) * w[6 * j + 3] + eq_coeff(
            e,
            6 * j + 4,
        ) * w[6 * j + 4] + eq_coeff(e, 6 * j + 5) * w[6 * j + 5],
{
    let b = 6 * j;
    lemma_parity_step(e, w, b);
    lemma_parity_step(e, w, b + 1);
    lemma_parity_step(e, w, b + 2);
    lemma_parity_step(e, w, b + 3);
    lemma_parity_step(e, w, b + 4);
    lemma_parity_step(e, w, b + 5);
}

proof fn lemma_parity_step(e: int, w: Seq<int>, n: int)
    requires
        n >= 0,
    ensures
        parity_sum(e, w, n + 1) == parity_sum(e, w, n) + eq_coeff(e, n) * w[n],
{
}

/// The coefficient of trit `6j + r` in equation `6i + r'` is digit `r'` of
/// `H_ij · αʳ`.
proof fn lemma_eq_coeff_digit(i: nat, rp: int, j: nat, r: int)
    requires
        0 <= rp < 6,
        0 <= r < 6,
    ensures
        eq_coeff(6 * i + rp, 6 * j + r) == dg(gf_mul(check_entry(i, j), gf_exp(r as nat)), rp),
        eq_coeff(6 * i + rp, 6 * j + r) < 3,
{
    assert((6 * i + rp) / 6 == i && (6 * i + rp) % 6 == rp);
    assert((6 * j + r) / 6 == j && (6 * j + r) % 6 == r);
    lemma_digit_is_dg(gf_mul(check_entry(i, j), gf_exp(r as nat)), rp);
    lemma_dg_bound(gf_mul(check_entry(i, j), gf_exp(r as nat)));
}

/// Digit `r'` of `H_ij · c_j` for the symbol `c_j` of six trits of `w`.
proof fn lemma_block_digit(w: Seq<int>, i: nat, rp: int, j: int)
    requires
        0 <= rp < 6,
        0 <= j,
        w.len() >= 6 * j + 6,
    ensures
        dg(gf_mul(check_entry(i, j as nat), trit_symbol(w, j)), rp) == ((w[6 * j] % 3) * eq_coeff(6 * i + rp, 6 * j)
            + (w[6 * j + 1] % 3) * eq_coeff(6 * i + rp, 6 * j + 1) + (w[6 * j + 2] % 3) * eq_coeff(6 * i + rp, 6 * j + 2)
            + (w[6 * j + 3] % 3) * eq_coeff(6 * i + rp, 6 * j + 3) + (w[6 * j + 4] % 3) * eq_coeff(6 * i + rp, 6 * j + 4)
            + (w[6 * j + 5] % 3) * eq_coeff(6 * i + rp, 6 * j + 5)) % 3,
{
    let h = check_entry(i, j as nat);
    lemma_exp_range((((i + 1) * (j as nat)) % 728) as nat);
    let b: int = 6 * j;
    let d0 = (w[b] % 3) as nat;
    let d1 = (w[b + 1] % 3) as nat;
    let d2 = (w[b + 2] % 3) as nat;
    let d3 = (w[b + 3] % 3) as nat;
    let d4 = (w[b + 4] % 3) as nat;
    let d5 = (w[b + 5] % 3) as nat;
    lemma_mul_symbol_digit(h, d0, d1, d2, d3, d4, d5, rp);
    lemma_eq_coeff_digit(i, rp, j as nat, 0);
    lemma_eq_coeff_digit(i, rp, j as nat, 1);
    lemma_eq_coeff_digit(i, rp, j as nat, 2);
    lemma_eq_coeff_digit(i, rp, j as nat, 3);
    lemma_eq_coeff_digit(i, rp, j as nat, 4);
    lemma_eq_coeff_digit(i, rp, j as nat, 5);
}

/// Digit `r'` of check `i` applied to the symbols of `w` is trit equation
/// `6i + r'` modulo 3.
#[verifier::spinoff_prover]
#[verifier::rlimit(40)]
proof fn lemma_check_digit(w: Seq<int>, i: nat, rp: int, n: nat, total: nat)
    requires
        0 <= rp < 6,
        n <= total,
        w.len() >= 6 * total,
    ensures
        dg(check_sum(i, trit_symbols(w, total), n as int), rp) == parity_sum(6 * i + rp, w, (6 * n) as int) % 3,
    decreases n,
{
    let c = trit_symbols(w, total);
    let e = 6 * i + rp;
    if n == 0 {
        lemma_digits_of(0, 0, 0, 0, 0, 0);
    } else {
        let j = (n - 1) as nat;
        lemma_check_digit(w, i, rp, j, total);
        let h = check_entry(i, j);
        let b: int = 6 * (j as int);
        assert(c[j as int] == trit_symbol(w, j as int));
        lemma_block_digit(w, i, rp, j as int);
        lemma_add_dg(check_sum(i, c, j as int), gf_mul(h, c[j as int]));
        lemma_parity_block(e, w, j as int);
        let ps = parity_sum(e, w, b);
        let sp = (w[b] % 3) * eq_coeff(e, b) + (w[b + 1] % 3) * eq_coeff(e, b + 1) + (w[b + 2] % 3) * eq_coeff(e, b + 2)
            + (w[b + 3] % 3) * eq_coeff(e, b + 3) + (w[b + 4] % 3) * eq_coeff(e, b + 4) + (w[b + 5] % 3) * eq_coeff(
            e,
            b + 5,
        );
        let sfull = eq_coeff(e, b) * w[b] + eq_coeff(e, b + 1) * w[b + 1] + eq_coeff(e, b + 2) * w[b + 2] + eq_coeff(
            e,
            b + 3,
        ) * w[b + 3] + eq_coeff(e, b + 4) * w[b + 4] + eq_coeff(e, b + 5) * w[b + 5];
        lemma_mod_combo(
            ps,
            w[b],
            w[b + 1],
            w[b + 2],
            w[b + 3],
            w[b + 4],
            w[b + 5],
            eq_coeff(e, b),
            eq_coeff(e, b + 1),
            eq_coeff(e, b + 2),
            eq_coeff(e, b + 3),
            eq_coeff(e, b + 4),
            eq_coeff(e, b + 5),
        );
        assert(b + 6 == 6 * n);
        lemma_digit_step(
            dg(check_sum(i, c, j as int), rp) as int,
            dg(gf_mul(h, c[j as int]), rp) as int,
            ps,
            sp,
            sfull,
            parity_sum(e, w, (6 * n) as int),
        );
    }
}

proof fn lemma_digit_step(a: int, b: int, ps: int, sp: int, s: int, total: int)
    requires
        a == ps % 3,
        b == sp % 3,
        (ps % 3 + sp % 3) % 3 == (ps + s) % 3,
        total == ps + s,
    ensures
        (a + b) % 3 == total % 3,
{
}


proof fn lemma_check_sum_range(i: nat, c: Seq<nat>, n: int)
    ensures
        check_sum(i, c, n) < 729,
{
    if n > 0 {
        lemma_gf_ranges(check_sum(i, c, n - 1), gf_mul(check_entry(i, (n - 1) as nat), c[n - 1]));
    }
}

/// A trit word that satisfies all `6·p` trit equations of the grid solver
/// has `p` zero Reed-Solomon syndromes: each parity check of
/// `H_ij = α^((i+1)·j)` over GF(3⁶) is six equations over GF(3), one per
/// digit. So the word decodes to its data part, whatever erasures are
/// reported.
pub proof fn law_parity_checks_are_syndromes(w: Seq<int>, p: nat, n: nat, es: Seq<usize>)
    requires
        w.len() >= 6 * n,
        parity_holds(w, p, 6 * n),
    ensures
        forall|i: int| 0 <= i < p ==> #[trigger] syndromes(trit_symbols(w, n), p)[i] == 0,
        spec_decode(p, trit_symbols(w, n), es) == Ok::<Seq<nat>, RsError>(
            trit_symbols(w, n).subrange(p as int, n as int),
        ),
{
    let c = trit_symbols(w, n);
    assert forall|j: int| 0 <= j < c.len() implies #[trigger] c[j] < 729 by {
        lemma_digits_of(
            (w[6 * j] % 3) as nat,
            (w[6 * j + 1] % 3) as nat,
            (w[6 * j + 2] % 3) as nat,
            (w[6 * j + 3] % 3) as nat,
            (w[6 * j + 4] % 3) as nat,
            (w[6 * j + 5] % 3) as nat,
        );
    }
    assert forall|i: int| 0 <= i < p implies #[trigger] syndromes(c, p)[i] == 0 by {
        let ii = i as nat;
        lemma_check_digit(w, ii, 0, n, n);
        lemma_check_digit(w, ii, 1, n, n);
        lemma_check_digit(w, ii, 2, n, n);
        lemma_check_digit(w, ii, 3, n, n);
        lemma_check_digit(w, ii, 4, n, n);
        lemma_check_digit(w, ii, 5, n, n);
        assert(parity_sum(6 * i + 0, w, (6 * n) as int) % 3 == 0);
        assert(parity_sum(6 * i + 1, w, (6 * n) as int) % 3 == 0);
        assert(parity_sum(6 * i + 2, w, (6 * n) as int) % 3 == 0);
        assert(parity_sum(6 * i + 3, w, (6 * n) as int) % 3 == 0);
        assert(parity_sum(6 * i + 4, w, (6 * n) as int) % 3 == 0);
        assert(parity_sum(6 * i + 5, w, (6 * n) as int) % 3 == 0);
        lemma_check_sum_range(ii, c, n as int);
        lemma_digits_of(0, 0, 0, 0, 0, 0);
        lemma_eq_by_digits(check_sum(ii, c, n as int), 0);
        let x = gf_exp((ii + 1) % 728);
        lemma_exp_range((ii + 1) % 728);
        assert(c.take(n as int) =~= c);
        lemma_horner_power_sum(c, x, n as int);
        lemma_power_sum_check(c, ii, n as int);
        assert(((i + 1) % 728) as nat == (ii + 1) % 728);
    }
    law_clean_word_decodes(p, c, es);
}

/// A message symbol is a field element.
proof fn lemma_message_symbol_range(payload: Seq<u8>, p: nat, k: int)
    requires
        payload.len() < 531441,
        p < 729,
        0 <= k,
    ensures
        message_symbol(payload, p, k) < 729,
{
    if k >= 3 {
        crate::ecc::lemma_symbol_of6(
            Seq::new(6, |i: int| crate::tri_gauss_solver::padded_trit(payload, 6 * (k - 3) + i)),
        );
    }
}

/// Six trits holding the digits of a symbol read back as that symbol.
proof fn lemma_digits_symbol(m: nat, w: Seq<int>, j: int)
    requires
        m < 729,
        0 <= j,
        w.len() >= 6 * j + 6,
        forall|r: int| 0 <= r < 6 ==> #[trigger] w[6 * j + r] == digit(m, r as nat) as int,
    ensures
        trit_symbol(w, j) == m,
{
    crate::field::lemma_of_digits(m);
    lemma_dg_bound(m);
    lemma_digit_is_dg(m, 0);
    lemma_digit_is_dg(m, 1);
    lemma_digit_is_dg(m, 2);
    lemma_digit_is_dg(m, 3);
    lemma_digit_is_dg(m, 4);
    lemma_digit_is_dg(m, 5);
    assert(w[6 * j + 0] == digit(m, 0) as int);
    assert(w[6 * j + 1] == digit(m, 1) as int);
    assert(w[6 * j + 2] == digit(m, 2) as int);
    assert(w[6 * j + 3] == digit(m, 3) as int);
    assert(w[6 * j + 4] == digit(m, 4) as int);
    assert(w[6 * j + 5] == digit(m, 5) as int);
}

/// What the grid solver writes, the Reed-Solomon decoder reads back: the
/// codeword in the cells of a solved grid decodes, at the solver's parity
/// count and whatever erasures are reported, to its data part, and that
/// data part holds the message block (header and payload symbols) at the
/// solver's offset.
pub proof fn law_solver_grid_decodes(
    g: TriGrid,
    payload: Seq<u8>,
    coords: Seq<(usize, usize)>,
    cs: Seq<ConstraintMask>,
    fill: Seq<u8>,
    o: nat,
    es: Seq<usize>,
)
    requires
        layout_ok(g, payload, coords, cs, fill, o),
        spec_parity_count(num_symbols_for(coords.len())) + o + msg_symbols_for(payload.len()) <= num_symbols_for(
            coords.len(),
        ),
        payload.len() < 531441,
    ensures
        ({
            let ns = num_symbols_for(coords.len());
            let p = spec_parity_count(ns);
            let c = trit_symbols(codeword_of(g, coords, 6 * ns), ns);
            &&& spec_decode(p, c, es) == Ok::<Seq<nat>, RsError>(c.subrange(p as int, ns as int))
            &&& forall|k: int|
                0 <= k < msg_symbols_for(payload.len()) ==> #[trigger] c[p + o + k] == message_symbol(payload, p, k)
        }),
{
    let ns = num_symbols_for(coords.len());
    let p = spec_parity_count(ns);
    let cw = 6 * ns;
    let w = codeword_of(g, coords, cw);
    let c = trit_symbols(w, ns);
    law_parity_checks_are_syndromes(w, p, ns, es);
    assert forall|k: int| 0 <= k < msg_symbols_for(payload.len()) implies #[trigger] c[p + o + k] == message_symbol(
        payload,
        p,
        k,
    ) by {
        let j = p + o + k;
        let m = message_symbol(payload, p, k);
        lemma_message_symbol_range(payload, p, k);
        assert forall|r: int| 0 <= r < 6 implies #[trigger] w[6 * j + r] == digit(m, r as nat) as int by {
            let idx = 6 * j + r;
            assert(in_message(idx, p, o, msg_symbols_for(payload.len())));
            assert(fixed_trit(payload, coords, cs, p, o, idx) == Some(message_trit(payload, p, idx - 6 * (p + o))));
            assert((idx - 6 * (p + o)) / 6 == k && (idx - 6 * (p + o)) % 6 == r);
            lemma_digit_is_dg(m, r);
            lemma_dg_bound(m);
        }
        lemma_digits_symbol(m, w, j);
    }
}

/// The state of the last constraint at a cell is one of the constraints'
/// states.
proof fn lemma_last_constraint_state(cs: Seq<ConstraintMask>, col: int, row: int)
    requires
        forall|k: int| 0 <= k < cs.len() ==> #[trigger] cs[k].required_state <= 2,
    ensures
        last_constraint(cs, col, row) matches Some(v) ==> v <= 2,
    decreases cs.len(),
{
    if cs.len() > 0 {
        assert(cs.last().required_state <= 2);
        lemma_last_constraint_state(cs.drop_last(), col, row);
    }
}

/// When the parity count `p` is the first that works and the header at
/// `off0` is the first accepted one, whatever the reader recovers is the
/// payload that header names.
proof fn lemma_recovered_is(
    cwt: Seq<u8>,
    p: nat,
    d: Seq<nat>,
    off0: int,
    payload: Seq<u8>,
    t: Seq<u8>,
)
    requires
        spec_decode(p, raw_symbols(cwt), raw_erasures(cwt)) == Ok::<Seq<nat>, RsError>(d),
        attempt_ok(raw_symbols(cwt), raw_erasures(cwt), p),
        candidate_parity(p, raw_symbols(cwt).len()),
        header_accepted(d, p, off0),
        forall|o: int| 0 <= o < off0 ==> !#[trigger] header_accepted(d, p, o),
        header_payload(d, off0) == payload,
        forall|pc: nat|
            #[trigger] candidate_parity(pc, raw_symbols(cwt).len()) && pc < p ==> !attempt_ok(
                raw_symbols(cwt),
                raw_erasures(cwt),
                pc,
            ),
        rs_recovered(cwt, t),
    ensures
        t == payload,
{
    let syms = raw_symbols(cwt);
    let ers = raw_erasures(cwt);
    let pc = choose|pc: nat|
        {
            &&& #[trigger] candidate_parity(pc, syms.len())
            &&& attempt_ok(syms, ers, pc)
            &&& forall|pc2: nat| #[trigger] candidate_parity(pc2, syms.len()) && pc2 < pc ==> !attempt_ok(syms, ers, pc2)
            &&& exists|off: int|
                #[trigger] first_header(spec_decode(pc, syms, ers)->Ok_0, pc, off) && t == header_payload(
                    spec_decode(pc, syms, ers)->Ok_0,
                    off,
                )
        };
    if pc < p {
        assert(!attempt_ok(syms, ers, pc));
    } else if pc > p {
        assert(candidate_parity(p, syms.len()));
    }
    assert(pc == p);
    let off = choose|off: int| #[trigger] first_header(d, p, off) && t == header_payload(d, off);
    if off < off0 {
        assert(!header_accepted(d, p, off));
    } else if off > off0 {
        assert(header_accepted(d, p, off0));
    }
}

/// The cell stream of a solved grid: its length prefix names the codeword,
/// whose chunks read back as the codeword's symbols, without erasures.
proof fn lemma_grid_stream(
    g: TriGrid,
    coords: Seq<(usize, usize)>,
    cs: Seq<ConstraintMask>,
    fill: Seq<u8>,
    raw: Seq<u8>,
    ns: nat,
)
    requires
        raw.len() == coords.len(),
        forall|f: int| 0 <= f < raw.len() ==> #[trigger] raw[f] == g.cell(coords[f].0 as int, coords[f].1 as int),
        cells_placed(g, coords, 6 * ns, cs, fill),
        12 + 6 * ns <= coords.len(),
        0 < 6 * ns < 531441,
        forall|i: int| 0 <= i < 6 * ns ==> #[trigger] codeword_of(g, coords, 6 * ns)[i] <= 2,
    ensures
        framed_codeword(raw) == Some(raw.subrange(12, (12 + 6 * ns) as int)),
        raw_symbols(raw.subrange(12, (12 + 6 * ns) as int)) == trit_symbols(codeword_of(g, coords, 6 * ns), ns),
        raw_erasures(raw.subrange(12, (12 + 6 * ns) as int)) == Seq::<usize>::empty(),
{
    let cw = 6 * ns;
    let w = codeword_of(g, coords, cw);
    let cwt = raw.subrange(12, 12 + cw as int);
    assert(raw.take(12) =~= spec_length_trits(cw)) by {
        assert forall|f: int| 0 <= f < 12 implies raw.take(12)[f] == spec_length_trits(cw)[f] by {
            assert(raw[f] == g.cell(coords[f].0 as int, coords[f].1 as int));
        }
    }
    law_length_roundtrip(cw);
    assert(take_upto(spec_length_trits(cw), 12) =~= spec_length_trits(cw));
    assert forall|i: int| 0 <= i < cw implies #[trigger] cwt[i] as int == w[i] by {
        assert(raw[12 + i] == g.cell(coords[12 + i].0 as int, coords[12 + i].1 as int));
    }
    assert forall|k: int| 0 <= k < ns implies !#[trigger] chunk_erased(cwt, k) && raw_symbol(cwt, k) == trit_symbol(
        w,
        k,
    ) by {
        let ch = raw_chunk(cwt, k);
        assert(ch =~= cwt.subrange(6 * k, 6 * k + 6));
        assert forall|r: int| 0 <= r < 6 implies #[trigger] ch[r] <= 2 && ch[r] as int == w[6 * k + r] by {
            assert(cwt[6 * k + r] as int == w[6 * k + r]);
        }
        if ch.contains(3u8) {
            let r = choose|r: int| 0 <= r < ch.len() && ch[r] == 3u8;
            assert(ch[r] <= 2);
        }
        assert(prefix6(ch) =~= ch);
        crate::ecc::lemma_symbol_of6(ch);
        assert(ch[0] as int == w[6 * k + 0]);
    }
    assert(raw_symbols(cwt) =~= trit_symbols(w, ns));
    let all = Seq::new(((cwt.len() + 5) / 6) as nat, |k: int| k as usize);
    assert(all.filter(erased_in(cwt)) =~= Seq::<usize>::empty()) by {
        crate::ecc::lemma_filter_none(all, erased_in(cwt), cwt);
    }
}

/// The round trip from payload to grid to payload. When the grid solver
/// lays out a byte payload and the cells are read back in the solver's
/// order, the Reed-Solomon reader recovers exactly the payload — unless,
/// before reaching the solver's parity count, some smaller parity count
/// happens to decode with an accepted header, or, at the solver's parity
/// count, a header happens to be accepted before the message's offset
/// (the reader takes the first parity count and the first header that
/// work).
pub proof fn law_grid_roundtrip(
    g: TriGrid,
    payload: Seq<u8>,
    coords: Seq<(usize, usize)>,
    cs: Seq<ConstraintMask>,
    fill: Seq<u8>,
    o: nat,
    raw: Seq<u8>,
)
    requires
        layout_ok(g, payload, coords, cs, fill, o),
        cells_placed(g, coords, 6 * num_symbols_for(coords.len()), cs, fill),
        spec_parity_count(num_symbols_for(coords.len())) + o + msg_symbols_for(payload.len()) <= num_symbols_for(
            coords.len(),
        ),
        0 < payload.len() < 531441,
        payload.len() % 6 == 0,
        all_chunks_valid(payload),
        forall|k: int| 0 <= k < cs.len() ==> #[trigger] cs[k].required_state <= 2,
        raw.len() == coords.len(),
        forall|f: int| 0 <= f < raw.len() ==> #[trigger] raw[f] == g.cell(coords[f].0 as int, coords[f].1 as int),
        6 * num_symbols_for(coords.len()) < 531441,
        ({
            let ns = num_symbols_for(coords.len());
            let p = spec_parity_count(ns);
            let c = trit_symbols(codeword_of(g, coords, 6 * ns), ns);
            &&& candidate_parity(p, ns)
            &&& forall|pc: nat|
                #[trigger] candidate_parity(pc, ns) && pc < p ==> !attempt_ok(c, Seq::<usize>::empty(), pc)
            &&& forall|off: int| 0 <= off < o ==> !#[trigger] header_accepted(c.subrange(p as int, ns as int), p, off)
        }),
    ensures
        ({
            let cwt = raw.subrange(12, (12 + 6 * num_symbols_for(coords.len())) as int);
            &&& framed_codeword(raw) == Some(cwt)
            &&& attempt_ok(raw_symbols(cwt), raw_erasures(cwt), spec_parity_count(num_symbols_for(coords.len())))
            &&& forall|t: Seq<u8>| rs_recovered(cwt, t) ==> t == payload
        }),
{
    let ns = num_symbols_for(coords.len());
    let p = spec_parity_count(ns);
    let cw = 6 * ns;
    let w = codeword_of(g, coords, cw);
    let c = trit_symbols(w, ns);
    let e = Seq::<usize>::empty();
    let cwt = raw.subrange(12, 12 + cw as int);
    // every codeword trit is 0, 1 or 2
    assert forall|i: int| 0 <= i < cw implies #[trigger] w[i] <= 2 by {
        let fx = fixed_trit(payload, coords, cs, p, o, i);
        if fx is Some {
            if in_message(i, p, o, msg_symbols_for(payload.len())) {
                let q = i - 6 * (p + o);
                lemma_digit_is_dg(message_symbol(payload, p, q / 6), q % 6);
                lemma_dg_bound(message_symbol(payload, p, q / 6));
            } else {
                lemma_last_constraint_state(cs, coords[12 + i].0 as int, coords[12 + i].1 as int);
            }
        }
    }
    lemma_grid_stream(g, coords, cs, fill, raw, ns);
    law_solver_grid_decodes(g, payload, coords, cs, fill, o, e);
    let d = c.subrange(p as int, ns as int);
    assert(p < 729);
    assert forall|k: int| 0 <= k < msg_symbols_for(payload.len()) implies #[trigger] d[o + k] == message_symbol(
        payload,
        p,
        k,
    ) by {
        assert(d[o + k] == c[p + o + k]);
    }
    crate::ecc::lemma_header_at(payload, p, d, o as int);
    assert(spec_decode(p, c, e) == Ok::<Seq<nat>, RsError>(d));
    assert(header_accepted(spec_decode(p, c, e)->Ok_0, p, o as int));
    assert(attempt_ok(c, e, p));
    assert forall|t: Seq<u8>| rs_recovered(cwt, t) implies t == payload by {
        lemma_recovered_is(cwt, p, d, o as int, payload, t);
    }
}

} // verus!
