use vstd::prelude::*;

verus! {

/// Bytes that stand for the character with the same code: NUL and the
/// ASCII range from space to DEL.
pub open spec fn cp437_identity() -> Seq<char> {
    Seq::new(256, |i: int| (i as u8) as char)
}

/// The Unicode character that each code page 437 byte stands for: itself
/// for NUL and ASCII, a graphic for the control codes and the upper half.
/// The graphics are listed in the order of their Unicode code points.
pub open spec fn cp437_table() -> Seq<char> {
    cp437_identity()
        .update(255, '\u{a0}').update(173, '¡').update(155, '¢').update(156, '£').update(157, '¥').update(21, '§')
        .update(166, 'ª').update(174, '«').update(170, '¬').update(248, '°').update(241, '±').update(253, '²')
        .update(230, 'µ').update(20, '¶').update(250, '·').update(167, 'º').update(175, '»').update(172, '¼')
        .update(171, '½').update(168, '¿').update(142, 'Ä').update(143, 'Å').update(146, 'Æ').update(128, 'Ç')
        .update(144, 'É').update(165, 'Ñ').update(153, 'Ö').update(154, 'Ü').update(225, 'ß').update(133, 'à')
        .update(160, 'á').update(131, 'â').update(132, 'ä').update(134, 'å').update(145, 'æ').update(135, 'ç')
        .update(138, 'è').update(130, 'é').update(136, 'ê').update(137, 'ë').update(141, 'ì').update(161, 'í')
        .update(140, 'î').update(139, 'ï').update(164, 'ñ').update(149, 'ò').update(162, 'ó').update(147, 'ô')
        .update(148, 'ö').update(246, '÷').update(151, 'ù').update(163, 'ú').update(150, 'û').update(129, 'ü')
        .update(152, 'ÿ').update(159, 'ƒ').update(226, 'Γ').update(233, 'Θ').update(228, 'Σ').update(232, 'Φ')
        .update(234, 'Ω').update(224, 'α').update(235, 'δ').update(238, 'ε').update(227, 'π').update(229, 'σ')
        .update(231, 'τ').update(237, 'φ').update(7, '•').update(19, '‼').update(252, 'ⁿ').update(158, '₧')
        .update(27, '←').update(24, '↑').update(26, '→').update(25, '↓').update(29, '↔').update(18, '↕')
        .update(23, '↨').update(249, '∙').update(251, '√').update(236, '∞').update(28, '∟').update(239, '∩')
        .update(247, '≈').update(240, '≡').update(243, '≤').update(242, '≥').update(169, '⌐').update(244, '⌠')
        .update(245, '⌡').update(196, '─').update(179, '│').update(218, '┌').update(191, '┐').update(192, '└')
        .update(217, '┘').update(195, '├').update(180, '┤').update(194, '┬').update(193, '┴').update(197, '┼')
        .update(205, '═').update(186, '║').update(213, '╒').update(214, '╓').update(201, '╔').update(184, '╕')
        .update(183, '╖').update(187, '╗').update(212, '╘').update(211, '╙').update(200, '╚').update(190, '╛')
        .update(189, '╜').update(188, '╝').update(198, '╞').update(199, '╟').update(204, '╠').update(181, '╡')
        .update(182, '╢').update(185, '╣').update(209, '╤').update(210, '╥').update(203, '╦').update(207, '╧')
        .update(208, '╨').update(202, '╩').update(216, '╪').update(215, '╫').update(206, '╬').update(223, '▀')
        .update(220, '▄').update(219, '█').update(221, '▌').update(222, '▐').update(176, '░').update(177, '▒')
        .update(178, '▓').update(254, '■').update(22, '▬').update(30, '▲').update(16, '►').update(31, '▼')
        .update(17, '◄').update(9, '○').update(8, '◘').update(10, '◙').update(1, '☺').update(2, '☻')
        .update(15, '☼').update(12, '♀').update(11, '♂').update(6, '♠').update(5, '♣').update(3, '♥')
        .update(4, '♦').update(13, '♪').update(14, '♫')
}

/// The code page 437 table, one entry per byte value.
pub fn cp437_array() -> (t: Vec<char>)
    ensures
        t@ == cp437_table(),
        t.len() == 256,
{
    let mut t: Vec<char> = Vec::new();
    let mut i: usize = 0;
    while i < 256
        invariant
            i <= 256,
            t@ == cp437_identity().subrange(0, i as int),
        decreases 256 - i,
    {
        t.push((i as u8) as char);
        proof {
            assert(t@ =~= cp437_identity().subrange(0, i + 1));
        }
        i = i + 1;
    }
    assert(t@ =~= cp437_identity());
    t.set(255, '\u{a0}');
    t.set(173, '¡');
    t.set(155, '¢');
    t.set(156, '£');
    t.set(157, '¥');
    t.set(21, '§');
    t.set(166, 'ª');
    t.set(174, '«');
    t.set(170, '¬');
    t.set(248, '°');
    t.set(241, '±');
    t.set(253, '²');
    t.set(230, 'µ');
    t.set(20, '¶');
    t.set(250, '·');
    t.set(167, 'º');
    t.set(175, '»');
    t.set(172, '¼');
    t.set(171, '½');
    t.set(168, '¿');
    t.set(142, 'Ä');
    t.set(143, 'Å');
    t.set(146, 'Æ');
    t.set(128, 'Ç');
    t.set(144, 'É');
    t.set(165, 'Ñ');
    t.set(153, 'Ö');
    t.set(154, 'Ü');
    t.set(225, 'ß');
    t.set(133, 'à');
    t.set(160, 'á');
    t.set(131, 'â');
    t.set(132, 'ä');
    t.set(134, 'å');
    t.set(145, 'æ');
    t.set(135, 'ç');
    t.set(138, 'è');
    t.set(130, 'é');
    t.set(136, 'ê');
    t.set(137, 'ë');
    t.set(141, 'ì');
    t.set(161, 'í');
    t.set(140, 'î');
    t.set(139, 'ï');
    t.set(164, 'ñ');
    t.set(149, 'ò');
    t.set(162, 'ó');
    t.set(147, 'ô');
    t.set(148, 'ö');
    t.set(246, '÷');
    t.set(151, 'ù');
    t.set(163, 'ú');
    t.set(150, 'û');
    t.set(129, 'ü');
    t.set(152, 'ÿ');
    t.set(159, 'ƒ');
    t.set(226, 'Γ');
    t.set(233, 'Θ');
    t.set(228, 'Σ');
    t.set(232, 'Φ');
    t.set(234, 'Ω');
    t.set(224, 'α');
    t.set(235, 'δ');
    t.set(238, 'ε');
    t.set(227, 'π');
    t.set(229, 'σ');
    t.set(231, 'τ');
    t.set(237, 'φ');
    t.set(7, '•');
    t.set(19, '‼');
    t.set(252, 'ⁿ');
    t.set(158, '₧');
    t.set(27, '←');
    t.set(24, '↑');
    t.set(26, '→');
    t.set(25, '↓');
    t.set(29, '↔');
    t.set(18, '↕');
    t.set(23, '↨');
    t.set(249, '∙');
    t.set(251, '√');
    t.set(236, '∞');
    t.set(28, '∟');
    t.set(239, '∩');
    t.set(247, '≈');
    t.set(240, '≡');
    t.set(243, '≤');
    t.set(242, '≥');
    t.set(169, '⌐');
    t.set(244, '⌠');
    t.set(245, '⌡');
    t.set(196, '─');
    t.set(179, '│');
    t.set(218, '┌');
    t.set(191, '┐');
    t.set(192, '└');
    t.set(217, '┘');
    t.set(195, '├');
    t.set(180, '┤');
    t.set(194, '┬');
    t.set(193, '┴');
    t.set(197, '┼');
    t.set(205, '═');
    t.set(186, '║');
    t.set(213, '╒');
    t.set(214, '╓');
    t.set(201, '╔');
    t.set(184, '╕');
    t.set(183, '╖');
    t.set(187, '╗');
    t.set(212, '╘');
    t.set(211, '╙');
    t.set(200, '╚');
    t.set(190, '╛');
    t.set(189, '╜');
    t.set(188, '╝');
    t.set(198, '╞');
    t.set(199, '╟');
    t.set(204, '╠');
    t.set(181, '╡');
    t.set(182, '╢');
    t.set(185, '╣');
    t.set(209, '╤');
    t.set(210, '╥');
    t.set(203, '╦');
    t.set(207, '╧');
    t.set(208, '╨');
    t.set(202, '╩');
    t.set(216, '╪');
    t.set(215, '╫');
    t.set(206, '╬');
    t.set(223, '▀');
    t.set(220, '▄');
    t.set(219, '█');
    t.set(221, '▌');
    t.set(222, '▐');
    t.set(176, '░');
    t.set(177, '▒');
    t.set(178, '▓');
    t.set(254, '■');
    t.set(22, '▬');
    t.set(30, '▲');
    t.set(16, '►');
    t.set(31, '▼');
    t.set(17, '◄');
    t.set(9, '○');
    t.set(8, '◘');
    t.set(10, '◙');
    t.set(1, '☺');
    t.set(2, '☻');
    t.set(15, '☼');
    t.set(12, '♀');
    t.set(11, '♂');
    t.set(6, '♠');
    t.set(5, '♣');
    t.set(3, '♥');
    t.set(4, '♦');
    t.set(13, '♪');
    t.set(14, '♫');
    assert(t@ =~= cp437_table());
    t
}

/// The first table index at or after `i` that holds `ch`.
pub open spec fn cp437_find(ch: char, i: int) -> Option<int>
    decreases 256 - i,
{
    if i >= 256 || i < 0 {
        None
    } else if cp437_table()[i] == ch {
        Some(i)
    } else {
        cp437_find(ch, i + 1)
    }
}

/// The byte that stands for `ch` in code page 437: the first table index
/// that holds it, or `?` for a character the code page lacks.
pub open spec fn cp437_byte(ch: char) -> u8 {
    match cp437_find(ch, 0) {
        Some(i) => i as u8,
        None => 63u8,
    }
}

pub fn cp437_byte_exec(table: &Vec<char>, ch: char) -> (b: u8)
    requires
        table@ == cp437_table(),
        table.len() == 256,
    ensures
        b == cp437_byte(ch),
{
    let mut i: usize = 0;
    while i < 256
        invariant
            i <= 256,
            table@ == cp437_table(),
            table.len() == 256,
            cp437_find(ch, 0) == cp437_find(ch, i as int),
        decreases 256 - i,
    {
        if table[i] == ch {
            return i as u8;
        }
        i = i + 1;
    }
    63
}

} // verus!
