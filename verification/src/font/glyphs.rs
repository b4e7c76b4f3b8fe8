//! The glyph names of the Adobe Glyph List that the library knows, and the
//! characters they stand for.

use vstd::prelude::*;
use crate::bytes::{eq_str, lit};
use crate::font::hex::{all_hex, hex_value, parse_radix16, radix16};
use crate::io::upper_hex_digit;
use crate::parser::lexer::{hex_val, is_hex};
use crate::text::{char_from_u32, is_scalar};
use vstd::string::StringSliceAdditionalSpecFns;

verus! {

/// The character of a glyph name in the known part of the Adobe Glyph List.
#[verifier::opaque]
pub open spec fn agl_lookup(name: Seq<u8>) -> Option<char> {
    if name == lit("A") {
        Some('A')
    } else if name == lit("B") {
        Some('B')
    } else if name == lit("C") {
        Some('C')
    } else if name == lit("D") {
        Some('D')
    } else if name == lit("E") {
        Some('E')
    } else if name == lit("F") {
        Some('F')
    } else if name == lit("G") {
        Some('G')
    } else if name == lit("H") {
        Some('H')
    } else if name == lit("I") {
        Some('I')
    } else if name == lit("J") {
        Some('J')
    } else if name == lit("K") {
        Some('K')
    } else if name == lit("L") {
        Some('L')
    } else if name == lit("M") {
        Some('M')
    } else if name == lit("N") {
        Some('N')
    } else if name == lit("O") {
        Some('O')
    } else if name == lit("P") {
        Some('P')
    } else if name == lit("Q") {
        Some('Q')
    } else if name == lit("R") {
        Some('R')
    } else if name == lit("S") {
        Some('S')
    } else if name == lit("T") {
        Some('T')
    } else if name == lit("U") {
        Some('U')
    } else if name == lit("V") {
        Some('V')
    } else if name == lit("W") {
        Some('W')
    } else if name == lit("X") {
        Some('X')
    } else if name == lit("Y") {
        Some('Y')
    } else if name == lit("Z") {
        Some('Z')
    } else if name == lit("a") {
        Some('a')
    } else if name == lit("b") {
        Some('b')
    } else if name == lit("c") {
        Some('c')
    } else if name == lit("d") {
        Some('d')
    } else if name == lit("e") {
        Some('e')
    } else if name == lit("f") {
        Some('f')
    } else if name == lit("g") {
        Some('g')
    } else if name == lit("h") {
        Some('h')
    } else if name == lit("i") {
        Some('i')
    } else if name == lit("j") {
        Some('j')
    } else if name == lit("k") {
        Some('k')
    } else if name == lit("l") {
        Some('l')
    } else if name == lit("m") {
        Some('m')
    } else if name == lit("n") {
        Some('n')
    } else if name == lit("o") {
        Some('o')
    } else if name == lit("p") {
        Some('p')
    } else if name == lit("q") {
        Some('q')
    } else if name == lit("r") {
        Some('r')
    } else if name == lit("s") {
        Some('s')
    } else if name == lit("t") {
        Some('t')
    } else if name == lit("u") {
        Some('u')
    } else if name == lit("v") {
        Some('v')
    } else if name == lit("w") {
        Some('w')
    } else if name == lit("x") {
        Some('x')
    } else if name == lit("y") {
        Some('y')
    } else if name == lit("z") {
        Some('z')
    } else if name == lit("zero") {
        Some('0')
    } else if name == lit("one") {
        Some('1')
    } else if name == lit("two") {
        Some('2')
    } else if name == lit("three") {
        Some('3')
    } else if name == lit("four") {
        Some('4')
    } else if name == lit("five") {
        Some('5')
    } else if name == lit("six") {
        Some('6')
    } else if name == lit("seven") {
        Some('7')
    } else if name == lit("eight") {
        Some('8')
    } else if name == lit("nine") {
        Some('9')
    } else if name == lit("space") {
        Some(' ')
    } else if name == lit("exclam") {
        Some('!')
    } else if name == lit("quotedbl") {
        Some('"')
    } else if name == lit("numbersign") {
        Some('#')
    } else if name == lit("dollar") {
        Some('$')
    } else if name == lit("percent") {
        Some('%')
    } else if name == lit("ampersand") {
        Some('&')
    } else if name == lit("quotesingle") {
        Some('\'')
    } else if name == lit("parenleft") {
        Some('(')
    } else if name == lit("parenright") {
        Some(')')
    } else if name == lit("asterisk") {
        Some('*')
    } else if name == lit("plus") {
        Some('+')
    } else if name == lit("comma") {
        Some(',')
    } else if name == lit("hyphen") {
        Some('-')
    } else if name == lit("period") {
        Some('.')
    } else if name == lit("slash") {
        Some('/')
    } else if name == lit("colon") {
        Some(':')
    } else if name == lit("semicolon") {
        Some(';')
    } else if name == lit("less") {
        Some('<')
    } else if name == lit("equal") {
        Some('=')
    } else if name == lit("greater") {
        Some('>')
    } else if name == lit("question") {
        Some('?')
    } else if name == lit("at") {
        Some('@')
    } else if name == lit("bracketleft") {
        Some('[')
    } else if name == lit("backslash") {
        Some('\\')
    } else if name == lit("bracketright") {
        Some(']')
    } else if name == lit("asciicircum") {
        Some('^')
    } else if name == lit("underscore") {
        Some('_')
    } else if name == lit("grave") {
        Some('`')
    } else if name == lit("braceleft") {
        Some('{')
    } else if name == lit("bar") {
        Some('|')
    } else if name == lit("braceright") {
        Some('}')
    } else if name == lit("asciitilde") {
        Some('~')
    } else if name == lit("exclamdown") {
        Some('\u{00A1}')
    } else if name == lit("cent") {
        Some('\u{00A2}')
    } else if name == lit("sterling") {
        Some('\u{00A3}')
    } else if name == lit("currency") {
        Some('\u{00A4}')
    } else if name == lit("yen") {
        Some('\u{00A5}')
    } else if name == lit("brokenbar") {
        Some('\u{00A6}')
    } else if name == lit("section") {
        Some('\u{00A7}')
    } else if name == lit("dieresis") {
        Some('\u{00A8}')
    } else if name == lit("copyright") {
        Some('\u{00A9}')
    } else if name == lit("ordfeminine") {
        Some('\u{00AA}')
    } else if name == lit("guillemotleft") {
        Some('\u{00AB}')
    } else if name == lit("logicalnot") {
        Some('\u{00AC}')
    } else if name == lit("registered") {
        Some('\u{00AE}')
    } else if name == lit("macron") {
        Some('\u{00AF}')
    } else if name == lit("degree") {
        Some('\u{00B0}')
    } else if name == lit("plusminus") {
        Some('\u{00B1}')
    } else if name == lit("twosuperior") {
        Some('\u{00B2}')
    } else if name == lit("threesuperior") {
        Some('\u{00B3}')
    } else if name == lit("acute") {
        Some('\u{00B4}')
    } else if name == lit("mu") {
        Some('\u{00B5}')
    } else if name == lit("paragraph") {
        Some('\u{00B6}')
    } else if name == lit("periodcentered") {
        Some('\u{00B7}')
    } else if name == lit("cedilla") {
        Some('\u{00B8}')
    } else if name == lit("onesuperior") {
        Some('\u{00B9}')
    } else if name == lit("ordmasculine") {
        Some('\u{00BA}')
    } else if name == lit("guillemotright") {
        Some('\u{00BB}')
    } else if name == lit("onequarter") {
        Some('\u{00BC}')
    } else if name == lit("onehalf") {
        Some('\u{00BD}')
    } else if name == lit("threequarters") {
        Some('\u{00BE}')
    } else if name == lit("questiondown") {
        Some('\u{00BF}')
    } else if name == lit("Agrave") {
        Some('\u{00C0}')
    } else if name == lit("Aacute") {
        Some('\u{00C1}')
    } else if name == lit("Acircumflex") {
        Some('\u{00C2}')
    } else if name == lit("Atilde") {
        Some('\u{00C3}')
    } else if name == lit("Adieresis") {
        Some('\u{00C4}')
    } else if name == lit("Aring") {
        Some('\u{00C5}')
    } else if name == lit("AE") {
        Some('\u{00C6}')
    } else if name == lit("Ccedilla") {
        Some('\u{00C7}')
    } else if name == lit("Egrave") {
        Some('\u{00C8}')
    } else if name == lit("Eacute") {
        Some('\u{00C9}')
    } else if name == lit("Ecircumflex") {
        Some('\u{00CA}')
    } else if name == lit("Edieresis") {
        Some('\u{00CB}')
    } else if name == lit("Igrave") {
        Some('\u{00CC}')
    } else if name == lit("Iacute") {
        Some('\u{00CD}')
    } else if name == lit("Icircumflex") {
        Some('\u{00CE}')
    } else if name == lit("Idieresis") {
        Some('\u{00CF}')
    } else if name == lit("Eth") {
        Some('\u{00D0}')
    } else if name == lit("Ntilde") {
        Some('\u{00D1}')
    } else if name == lit("Ograve") {
        Some('\u{00D2}')
    } else if name == lit("Oacute") {
        Some('\u{00D3}')
    } else if name == lit("Ocircumflex") {
        Some('\u{00D4}')
    } else if name == lit("Otilde") {
        Some('\u{00D5}')
    } else if name == lit("Odieresis") {
        Some('\u{00D6}')
    } else if name == lit("multiply") {
        Some('\u{00D7}')
    } else if name == lit("Oslash") {
        Some('\u{00D8}')
    } else if name == lit("Ugrave") {
        Some('\u{00D9}')
    } else if name == lit("Uacute") {
        Some('\u{00DA}')
    } else if name == lit("Ucircumflex") {
        Some('\u{00DB}')
    } else if name == lit("Udieresis") {
        Some('\u{00DC}')
    } else if name == lit("Yacute") {
        Some('\u{00DD}')
    } else if name == lit("Thorn") {
        Some('\u{00DE}')
    } else if name == lit("germandbls") {
        Some('\u{00DF}')
    } else if name == lit("agrave") {
        Some('\u{00E0}')
    } else if name == lit("aacute") {
        Some('\u{00E1}')
    } else if name == lit("acircumflex") {
        Some('\u{00E2}')
    } else if name == lit("atilde") {
        Some('\u{00E3}')
    } else if name == lit("adieresis") {
        Some('\u{00E4}')
    } else if name == lit("aring") {
        Some('\u{00E5}')
    } else if name == lit("ae") {
        Some('\u{00E6}')
    } else if name == lit("ccedilla") {
        Some('\u{00E7}')
    } else if name == lit("egrave") {
        Some('\u{00E8}')
    } else if name == lit("eacute") {
        Some('\u{00E9}')
    } else if name == lit("ecircumflex") {
        Some('\u{00EA}')
    } else if name == lit("edieresis") {
        Some('\u{00EB}')
    } else if name == lit("igrave") {
        Some('\u{00EC}')
    } else if name == lit("iacute") {
        Some('\u{00ED}')
    } else if name == lit("icircumflex") {
        Some('\u{00EE}')
    } else if name == lit("idieresis") {
        Some('\u{00EF}')
    } else if name == lit("eth") {
        Some('\u{00F0}')
    } else if name == lit("ntilde") {
        Some('\u{00F1}')
    } else if name == lit("ograve") {
        Some('\u{00F2}')
    } else if name == lit("oacute") {
        Some('\u{00F3}')
    } else if name == lit("ocircumflex") {
        Some('\u{00F4}')
    } else if name == lit("otilde") {
        Some('\u{00F5}')
    } else if name == lit("odieresis") {
        Some('\u{00F6}')
    } else if name == lit("divide") {
        Some('\u{00F7}')
    } else if name == lit("oslash") {
        Some('\u{00F8}')
    } else if name == lit("ugrave") {
        Some('\u{00F9}')
    } else if name == lit("uacute") {
        Some('\u{00FA}')
    } else if name == lit("ucircumflex") {
        Some('\u{00FB}')
    } else if name == lit("udieresis") {
        Some('\u{00FC}')
    } else if name == lit("yacute") {
        Some('\u{00FD}')
    } else if name == lit("thorn") {
        Some('\u{00FE}')
    } else if name == lit("ydieresis") {
        Some('\u{00FF}')
    } else if name == lit("fi") {
        Some('\u{FB01}')
    } else if name == lit("fl") {
        Some('\u{FB02}')
    } else if name == lit("endash") {
        Some('\u{2013}')
    } else if name == lit("emdash") {
        Some('\u{2014}')
    } else if name == lit("quotesinglbase") {
        Some('\u{201A}')
    } else if name == lit("quotedblbase") {
        Some('\u{201E}')
    } else if name == lit("quotedblleft") {
        Some('\u{201C}')
    } else if name == lit("quotedblright") {
        Some('\u{201D}')
    } else if name == lit("quoteleft") {
        Some('\u{2018}')
    } else if name == lit("quoteright") {
        Some('\u{2019}')
    } else if name == lit("bullet") {
        Some('\u{2022}')
    } else if name == lit("ellipsis") {
        Some('\u{2026}')
    } else if name == lit("dagger") {
        Some('\u{2020}')
    } else if name == lit("daggerdbl") {
        Some('\u{2021}')
    } else if name == lit("florin") {
        Some('\u{0192}')
    } else if name == lit("fraction") {
        Some('\u{2044}')
    } else if name == lit("perthousand") {
        Some('\u{2030}')
    } else if name == lit("guilsinglleft") {
        Some('\u{2039}')
    } else if name == lit("guilsinglright") {
        Some('\u{203A}')
    } else if name == lit("Euro") {
        Some('\u{20AC}')
    } else if name == lit("trademark") {
        Some('\u{2122}')
    } else if name == lit("OE") {
        Some('\u{0152}')
    } else if name == lit("oe") {
        Some('\u{0153}')
    } else if name == lit("Scaron") {
        Some('\u{0160}')
    } else if name == lit("scaron") {
        Some('\u{0161}')
    } else if name == lit("Zcaron") {
        Some('\u{017D}')
    } else if name == lit("zcaron") {
        Some('\u{017E}')
    } else if name == lit("Ydieresis") {
        Some('\u{0178}')
    } else if name == lit("circumflex") {
        Some('\u{02C6}')
    } else if name == lit("tilde") {
        Some('\u{02DC}')
    } else if name == lit("dotlessi") {
        Some('\u{0131}')
    } else {
        None
    }
}

/// The character of a code point, where it is one.
pub open spec fn scalar_char(v: Option<u32>) -> Option<char> {
    match v {
        Some(x) => if is_scalar(x) { Some(x as char) } else { None },
        None => None,
    }
}

/// The character a glyph name stands for: `uniXXXX` and `uXXXX`..`uXXXXXX`
/// give the code point in hexadecimal; other names, and such names whose
/// digits are not hexadecimal (`uacute`), go through the list.
pub open spec fn glyph_char(name: Seq<u8>) -> Option<char> {
    if name.len() == 7 && name[0] == 0x75 && name[1] == 0x6e && name[2] == 0x69 && radix16(name.skip(3)) is Some {
        scalar_char(radix16(name.skip(3)))
    } else if 5 <= name.len() <= 7 && name[0] == 0x75 && radix16(name.skip(1)) is Some {
        scalar_char(radix16(name.skip(1)))
    } else {
        agl_lookup(name)
    }
}

/// The glyph name `uniXXXX` of a code point below U+10000: `uni` and four
/// upper-case hexadecimal digits, most significant first.
pub open spec fn uni_glyph_name(v: int) -> Seq<u8> {
    seq![0x75u8, 0x6e, 0x69, upper_hex_digit(v / 4096 % 16), upper_hex_digit(v / 256 % 16),
        upper_hex_digit(v / 16 % 16), upper_hex_digit(v % 16)]
}

proof fn lemma_upper_hex_digit(d: int)
    requires 0 <= d < 16,
    ensures is_hex(upper_hex_digit(d)), hex_val(upper_hex_digit(d)) == d,
{
}

proof fn lemma_uni_digits(v: u32)
    requires v < 0x10000,
    ensures radix16(uni_glyph_name(v as int).skip(3)) == Some(v),
{
    let n = uni_glyph_name(v as int);
    let d = n.skip(3);
    let x = v as int;
    let (d0, d1, d2, d3) = (x / 4096 % 16, x / 256 % 16, x / 16 % 16, x % 16);
    lemma_upper_hex_digit(d0);
    lemma_upper_hex_digit(d1);
    lemma_upper_hex_digit(d2);
    lemma_upper_hex_digit(d3);
    assert(d =~= seq![upper_hex_digit(d0), upper_hex_digit(d1), upper_hex_digit(d2), upper_hex_digit(d3)]);
    assert(all_hex(d));
    assert(d.drop_last().drop_last().drop_last().drop_last().len() == 0);
    assert(hex_value(d) == ((d0 * 16 + d1) * 16 + d2) * 16 + d3) by {
        reveal_with_fuel(hex_value, 5);
        assert(d.drop_last() =~= seq![upper_hex_digit(d0), upper_hex_digit(d1), upper_hex_digit(d2)]);
        assert(d.drop_last().drop_last() =~= seq![upper_hex_digit(d0), upper_hex_digit(d1)]);
        assert(d.drop_last().drop_last().drop_last() =~= seq![upper_hex_digit(d0)]);
    }
    assert(((d0 * 16 + d1) * 16 + d2) * 16 + d3 == x) by {
        let q1 = x / 16;
        let q2 = x / 256;
        let q3 = x / 4096;
        vstd::arithmetic::div_mod::lemma_div_denominator(x, 16, 16);
        vstd::arithmetic::div_mod::lemma_div_denominator(x, 256, 16);
        vstd::arithmetic::div_mod::lemma_fundamental_div_mod(x, 16);
        vstd::arithmetic::div_mod::lemma_fundamental_div_mod(q1, 16);
        vstd::arithmetic::div_mod::lemma_fundamental_div_mod(q2, 16);
        assert(q3 < 16);
        vstd::arithmetic::div_mod::lemma_small_mod(q3 as nat, 16);
        assert(((d0 * 16 + d1) * 16 + d2) * 16 + d3 == x) by (nonlinear_arith)
            requires x == 16 * q1 + d3, q1 == 16 * q2 + d2, q2 == 16 * q3 + d1, d0 == q3;
    }
    assert(radix16(d) == Some(v));
}

/// The glyph name `uniXXXX` stands for the character U+XXXX, for every
/// code point below U+10000 that is not a surrogate.
pub proof fn lemma_uni_glyph_name(v: u32)
    requires v < 0x10000, !(0xD800 <= v <= 0xDFFF),
    ensures glyph_char(uni_glyph_name(v as int)) == Some(v as char),
{
    let n = uni_glyph_name(v as int);
    lemma_uni_digits(v);
    assert(n.len() == 7 && n[0] == 0x75 && n[1] == 0x6e && n[2] == 0x69);
    assert(is_scalar(v));
}

#[verifier::rlimit(60)]
fn agl_find(name: &[u8]) -> (r: Option<char>)
    ensures r == agl_lookup(name@),
{
    reveal(agl_lookup);
    if eq_str(name, "A") { return Some('A'); }
    if eq_str(name, "B") { return Some('B'); }
    if eq_str(name, "C") { return Some('C'); }
    if eq_str(name, "D") { return Some('D'); }
    if eq_str(name, "E") { return Some('E'); }
    if eq_str(name, "F") { return Some('F'); }
    if eq_str(name, "G") { return Some('G'); }
    if eq_str(name, "H") { return Some('H'); }
    if eq_str(name, "I") { return Some('I'); }
    if eq_str(name, "J") { return Some('J'); }
    if eq_str(name, "K") { return Some('K'); }
    if eq_str(name, "L") { return Some('L'); }
    if eq_str(name, "M") { return Some('M'); }
    if eq_str(name, "N") { return Some('N'); }
    if eq_str(name, "O") { return Some('O'); }
    if eq_str(name, "P") { return Some('P'); }
    if eq_str(name, "Q") { return Some('Q'); }
    if eq_str(name, "R") { return Some('R'); }
    if eq_str(name, "S") { return Some('S'); }
    if eq_str(name, "T") { return Some('T'); }
    if eq_str(name, "U") { return Some('U'); }
    if eq_str(name, "V") { return Some('V'); }
    if eq_str(name, "W") { return Some('W'); }
    if eq_str(name, "X") { return Some('X'); }
    if eq_str(name, "Y") { return Some('Y'); }
    if eq_str(name, "Z") { return Some('Z'); }
    if eq_str(name, "a") { return Some('a'); }
    if eq_str(name, "b") { return Some('b'); }
    if eq_str(name, "c") { return Some('c'); }
    if eq_str(name, "d") { return Some('d'); }
    if eq_str(name, "e") { return Some('e'); }
    if eq_str(name, "f") { return Some('f'); }
    if eq_str(name, "g") { return Some('g'); }
    if eq_str(name, "h") { return Some('h'); }
    if eq_str(name, "i") { return Some('i'); }
    if eq_str(name, "j") { return Some('j'); }
    if eq_str(name, "k") { return Some('k'); }
    if eq_str(name, "l") { return Some('l'); }
    if eq_str(name, "m") { return Some('m'); }
    if eq_str(name, "n") { return Some('n'); }
    if eq_str(name, "o") { return Some('o'); }
    if eq_str(name, "p") { return Some('p'); }
    if eq_str(name, "q") { return Some('q'); }
    if eq_str(name, "r") { return Some('r'); }
    if eq_str(name, "s") { return Some('s'); }
    if eq_str(name, "t") { return Some('t'); }
    if eq_str(name, "u") { return Some('u'); }
    if eq_str(name, "v") { return Some('v'); }
    if eq_str(name, "w") { return Some('w'); }
    if eq_str(name, "x") { return Some('x'); }
    if eq_str(name, "y") { return Some('y'); }
    if eq_str(name, "z") { return Some('z'); }
    if eq_str(name, "zero") { return Some('0'); }
    if eq_str(name, "one") { return Some('1'); }
    if eq_str(name, "two") { return Some('2'); }
    if eq_str(name, "three") { return Some('3'); }
    if eq_str(name, "four") { return Some('4'); }
    if eq_str(name, "five") { return Some('5'); }
    if eq_str(name, "six") { return Some('6'); }
    if eq_str(name, "seven") { return Some('7'); }
    if eq_str(name, "eight") { return Some('8'); }
    if eq_str(name, "nine") { return Some('9'); }
    if eq_str(name, "space") { return Some(' '); }
    if eq_str(name, "exclam") { return Some('!'); }
    if eq_str(name, "quotedbl") { return Some('"'); }
    if eq_str(name, "numbersign") { return Some('#'); }
    if eq_str(name, "dollar") { return Some('$'); }
    if eq_str(name, "percent") { return Some('%'); }
    if eq_str(name, "ampersand") { return Some('&'); }
    if eq_str(name, "quotesingle") { return Some('\''); }
    if eq_str(name, "parenleft") { return Some('('); }
    if eq_str(name, "parenright") { return Some(')'); }
    if eq_str(name, "asterisk") { return Some('*'); }
    if eq_str(name, "plus") { return Some('+'); }
    if eq_str(name, "comma") { return Some(','); }
    if eq_str(name, "hyphen") { return Some('-'); }
    if eq_str(name, "period") { return Some('.'); }
    if eq_str(name, "slash") { return Some('/'); }
    if eq_str(name, "colon") { return Some(':'); }
    if eq_str(name, "semicolon") { return Some(';'); }
    if eq_str(name, "less") { return Some('<'); }
    if eq_str(name, "equal") { return Some('='); }
    if eq_str(name, "greater") { return Some('>'); }
    if eq_str(name, "question") { return Some('?'); }
    if eq_str(name, "at") { return Some('@'); }
    if eq_str(name, "bracketleft") { return Some('['); }
    if eq_str(name, "backslash") { return Some('\\'); }
    if eq_str(name, "bracketright") { return Some(']'); }
    if eq_str(name, "asciicircum") { return Some('^'); }
    if eq_str(name, "underscore") { return Some('_'); }
    if eq_str(name, "grave") { return Some('`'); }
    if eq_str(name, "braceleft") { return Some('{'); }
    if eq_str(name, "bar") { return Some('|'); }
    if eq_str(name, "braceright") { return Some('}'); }
    if eq_str(name, "asciitilde") { return Some('~'); }
    if eq_str(name, "exclamdown") { return Some('\u{00A1}'); }
    if eq_str(name, "cent") { return Some('\u{00A2}'); }
    if eq_str(name, "sterling") { return Some('\u{00A3}'); }
    if eq_str(name, "currency") { return Some('\u{00A4}'); }
    if eq_str(name, "yen") { return Some('\u{00A5}'); }
    if eq_str(name, "brokenbar") { return Some('\u{00A6}'); }
    if eq_str(name, "section") { return Some('\u{00A7}'); }
    if eq_str(name, "dieresis") { return Some('\u{00A8}'); }
    if eq_str(name, "copyright") { return Some('\u{00A9}'); }
    if eq_str(name, "ordfeminine") { return Some('\u{00AA}'); }
    if eq_str(name, "guillemotleft") { return Some('\u{00AB}'); }
    if eq_str(name, "logicalnot") { return Some('\u{00AC}'); }
    if eq_str(name, "registered") { return Some('\u{00AE}'); }
    if eq_str(name, "macron") { return Some('\u{00AF}'); }
    if eq_str(name, "degree") { return Some('\u{00B0}'); }
    if eq_str(name, "plusminus") { return Some('\u{00B1}'); }
    if eq_str(name, "twosuperior") { return Some('\u{00B2}'); }
    if eq_str(name, "threesuperior") { return Some('\u{00B3}'); }
    if eq_str(name, "acute") { return Some('\u{00B4}'); }
    if eq_str(name, "mu") { return Some('\u{00B5}'); }
    if eq_str(name, "paragraph") { return Some('\u{00B6}'); }
    if eq_str(name, "periodcentered") { return Some('\u{00B7}'); }
    if eq_str(name, "cedilla") { return Some('\u{00B8}'); }
    if eq_str(name, "onesuperior") { return Some('\u{00B9}'); }
    if eq_str(name, "ordmasculine") { return Some('\u{00BA}'); }
    if eq_str(name, "guillemotright") { return Some('\u{00BB}'); }
    if eq_str(name, "onequarter") { return Some('\u{00BC}'); }
    if eq_str(name, "onehalf") { return Some('\u{00BD}'); }
    if eq_str(name, "threequarters") { return Some('\u{00BE}'); }
    if eq_str(name, "questiondown") { return Some('\u{00BF}'); }
    if eq_str(name, "Agrave") { return Some('\u{00C0}'); }
    if eq_str(name, "Aacute") { return Some('\u{00C1}'); }
    if eq_str(name, "Acircumflex") { return Some('\u{00C2}'); }
    if eq_str(name, "Atilde") { return Some('\u{00C3}'); }
    if eq_str(name, "Adieresis") { return Some('\u{00C4}'); }
    if eq_str(name, "Aring") { return Some('\u{00C5}'); }
    if eq_str(name, "AE") { return Some('\u{00C6}'); }
    if eq_str(name, "Ccedilla") { return Some('\u{00C7}'); }
    if eq_str(name, "Egrave") { return Some('\u{00C8}'); }
    if eq_str(name, "Eacute") { return Some('\u{00C9}'); }
    if eq_str(name, "Ecircumflex") { return Some('\u{00CA}'); }
    if eq_str(name, "Edieresis") { return Some('\u{00CB}'); }
    if eq_str(name, "Igrave") { return Some('\u{00CC}'); }
    if eq_str(name, "Iacute") { return Some('\u{00CD}'); }
    if eq_str(name, "Icircumflex") { return Some('\u{00CE}'); }
    if eq_str(name, "Idieresis") { return Some('\u{00CF}'); }
    if eq_str(name, "Eth") { return Some('\u{00D0}'); }
    if eq_str(name, "Ntilde") { return Some('\u{00D1}'); }
    if eq_str(name, "Ograve") { return Some('\u{00D2}'); }
    if eq_str(name, "Oacute") { return Some('\u{00D3}'); }
    if eq_str(name, "Ocircumflex") { return Some('\u{00D4}'); }
    if eq_str(name, "Otilde") { return Some('\u{00D5}'); }
    if eq_str(name, "Odieresis") { return Some('\u{00D6}'); }
    if eq_str(name, "multiply") { return Some('\u{00D7}'); }
    if eq_str(name, "Oslash") { return Some('\u{00D8}'); }
    if eq_str(name, "Ugrave") { return Some('\u{00D9}'); }
    if eq_str(name, "Uacute") { return Some('\u{00DA}'); }
    if eq_str(name, "Ucircumflex") { return Some('\u{00DB}'); }
    if eq_str(name, "Udieresis") { return Some('\u{00DC}'); }
    if eq_str(name, "Yacute") { return Some('\u{00DD}'); }
    if eq_str(name, "Thorn") { return Some('\u{00DE}'); }
    if eq_str(name, "germandbls") { return Some('\u{00DF}'); }
    if eq_str(name, "agrave") { return Some('\u{00E0}'); }
    if eq_str(name, "aacute") { return Some('\u{00E1}'); }
    if eq_str(name, "acircumflex") { return Some('\u{00E2}'); }
    if eq_str(name, "atilde") { return Some('\u{00E3}'); }
    if eq_str(name, "adieresis") { return Some('\u{00E4}'); }
    if eq_str(name, "aring") { return Some('\u{00E5}'); }
    if eq_str(name, "ae") { return Some('\u{00E6}'); }
    if eq_str(name, "ccedilla") { return Some('\u{00E7}'); }
    if eq_str(name, "egrave") { return Some('\u{00E8}'); }
    if eq_str(name, "eacute") { return Some('\u{00E9}'); }
    if eq_str(name, "ecircumflex") { return Some('\u{00EA}'); }
    if eq_str(name, "edieresis") { return Some('\u{00EB}'); }
    if eq_str(name, "igrave") { return Some('\u{00EC}'); }
    if eq_str(name, "iacute") { return Some('\u{00ED}'); }
    if eq_str(name, "icircumflex") { return Some('\u{00EE}'); }
    if eq_str(name, "idieresis") { return Some('\u{00EF}'); }
    if eq_str(name, "eth") { return Some('\u{00F0}'); }
    if eq_str(name, "ntilde") { return Some('\u{00F1}'); }
    if eq_str(name, "ograve") { return Some('\u{00F2}'); }
    if eq_str(name, "oacute") { return Some('\u{00F3}'); }
    if eq_str(name, "ocircumflex") { return Some('\u{00F4}'); }
    if eq_str(name, "otilde") { return Some('\u{00F5}'); }
    if eq_str(name, "odieresis") { return Some('\u{00F6}'); }
    if eq_str(name, "divide") { return Some('\u{00F7}'); }
    if eq_str(name, "oslash") { return Some('\u{00F8}'); }
    if eq_str(name, "ugrave") { return Some('\u{00F9}'); }
    if eq_str(name, "uacute") { return Some('\u{00FA}'); }
    if eq_str(name, "ucircumflex") { return Some('\u{00FB}'); }
    if eq_str(name, "udieresis") { return Some('\u{00FC}'); }
    if eq_str(name, "yacute") { return Some('\u{00FD}'); }
    if eq_str(name, "thorn") { return Some('\u{00FE}'); }
    if eq_str(name, "ydieresis") { return Some('\u{00FF}'); }
    if eq_str(name, "fi") { return Some('\u{FB01}'); }
    if eq_str(name, "fl") { return Some('\u{FB02}'); }
    if eq_str(name, "endash") { return Some('\u{2013}'); }
    if eq_str(name, "emdash") { return Some('\u{2014}'); }
    if eq_str(name, "quotesinglbase") { return Some('\u{201A}'); }
    if eq_str(name, "quotedblbase") { return Some('\u{201E}'); }
    if eq_str(name, "quotedblleft") { return Some('\u{201C}'); }
    if eq_str(name, "quotedblright") { return Some('\u{201D}'); }
    if eq_str(name, "quoteleft") { return Some('\u{2018}'); }
    if eq_str(name, "quoteright") { return Some('\u{2019}'); }
    if eq_str(name, "bullet") { return Some('\u{2022}'); }
    if eq_str(name, "ellipsis") { return Some('\u{2026}'); }
    if eq_str(name, "dagger") { return Some('\u{2020}'); }
    if eq_str(name, "daggerdbl") { return Some('\u{2021}'); }
    if eq_str(name, "florin") { return Some('\u{0192}'); }
    if eq_str(name, "fraction") { return Some('\u{2044}'); }
    if eq_str(name, "perthousand") { return Some('\u{2030}'); }
    if eq_str(name, "guilsinglleft") { return Some('\u{2039}'); }
    if eq_str(name, "guilsinglright") { return Some('\u{203A}'); }
    if eq_str(name, "Euro") { return Some('\u{20AC}'); }
    if eq_str(name, "trademark") { return Some('\u{2122}'); }
    if eq_str(name, "OE") { return Some('\u{0152}'); }
    if eq_str(name, "oe") { return Some('\u{0153}'); }
    if eq_str(name, "Scaron") { return Some('\u{0160}'); }
    if eq_str(name, "scaron") { return Some('\u{0161}'); }
    if eq_str(name, "Zcaron") { return Some('\u{017D}'); }
    if eq_str(name, "zcaron") { return Some('\u{017E}'); }
    if eq_str(name, "Ydieresis") { return Some('\u{0178}'); }
    if eq_str(name, "circumflex") { return Some('\u{02C6}'); }
    if eq_str(name, "tilde") { return Some('\u{02DC}'); }
    if eq_str(name, "dotlessi") { return Some('\u{0131}'); }
    None
}

/// The character a glyph name (as bytes) stands for.
pub fn glyph_bytes_to_char(name: &[u8]) -> (r: Option<char>)
    ensures r == glyph_char(name@),
{
    let n = name.len();
    if n == 7 && name[0] == 0x75 && name[1] == 0x6e && name[2] == 0x69 {
        let hex = slice_from(name, 3);
        if let Some(v) = parse_radix16(hex) {
            return char_from_u32(v);
        }
    }
    if 5 <= n && n <= 7 && name[0] == 0x75 {
        let hex = slice_from(name, 1);
        if let Some(v) = parse_radix16(hex) {
            return char_from_u32(v);
        }
    }
    agl_find(name)
}

fn slice_from(s: &[u8], k: usize) -> (r: &[u8])
    requires k <= s@.len(),
    ensures r@ == s@.skip(k as int),
{
    let r = vstd::slice::slice_subrange(s, k, s.len());
    proof { assert(r@ =~= s@.skip(k as int)); }
    r
}

/// Map an Adobe glyph name to a Unicode character.
pub fn glyph_name_to_char(name: &str) -> (r: Option<char>)
    ensures r == glyph_char(name.spec_bytes()),
{
    glyph_bytes_to_char(name.as_bytes())
}

} // verus!
