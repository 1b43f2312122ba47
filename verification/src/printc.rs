//! Pieces of C emission that decide how a value is written: character literals, the base a
//! constant is printed in, which operations give constants a sign, and which SUBPIECEs print
//! as casts.

use vstd::prelude::*;
use vstd::arithmetic::power2::{lemma2_to64, pow2};

use crate::funcdata::{lone_descend_spec, op_wf, vn_wf, BlockId, Funcdata, OpId, VarnodeId};
use crate::opcode::OpCode;
use crate::ptrarith::{sext_const, sext_const_spec};
use crate::space::{byte_mask, calc_mask};
use crate::types::{type_size, type_wf, Datatype};

verus! {

/// Appends `c` to `s` (`String::push`).
#[verifier::external_body]
fn push_char(s: &mut String, c: char)
    ensures
        final(s)@ == old(s)@.push(c),
{
    s.push(c);
}

/// Does code point `cp` need escaping inside a C character literal? The C0 controls, the
/// back-slash and both quotes, DEL and the C1 controls (with no-break space) do; printable
/// ASCII and Latin-1 above 0xa0 do not; anything wider does.
pub open spec fn needs_escape(cp: u32) -> bool {
    if cp < 0x20 {
        true
    } else if cp < 0x7f {
        cp == 92 || cp == 0x22 || cp == 0x27
    } else if cp < 0x100 {
        cp <= 0xa0
    } else {
        true
    }
}

/// The lower-case hexadecimal digit for `d < 16`.
pub open spec fn hex_char(d: u32) -> char {
    if d < 10 {
        (d + 48) as char
    } else {
        (d + 87) as char
    }
}

/// The lowest `n` hexadecimal digits of `v`, most significant first.
pub open spec fn hex_digits(v: u32, n: nat) -> Seq<char>
    decreases n,
{
    if n == 0 {
        Seq::empty()
    } else {
        hex_digits(v / 16, (n - 1) as nat).push(hex_char(v % 16))
    }
}

/// How many hex digits an escape of `cp` uses: 2, 4 or 8.
pub open spec fn escape_width(cp: u32) -> nat {
    if cp < 256 {
        2
    } else if cp < 65536 {
        4
    } else {
        8
    }
}

/// `\xNN`, `\xNNNN` or `\xNNNNNNNN`: the code point in hex, zero-padded to its width.
pub open spec fn hex_escape_spec(cp: u32) -> Seq<char> {
    seq!['\\', 'x'] + hex_digits(cp, escape_width(cp))
}

/// How code point `cp` is written inside a C character literal: itself when it needs no
/// escape, else a named C escape (`\0 \a \b \t \n \v \f \r \\ \" \'`), else a hex escape.
pub open spec fn unicode_spec(cp: u32) -> Seq<char> {
    if !needs_escape(cp) {
        seq![cp as char]
    } else if cp == 0 {
        seq!['\\', '0']
    } else if cp == 7 {
        seq!['\\', 'a']
    } else if cp == 8 {
        seq!['\\', 'b']
    } else if cp == 9 {
        seq!['\\', 't']
    } else if cp == 10 {
        seq!['\\', 'n']
    } else if cp == 11 {
        seq!['\\', 'v']
    } else if cp == 12 {
        seq!['\\', 'f']
    } else if cp == 13 {
        seq!['\\', 'r']
    } else if cp == 92 {
        seq!['\\', '\\']
    } else if cp == 0x22 {
        seq!['\\', '"']
    } else if cp == 0x27 {
        seq!['\\', '\'']
    } else {
        hex_escape_spec(cp)
    }
}

fn hex_digit(d: u32) -> (r: char)
    requires
        d < 16,
    ensures
        r == hex_char(d),
{
    match d {
        0 => '0',
        1 => '1',
        2 => '2',
        3 => '3',
        4 => '4',
        5 => '5',
        6 => '6',
        7 => '7',
        8 => '8',
        9 => '9',
        10 => 'a',
        11 => 'b',
        12 => 'c',
        13 => 'd',
        14 => 'e',
        _ => 'f',
    }
}

/// Append the lowest `n` hex digits of `v` to `s`, most significant first.
fn push_hex(s: &mut String, v: u32, n: u32)
    ensures
        final(s)@ == old(s)@ + hex_digits(v, n as nat),
    decreases n,
{
    if n == 0 {
        assert(hex_digits(v, 0) =~= Seq::<char>::empty());
        assert(s@ =~= old(s)@ + Seq::<char>::empty());
        return;
    }
    push_hex(s, v / 16, n - 1);
    push_char(s, hex_digit(v % 16));
    assert(s@ =~= old(s)@ + hex_digits(v, n as nat));
}

/// `cp` as a hex escape, zero-padded to the width the code point needs.
fn char_hex_escape(cp: u32) -> (r: String)
    ensures
        r@ == hex_escape_spec(cp),
{
    let mut s = String::new();
    push_char(&mut s, '\\');
    push_char(&mut s, 'x');
    let width: u32 = if cp < 256 {
        2
    } else if cp < 65536 {
        4
    } else {
        8
    };
    push_hex(&mut s, cp, width);
    assert(s@ =~= hex_escape_spec(cp));
    s
}

/// A two-character escape.
fn escape2(c: char) -> (r: String)
    ensures
        r@ == seq!['\\', c],
{
    let mut s = String::new();
    push_char(&mut s, '\\');
    push_char(&mut s, c);
    assert(s@ =~= seq!['\\', c]);
    s
}

/// How code point `cp` is written inside a C character literal (see [`unicode_spec`]).
fn print_unicode(cp: u32) -> (r: String)
    ensures
        r@ == unicode_spec(cp),
{
    let needs = if cp < 0x20 {
        true
    } else if cp < 0x7f {
        cp == 92 || cp == 0x22 || cp == 0x27
    } else if cp < 0x100 {
        cp <= 0xa0
    } else {
        true
    };
    if !needs {
        let mut s = String::new();
        let c = (cp as u8) as char;
        push_char(&mut s, c);
        assert(s@ =~= seq![cp as char]);
        return s;
    }
    match cp {
        0 => escape2('0'),
        7 => escape2('a'),
        8 => escape2('b'),
        9 => escape2('t'),
        10 => escape2('n'),
        11 => escape2('v'),
        12 => escape2('f'),
        13 => escape2('r'),
        92 => escape2('\\'),
        0x22 => escape2('"'),
        0x27 => escape2('\''),
        _ => char_hex_escape(cp),
    }
}

/// A `char`-typed constant of `size` bytes as a C character literal: the value cut to its size
/// and quoted, escaped as [`unicode_spec`] says; `None` for a single byte of 0x80 or more, which
/// is not a code point (it is printed as an integer instead).
pub open spec fn char_constant_spec(val: u64, size: u32) -> Option<Seq<char>> {
    let masked: u64 = if size == 0 || size >= 8 { val } else { val & byte_mask(size as nat) };
    if size == 1 && masked >= 0x80 {
        None
    } else {
        Some(seq!['\''] + unicode_spec(masked as u32) + seq!['\''])
    }
}

/// A `char`-typed constant as a C character literal (see [`char_constant_spec`]).
pub fn push_char_constant(val: u64, size: u32) -> (r: Option<String>)
    ensures
        match char_constant_spec(val, size) {
            Some(text) => r matches Some(s) && s@ == text,
            None => r is None,
        },
{
    let masked = if size == 0 || size >= 8 {
        val
    } else {
        val & calc_mask(size)
    };
    if size == 1 && masked >= 0x80 {
        return None;
    }
    let mut s = String::new();
    push_char(&mut s, '\'');
    let body = print_unicode(#[verifier::truncate] (masked as u32));
    s.append(body.as_str());
    push_char(&mut s, '\'');
    assert(s@ =~= seq!['\''] + unicode_spec(masked as u32) + seq!['\'']);
    Some(s)
}

/// The decimal digit for `d < 10`.
pub open spec fn dec_char(d: u64) -> char {
    (d + 48) as char
}

/// `v` in decimal, without leading zeros.
pub open spec fn decimal_text(v: u64) -> Seq<char>
    decreases v,
{
    if v < 10 {
        seq![dec_char(v)]
    } else {
        decimal_text(v / 10).push(dec_char(v % 10))
    }
}

/// `v` in lower-case hexadecimal, without leading zeros.
pub open spec fn hex_text(v: u64) -> Seq<char>
    decreases v,
{
    if v < 16 {
        seq![hex_char(v as u32)]
    } else {
        hex_text(v / 16).push(hex_char((v % 16) as u32))
    }
}

/// Append `v` in decimal to `s`.
fn push_decimal(s: &mut String, v: u64)
    ensures
        final(s)@ == old(s)@ + decimal_text(v),
    decreases v,
{
    if v >= 10 {
        push_decimal(s, v / 10);
    }
    let d = v % 10;
    let c = ((d as u8) + 48) as char;
    push_char(s, c);
    assert(s@ =~= old(s)@ + decimal_text(v));
}

/// Append `v` in hexadecimal to `s`.
fn push_hex64(s: &mut String, v: u64)
    ensures
        final(s)@ == old(s)@ + hex_text(v),
    decreases v,
{
    if v >= 16 {
        push_hex64(s, v / 16);
    }
    push_char(s, hex_digit((v % 16) as u32));
    assert(s@ =~= old(s)@ + hex_text(v));
}

/// `v` cut to `size` bytes (0 bytes, or 8 and more, keep all of it).
pub open spec fn cut_to(v: u64, size: u32) -> u64 {
    if size == 0 || size >= 8 {
        v
    } else {
        v & byte_mask(size as nat)
    }
}

/// A constant printed as unsigned: cut to its size, in decimal below 10, else in hex with
/// `0x`, followed by `U`.
pub open spec fn unsigned_const_text(val: u64, size: u32) -> Seq<char> {
    let m = cut_to(val, size);
    if m < 10 {
        decimal_text(m).push('U')
    } else {
        (seq!['0', 'x'] + hex_text(m)).push('U')
    }
}

/// A constant with an explicit unsigned `U` suffix (see [`unsigned_const_text`]).
pub fn render_const_unsigned(val: u64, size: u32) -> (r: String)
    ensures
        r@ == unsigned_const_text(val, size),
{
    let masked = if size == 0 || size >= 8 {
        val
    } else {
        val & calc_mask(size)
    };
    let mut s = String::new();
    if masked < 10 {
        push_decimal(&mut s, masked);
    } else {
        push_char(&mut s, '0');
        push_char(&mut s, 'x');
        push_hex64(&mut s, masked);
    }
    push_char(&mut s, 'U');
    assert(s@ =~= unsigned_const_text(val, size));
    s
}

/// How many of the lowest decimal digits of `v` are `d` (stopping at the value's top).
pub open spec fn run_len(v: u64, d: u64) -> nat
    decreases v,
{
    if v == 0 {
        0
    } else if v % 10 == d {
        1 + run_len(v / 10, d)
    } else {
        0
    }
}

/// `v` with its lowest run of decimal digits `d` removed.
pub open spec fn strip_run(v: u64, d: u64) -> u64
    decreases v,
{
    if v == 0 {
        0
    } else if v % 10 == d {
        strip_run(v / 10, d)
    } else {
        v
    }
}

/// The base a constant reads best in: 10 for a "round" number, ending in a run of 0s or 9s
/// with little in front of it (one such digit behind at most a leading 1, not after a 9; two
/// behind at most 10; three behind at most 100; four or more always), and 0 itself; 16
/// otherwise.
pub open spec fn natural_base_spec(val: u64) -> u32 {
    if val == 0 {
        10
    } else {
        let d = val % 10;
        if d != 0 && d != 9 {
            16
        } else {
            let count = run_len(val, d);
            let rest = strip_run(val, d);
            if count == 1 {
                if rest > 1 || d == 9 {
                    16
                } else {
                    10
                }
            } else if count == 2 {
                if rest > 10 {
                    16
                } else {
                    10
                }
            } else if count == 3 {
                if rest > 100 {
                    16
                } else {
                    10
                }
            } else {
                10
            }
        }
    }
}

/// The base a constant reads best in (see [`natural_base_spec`]).
pub fn most_natural_base(val: u64) -> (r: u32)
    ensures
        r == natural_base_spec(val),
        r == 10 || r == 16,
{
    if val == 0 {
        return 10;
    }
    let setdig = val % 10;
    if setdig != 0 && setdig != 9 {
        return 16;
    }
    proof {
        lemma_run_len_bound(val, setdig);
    }
    let mut countdec: u64 = 1;
    let mut tmp = val / 10;
    while tmp != 0 && tmp % 10 == setdig
        invariant
            setdig < 10,
            val != 0,
            val % 10 == setdig,
            countdec >= 1,
            countdec + run_len(tmp, setdig) == run_len(val, setdig),
            strip_run(tmp, setdig) == strip_run(val, setdig),
            run_len(val, setdig) <= val,
        decreases tmp,
    {
        countdec += 1;
        tmp = tmp / 10;
    }
    if countdec == 1 {
        if tmp > 1 || setdig == 9 {
            16
        } else {
            10
        }
    } else if countdec == 2 {
        if tmp > 10 {
            16
        } else {
            10
        }
    } else if countdec == 3 {
        if tmp > 100 {
            16
        } else {
            10
        }
    } else {
        10
    }
}

/// A run of digits other than 1 is never longer than the number itself.
proof fn lemma_run_len_bound(v: u64, d: u64)
    requires
        d != 1,
    ensures
        run_len(v, d) <= v,
    decreases v,
{
    if v != 0 && v % 10 == d {
        lemma_run_len_bound(v / 10, d);
    }
}

/// How many trailing decimal digits `d` the value `m` followed by `n` digits `d` has, and what
/// is in front of them: exactly `n`, and `m`, when `m` does not itself end in `d`.
proof fn lemma_run_after(m: u64, d: u64, n: nat, v: u64)
    requires
        d < 10,
        m % 10 != d,
        n <= 4,
        v as int == m as int * pow10(n) + d as int * repunit(n),
    ensures
        run_len(v, d) == n,
        strip_run(v, d) == m,
    decreases n,
{
    if n == 0 {
        assert(v == m);
        if m != 0 {
            assert(run_len(v, d) == 0);
        }
    } else {
        let w = (v / 10) as u64;
        let k = (n - 1) as nat;
        assert(pow10(n) == 10 * pow10(k));
        assert(repunit(n) == 10 * repunit(k) + 1);
        lemma_pow10_pos(k);
        let x = m as int * pow10(k) + d as int * repunit(k);
        assert(v as int == 10 * x + d) by (nonlinear_arith)
            requires
                v as int == m as int * (10 * pow10(k)) + d as int * (10 * repunit(k) + 1),
                x == m as int * pow10(k) + d as int * repunit(k),
        ;
        assert(v % 10 == d && v / 10 == x) by (nonlinear_arith)
            requires
                v as int == 10 * x + d,
                0 <= d < 10,
                x >= 0,
        ;
        assert(v != 0) by {
            if v == 0 {
                assert(x >= 0);
                assert(d == 0);
                assert(m % 10 != 0);
                assert(m != 0);
                assert(m as int * pow10(k) >= m as int) by (nonlinear_arith)
                    requires
                        pow10(k) >= 1,
                        m >= 0,
                ;
            }
        }
        lemma_run_after(m, d, k, w);
    }
}

/// `10^n`.
pub open spec fn pow10(n: nat) -> int
    decreases n,
{
    if n == 0 {
        1
    } else {
        10 * pow10((n - 1) as nat)
    }
}

/// `11...1`, `n` ones.
pub open spec fn repunit(n: nat) -> int
    decreases n,
{
    if n == 0 {
        0
    } else {
        10 * repunit((n - 1) as nat) + 1
    }
}

proof fn lemma_pow10_pos(n: nat)
    ensures
        pow10(n) >= 1,
    decreases n,
{
    if n > 0 {
        lemma_pow10_pos((n - 1) as nat);
    }
}

/// A number ending in a run of 0s or 9s reads in base 10 exactly when what stands in front of
/// the run is small next to it: behind one 0, at most 1 (just the number 10); behind one 9,
/// never; behind two digits, at most 10; behind three, at most 100; behind four, always.
/// Here `m` is what stands in front, not itself ending in the run's digit `d`.
pub proof fn law_round_numbers_read_decimal(m: u64, d: u64)
    requires
        d == 0 || d == 9,
        m % 10 != d,
        m <= 1_000_000_000_000,
    ensures
        natural_base_spec((m * 10 + d) as u64) == (if m <= 1 && d == 0 { 10u32 } else { 16u32 }),
        natural_base_spec((m * 100 + 11 * d) as u64) == (if m <= 10 { 10u32 } else { 16u32 }),
        natural_base_spec((m * 1000 + 111 * d) as u64) == (if m <= 100 { 10u32 } else { 16u32 }),
        natural_base_spec((m * 10000 + 1111 * d) as u64) == 10u32,
{
    reveal_with_fuel(pow10, 5);
    reveal_with_fuel(repunit, 5);
    let v1 = (m * 10 + d) as u64;
    let v2 = (m * 100 + 11 * d) as u64;
    let v3 = (m * 1000 + 111 * d) as u64;
    let v4 = (m * 10000 + 1111 * d) as u64;
    lemma_run_after(m, d, 1, v1);
    lemma_run_after(m, d, 2, v2);
    lemma_run_after(m, d, 3, v3);
    lemma_run_after(m, d, 4, v4);
    assert(v1 % 10 == d && v1 != 0) by (nonlinear_arith)
        requires
            v1 == m * 10 + d,
            d < 10,
            m % 10 != d,
    ;
    assert(v2 % 10 == d && v2 != 0) by (nonlinear_arith)
        requires
            v2 == m * 100 + 11 * d,
            d < 10,
            m % 10 != d,
    ;
    assert(v3 % 10 == d && v3 != 0) by (nonlinear_arith)
        requires
            v3 == m * 1000 + 111 * d,
            d < 10,
            m % 10 != d,
    ;
    assert(v4 % 10 == d && v4 != 0) by (nonlinear_arith)
        requires
            v4 == m * 10000 + 1111 * d,
            d < 10,
            m % 10 != d,
    ;
}

/// Zero reads in base 10; a number ending in a digit other than 0 or 9 reads in base 16; a
/// number up to 10 prints in decimal whatever its base.
pub proof fn law_natural_base_edges(v: u64)
    ensures
        natural_base_spec(0) == 10,
        v % 10 != 0 && v % 10 != 9 ==> natural_base_spec(v) == 16,
        v <= 10 ==> natural_text(v) == decimal_text(v),
{
}

/// A whole number of hundreds from 100 to 900 prints as a 4-byte constant in decimal.
pub proof fn law_hundreds_print_decimal(k: u64)
    requires
        1 <= k <= 9,
    ensures
        const_text((k * 100) as u64, 4) == decimal_text((k * 100) as u64),
{
    law_round_numbers_read_decimal(k, 0);
    let v = (k * 100) as u64;
    assert(v == k * 100 + 11 * 0);
    lemma2_to64();
    assert(v as int % pow2(32) as int == v);
    assert(sext_const_spec(v, 4) == v);
}

/// A non-negative integer in the base it reads best in: decimal up to 10 and for round
/// numbers, else hexadecimal with `0x`.
pub open spec fn natural_text(v: u64) -> Seq<char> {
    if v <= 10 || natural_base_spec(v) == 10 {
        decimal_text(v)
    } else {
        seq!['0', 'x'] + hex_text(v)
    }
}

/// A constant of `size` bytes as C text: read as signed, a value between -0xffff and -1 is a
/// minus sign and its magnitude (see [`natural_text`]); any other value is printed unsigned as
/// it is.
pub open spec fn const_text(val: u64, size: u32) -> Seq<char> {
    let sv = sext_const_spec(val, size);
    if sv < 0 && sv > -0x10000 {
        seq!['-'] + natural_text((-sv) as u64)
    } else {
        natural_text(val)
    }
}

fn push_natural(s: &mut String, v: u64)
    ensures
        final(s)@ == old(s)@ + natural_text(v),
{
    if v <= 10 || most_natural_base(v) == 10 {
        push_decimal(s, v);
    } else {
        push_char(s, '0');
        push_char(s, 'x');
        push_hex64(s, v);
        assert(s@ =~= old(s)@ + (seq!['0', 'x'] + hex_text(v)));
    }
}

/// A constant as C text (see [`const_text`]).
pub fn render_const(val: u64, size: u32) -> (r: String)
    ensures
        r@ == const_text(val, size),
{
    let signed = sext_const(val, size);
    let mut s = String::new();
    if signed < 0 && signed > -0x10000 {
        let mag = (0 - signed) as u64;
        push_char(&mut s, '-');
        push_natural(&mut s, mag);
        assert(s@ =~= seq!['-'] + natural_text(mag));
        return s;
    }
    push_natural(&mut s, val);
    assert(s@ =~= natural_text(val));
    s
}

/// A type widened to a storage of `width` bytes: integers (with booleans and characters)
/// become signed integers of that width, unsigned integers stay unsigned, values of unknown
/// interpretation stay unknown; other types, types already as wide, and a width of 0 are
/// left alone.
pub open spec fn widened_spec(ty: Datatype, width: u32) -> Datatype {
    if width == 0 || type_size(ty) >= width {
        ty
    } else {
        match ty {
            Datatype::Bool | Datatype::Char | Datatype::Int(_) => Datatype::Int(width),
            Datatype::Uint(_) => Datatype::Uint(width),
            Datatype::Unknown(_) => Datatype::Unknown(width),
            _ => ty,
        }
    }
}

/// `ty` widened to a storage of `width` bytes (see [`widened_spec`]).
pub fn widen_to_storage(ty: &Datatype, width: u32) -> (r: Datatype)
    requires
        type_wf(*ty),
    ensures
        r == widened_spec(*ty, width),
{
    if width == 0 || ty.size() >= width {
        return crate::types::copy_type(ty);
    }
    match ty {
        Datatype::Bool | Datatype::Char | Datatype::Int(_) => Datatype::Int(width),
        Datatype::Uint(_) => Datatype::Uint(width),
        Datatype::Unknown(_) => Datatype::Unknown(width),
        other => crate::types::copy_type(other),
    }
}

/// A scalar a SUBPIECE may read through a cast: an integer, a character, a value of unknown
/// interpretation or a pointer.
pub open spec fn cast_scalar_in(t: Datatype) -> bool {
    t is Int || t is Char || t is Uint || t is Unknown || t is Pointer
}

/// A SUBPIECE at `offset` from a value of type `intype` to one of type `outtype` prints as a
/// cast `(outtype)x`: only at offset 0, between scalars (the output may also be a float); from
/// a pointer only to a narrower pointer, or to an integer.
pub open spec fn subpiece_cast_spec(outtype: Datatype, intype: Datatype, offset: u64) -> bool {
    if offset != 0 || !cast_scalar_in(intype) || !(cast_scalar_in(outtype) || outtype is Float) {
        false
    } else {
        match intype {
            Datatype::Pointer(insz, _) => match outtype {
                Datatype::Pointer(outsz, _) => outsz < insz,
                _ => outtype is Int || outtype is Char || outtype is Uint,
            },
            _ => true,
        }
    }
}

/// Does a SUBPIECE print as a cast (see [`subpiece_cast_spec`])?
pub fn is_subpiece_cast(outtype: &Datatype, intype: &Datatype, offset: u64) -> (r: bool)
    ensures
        r == subpiece_cast_spec(*outtype, *intype, offset),
{
    if offset != 0 {
        return false;
    }
    if !matches!(intype, Datatype::Int(_) | Datatype::Char | Datatype::Uint(_) | Datatype::Unknown(_) | Datatype::Pointer(..)) {
        return false;
    }
    if !matches!(
        outtype,
        Datatype::Int(_) | Datatype::Char | Datatype::Uint(_) | Datatype::Unknown(_) | Datatype::Pointer(..) | Datatype::Float(_)
    ) {
        return false;
    }
    if let Datatype::Pointer(insz, _) = intype {
        if let Datatype::Pointer(outsz, _) = outtype {
            if *outsz < *insz {
                return true;
            }
        }
        if !matches!(outtype, Datatype::Int(_) | Datatype::Char | Datatype::Uint(_)) {
            return false;
        }
    }
    true
}

/// The operations whose constant operands take on the operation's signedness: comparisons,
/// the arithmetic and the bitwise logic on integers, and the shifts.
pub open spec fn inherits_sign_spec(c: OpCode) -> bool {
    c == OpCode::IntEqual || c == OpCode::IntNotequal || c == OpCode::IntSless || c == OpCode::IntSlessequal || c
        == OpCode::IntLess || c == OpCode::IntLessequal || c == OpCode::IntAdd || c == OpCode::IntSub || c
        == OpCode::Int2comp || c == OpCode::IntMult || c == OpCode::IntDiv || c == OpCode::IntSdiv || c
        == OpCode::IntRem || c == OpCode::IntSrem || c == OpCode::IntNegate || c == OpCode::IntXor || c
        == OpCode::IntAnd || c == OpCode::IntOr || c == OpCode::IntLeft || c == OpCode::IntRight || c
        == OpCode::IntSright
}

/// Does a constant operand of `c` take on its signedness (see [`inherits_sign_spec`])?
pub fn inherits_sign(c: OpCode) -> (r: bool)
    ensures
        r == inherits_sign_spec(c),
{
    matches!(
        c,
        OpCode::IntEqual | OpCode::IntNotequal | OpCode::IntSless | OpCode::IntSlessequal | OpCode::IntLess
            | OpCode::IntLessequal | OpCode::IntAdd | OpCode::IntSub | OpCode::Int2comp | OpCode::IntMult
            | OpCode::IntDiv | OpCode::IntSdiv | OpCode::IntRem | OpCode::IntSrem | OpCode::IntNegate
            | OpCode::IntXor | OpCode::IntAnd | OpCode::IntOr | OpCode::IntLeft | OpCode::IntRight
            | OpCode::IntSright
    )
}

/// The operations where only the first operand takes on the sign: the shifts and the
/// remainders (a shift amount or a modulus never gets a `U`).
pub fn inherits_sign_first_only(c: OpCode) -> (r: bool)
    ensures
        r == (c == OpCode::IntLeft || c == OpCode::IntRight || c == OpCode::IntSright || c == OpCode::IntRem || c
            == OpCode::IntSrem),
{
    matches!(c, OpCode::IntLeft | OpCode::IntRight | OpCode::IntSright | OpCode::IntRem | OpCode::IntSrem)
}

/// Whether negating the condition computed by `op` in place would *normalize* it: 0 when it
/// would (a net win), 1 when it makes no difference, 2 when it would not (leave it alone).
/// Equalities are ambivalent and inequalities and negations normalize; a strict comparison is
/// ambivalent unless its first operand is a constant, a non-strict one unless its second is not;
/// a BOOL_AND or BOOL_OR takes the verdict of its first operand, provided both operands are
/// written, read by this op alone, and flippable themselves, looking at most `fuel` levels deep.
/// Anything else, or an op missing the operands it needs, is left alone.
pub open spec fn flip_spec(f: &Funcdata, op: OpId, fuel: nat) -> int
    decreases fuel,
{
    let o = f.ops@[op.0 as int];
    let c = o.opc;
    if c == OpCode::IntEqual || c == OpCode::FloatEqual {
        1
    } else if c == OpCode::BoolNegate || c == OpCode::IntNotequal || c == OpCode::FloatNotequal {
        0
    } else if c == OpCode::IntSless || c == OpCode::IntLess {
        if o.inrefs@.len() < 1 {
            2
        } else if !f.vns@[o.inrefs@[0].0 as int].constant {
            1
        } else {
            0
        }
    } else if c == OpCode::IntSlessequal || c == OpCode::IntLessequal {
        if o.inrefs@.len() < 2 {
            2
        } else if f.vns@[o.inrefs@[1].0 as int].constant {
            1
        } else {
            0
        }
    } else if c == OpCode::BoolOr || c == OpCode::BoolAnd {
        if o.inrefs@.len() < 2 || fuel == 0 {
            2
        } else {
            let v0 = o.inrefs@[0];
            let v1 = o.inrefs@[1];
            if lone_descend_spec(f.ops@, v0) != Some(op) || f.vns@[v0.0 as int].def is None {
                2
            } else {
                let s1 = flip_spec(f, f.vns@[v0.0 as int].def.unwrap(), (fuel - 1) as nat);
                if s1 == 2 {
                    2
                } else if lone_descend_spec(f.ops@, v1) != Some(op) || f.vns@[v1.0 as int].def is None {
                    2
                } else if flip_spec(f, f.vns@[v1.0 as int].def.unwrap(), (fuel - 1) as nat) == 2 {
                    2
                } else {
                    s1
                }
            }
        }
    } else {
        2
    }
}

fn flip_normalizes(f: &Funcdata, op: OpId, fuel: usize) -> (r: i32)
    requires
        f.wf(),
        op.0 < f.ops@.len(),
    ensures
        r == flip_spec(f, op, fuel as nat),
    decreases fuel,
{
    proof {
        assert(op_wf(f.ops@[op.0 as int], f.vns@.len(), f.ops@.len(), f.blocks@.len()));
    }
    let o = f.op(op);
    let c = o.code();
    if c == OpCode::IntEqual || c == OpCode::FloatEqual {
        1
    } else if c == OpCode::BoolNegate || c == OpCode::IntNotequal || c == OpCode::FloatNotequal {
        0
    } else if c == OpCode::IntSless || c == OpCode::IntLess {
        if o.inrefs.len() < 1 {
            2
        } else if !f.vn(o.inrefs[0]).is_constant() {
            1
        } else {
            0
        }
    } else if c == OpCode::IntSlessequal || c == OpCode::IntLessequal {
        if o.inrefs.len() < 2 {
            2
        } else if f.vn(o.inrefs[1]).is_constant() {
            1
        } else {
            0
        }
    } else if c == OpCode::BoolOr || c == OpCode::BoolAnd {
        if o.inrefs.len() < 2 || fuel == 0 {
            return 2;
        }
        let v0 = o.inrefs[0];
        let v1 = o.inrefs[1];
        proof {
            assert(vn_wf(f.vns@[v0.0 as int], f.ops@.len()));
            assert(vn_wf(f.vns@[v1.0 as int], f.ops@.len()));
        }
        let d0 = match f.vn(v0).def {
            Some(d) => d,
            None => return 2,
        };
        if f.lone_descend(v0) != Some(op) {
            return 2;
        }
        let s1 = flip_normalizes(f, d0, fuel - 1);
        if s1 == 2 {
            return 2;
        }
        let d1 = match f.vn(v1).def {
            Some(d) => d,
            None => return 2,
        };
        if f.lone_descend(v1) != Some(op) {
            return 2;
        }
        if flip_normalizes(f, d1, fuel - 1) == 2 {
            return 2;
        }
        s1
    } else {
        2
    }
}

/// Whether negating the condition `op` in place would normalize it (see [`flip_spec`]; the
/// walk looks at most as many levels deep as the function has ops).
pub fn op_flip_normalizes(f: &Funcdata, op: OpId) -> (r: i32)
    requires
        f.wf(),
        op.0 < f.ops@.len(),
    ensures
        r == flip_spec(f, op, f.ops@.len() as nat),
        0 <= r <= 2,
{
    proof {
        lemma_flip_range(f, op, f.ops@.len() as nat);
    }
    flip_normalizes(f, op, f.ops.len())
}

/// The verdict is 0, 1 or 2.
proof fn lemma_flip_range(f: &Funcdata, op: OpId, fuel: nat)
    ensures
        0 <= flip_spec(f, op, fuel) <= 2,
    decreases fuel,
{
    let o = f.ops@[op.0 as int];
    if (o.opc == OpCode::BoolOr || o.opc == OpCode::BoolAnd) && o.inrefs@.len() >= 2 && fuel > 0 {
        let v0 = o.inrefs@[0];
        if f.vns@[v0.0 as int].def is Some {
            lemma_flip_range(f, f.vns@[v0.0 as int].def.unwrap(), (fuel - 1) as nat);
        }
    }
}

} // verus!

verus! {

/// The ops that do not move: those touching memory or control flow, and the SSA joins.
pub open spec fn is_special(c: OpCode) -> bool {
    c == OpCode::Load || c == OpCode::Store || c == OpCode::Branch || c == OpCode::Cbranch || c == OpCode::Branchind || c
        == OpCode::Call || c == OpCode::Callind || c == OpCode::Callother || c == OpCode::Return || c == OpCode::Indirect || c
        == OpCode::Multiequal
}

/// The first position of `o` in `s`, or -1.
pub open spec fn first_index(s: Seq<OpId>, o: OpId) -> int {
    if s.contains(o) {
        choose|i: int| 0 <= i < s.len() && s[i] == o && forall|j: int| 0 <= j < i ==> s[j] != o
    } else {
        -1
    }
}

/// Neither address-tied nor persistent.
pub open spec fn not_tied(f: &Funcdata, v: VarnodeId) -> bool {
    !f.vns@[v.0 as int].addrtied && !f.vns@[v.0 as int].persist
}

/// Two varnodes share storage bytes.
pub open spec fn storage_overlaps(f: &Funcdata, a: VarnodeId, b: VarnodeId) -> bool {
    let (va, vb) = (f.vns@[a.0 as int], f.vns@[b.0 as int]);
    va.loc.space == vb.loc.space && va.loc.offset < vb.loc.offset + vb.size && vb.loc.offset < va.loc.offset + va.size
}

/// `op` may cross CALLs: it is an ordinary op whose output and inputs touch no address-tied
/// or persistent storage (constants aside).
pub open spec fn crosses_calls(f: &Funcdata, op: OpId) -> bool {
    let o = f.ops@[op.0 as int];
    &&& !is_special(o.opc)
    &&& o.output matches Some(out) && not_tied(f, out)
    &&& forall|i: int| 0 <= i < o.inrefs@.len() ==> f.vns@[(#[trigger] o.inrefs@[i]).0 as int].constant || not_tied(f, o.inrefs@[i])
}

/// Op `op2`, between `op` and the point `op` would move to, stops the move: a LOAD when `op`'s
/// output is address-tied; a STORE when `op` is a LOAD, reads address-tied storage, or writes
/// it; a CALL that `op` may not cross; any other special op but an INDIRECT; a write of
/// address-tied storage when `op` is a LOAD; a write overlapping an address-tied input of `op`.
pub open spec fn blocks_move(f: &Funcdata, op: OpId, op2: OpId) -> bool {
    let o = f.ops@[op.0 as int];
    let o2 = f.ops@[op2.0 as int];
    let moving_load = o.opc == OpCode::Load;
    let out_tied = o.output matches Some(out) && f.vns@[out.0 as int].addrtied;
    let has_tied = exists|i: int| 0 <= i < o.inrefs@.len() && f.vns@[(#[trigger] o.inrefs@[i]).0 as int].addrtied;
    ||| is_special(o2.opc) && o2.opc == OpCode::Load && out_tied
    ||| is_special(o2.opc) && o2.opc == OpCode::Store && (moving_load || has_tied || out_tied)
    ||| is_special(o2.opc) && (o2.opc == OpCode::Call || o2.opc == OpCode::Callind) && !crosses_calls(f, op)
    ||| is_special(o2.opc) && o2.opc != OpCode::Load && o2.opc != OpCode::Store && o2.opc != OpCode::Indirect && o2.opc
        != OpCode::Call && o2.opc != OpCode::Callind
    ||| o2.output matches Some(out2) && (moving_load && f.vns@[out2.0 as int].addrtied || exists|i: int|
        0 <= i < o.inrefs@.len() && f.vns@[(#[trigger] o.inrefs@[i]).0 as int].addrtied && storage_overlaps(
            f,
            o.inrefs@[i],
            out2,
        ))
}

/// `op` can move down its block to just before `point` without changing what the function
/// computes: it is `point` itself, or it is not special (a LOAD aside), both sit in the same
/// block with `op` first, nothing in that block reads `op`'s output before or at `point`, and
/// no op from just after `op` up to `point` stops the move ([`blocks_move`]).
pub open spec fn moveable(f: &Funcdata, op: OpId, point: OpId) -> bool {
    let o = f.ops@[op.0 as int];
    op == point || ((!is_special(o.opc) || o.opc == OpCode::Load) && (o.parent matches Some(b) && f.ops@[point.0 as int].parent
        == Some(b) && {
        let ops = f.blocks@[b.0 as int].ops@;
        let opos = first_index(ops, op);
        let ppos = first_index(ops, point);
        &&& ops.contains(op) && ops.contains(point)
        &&& opos <= ppos
        &&& o.output matches Some(out) ==> forall|k: int|
            0 <= k < f.descend_of(out).len() ==> !({
                let rd = #[trigger] f.descend_of(out)[k];
                f.ops@[rd.0 as int].parent == Some(b) && ops.contains(rd) && first_index(ops, rd) <= ppos
            })
        &&& forall|q: int| opos < q <= ppos ==> !blocks_move(f, op, #[trigger] ops[q])
    }))
}

/// `i` is the first position of `o` in `s`.
pub open spec fn first_at(s: Seq<OpId>, o: OpId, i: int) -> bool {
    0 <= i < s.len() && s[i] == o && forall|x: int| 0 <= x < i ==> s[x] != o
}

proof fn lemma_first_at(s: Seq<OpId>, o: OpId, i: int)
    requires
        first_at(s, o, i),
    ensures
        s.contains(o),
        first_index(s, o) == i,
{
    assert(s[i] == o);
    let c = first_index(s, o);
    assert(0 <= c < s.len() && s[c] == o && forall|j: int| 0 <= j < c ==> s[j] != o);
    if c < i {
        assert(s[c] != o);
    }
    if c > i {
        assert(s[i] != o);
    }
}

/// A sequence holding `o` has a first position of it.
proof fn lemma_first_index_of(s: Seq<OpId>, o: OpId, i: int)
    requires
        0 <= i < s.len(),
        s[i] == o,
    ensures
        first_at(s, o, first_index(s, o)),
    decreases i,
{
    if exists|x: int| 0 <= x < i && s[x] == o {
        let x = choose|x: int| 0 <= x < i && s[x] == o;
        lemma_first_index_of(s, o, x);
    } else {
        assert(first_at(s, o, i));
        lemma_first_at(s, o, i);
    }
}

/// What stops an op from moving down its block to `point`: `op` sits in block `b`, first at
/// `i`, `point` first at `j`, and the op at `q` lies after `op`, up to `point`. A LOAD never
/// moves past a STORE; nothing moves past a BRANCH, CBRANCH, BRANCHIND, CALLOTHER, RETURN or
/// MULTIEQUAL; an op writing address-tied storage does not move past a CALL.
pub proof fn law_move_stoppers(f: &Funcdata, op: OpId, point: OpId, b: BlockId, i: int, j: int, q: int)
    requires
        b.0 < f.blocks@.len(),
        op.0 < f.ops@.len(),
        point.0 < f.ops@.len(),
        first_at(f.blocks@[b.0 as int].ops@, op, i),
        first_at(f.blocks@[b.0 as int].ops@, point, j),
        f.ops@[op.0 as int].parent == Some(b),
        i < q <= j,
        f.blocks@[b.0 as int].ops@[q].0 < f.ops@.len(),
    ensures
        ({
            let o2 = f.ops@[f.blocks@[b.0 as int].ops@[q].0 as int].opc;
            &&& f.ops@[op.0 as int].opc == OpCode::Load && o2 == OpCode::Store ==> !moveable(f, op, point)
            &&& (o2 == OpCode::Branch || o2 == OpCode::Cbranch || o2 == OpCode::Branchind || o2 == OpCode::Callother || o2
                == OpCode::Return || o2 == OpCode::Multiequal) ==> !moveable(f, op, point)
            &&& (o2 == OpCode::Call || o2 == OpCode::Callind) && (f.ops@[op.0 as int].output matches Some(out)
                && f.vns@[out.0 as int].addrtied) ==> !moveable(f, op, point)
            &&& (o2 == OpCode::Call || o2 == OpCode::Callind) && (f.ops@[op.0 as int].output matches Some(out)
                && f.vns@[out.0 as int].persist) ==> !moveable(f, op, point)
            &&& (o2 == OpCode::Call || o2 == OpCode::Callind) && f.ops@[op.0 as int].output is None ==> !moveable(f, op, point)
            &&& (o2 == OpCode::Call || o2 == OpCode::Callind) && (exists|k: int|
                0 <= k < f.ops@[op.0 as int].inrefs@.len() && !f.vns@[(#[trigger] f.ops@[op.0 as int].inrefs@[k]).0 as int].constant
                    && (f.vns@[f.ops@[op.0 as int].inrefs@[k].0 as int].addrtied || f.vns@[f.ops@[op.0 as int].inrefs@[k].0 as int].persist))
                ==> !moveable(f, op, point)
            &&& o2 == OpCode::Load && (f.ops@[op.0 as int].output matches Some(out) && f.vns@[out.0 as int].addrtied)
                ==> !moveable(f, op, point)
            &&& o2 == OpCode::Store && (exists|k: int|
                0 <= k < f.ops@[op.0 as int].inrefs@.len() && f.vns@[(#[trigger] f.ops@[op.0 as int].inrefs@[k]).0 as int].addrtied)
                ==> !moveable(f, op, point)
            &&& (f.ops@[f.blocks@[b.0 as int].ops@[q].0 as int].output matches Some(out2) && exists|k: int|
                0 <= k < f.ops@[op.0 as int].inrefs@.len() && f.vns@[(#[trigger] f.ops@[op.0 as int].inrefs@[k]).0 as int].addrtied
                    && storage_overlaps(f, f.ops@[op.0 as int].inrefs@[k], out2)) ==> !moveable(f, op, point)
            &&& f.ops@[op.0 as int].opc == OpCode::Load && (f.ops@[f.blocks@[b.0 as int].ops@[q].0 as int].output matches Some(
                out2,
            ) && f.vns@[out2.0 as int].addrtied) ==> !moveable(f, op, point)
        }),
{
    let ops = f.blocks@[b.0 as int].ops@;
    lemma_first_at(ops, op, i);
    lemma_first_at(ops, point, j);
    assert(op != point) by {
        if op == point {
            assert(ops[i] == point);
        }
    }
    if moveable(f, op, point) {
        assert(!blocks_move(f, op, ops[q]));
    }
}

/// An op never moves up past `point`, and never past an op of its block reading its output at
/// or before `point`: with `op` first at `i` and `point` first at `j` in `op`'s block `b`.
pub proof fn law_move_order(f: &Funcdata, op: OpId, point: OpId, b: BlockId, i: int, j: int, x: int)
    requires
        b.0 < f.blocks@.len(),
        op.0 < f.ops@.len(),
        point.0 < f.ops@.len(),
        first_at(f.blocks@[b.0 as int].ops@, op, i),
        first_at(f.blocks@[b.0 as int].ops@, point, j),
        f.ops@[op.0 as int].parent == Some(b),
    ensures
        j < i ==> !moveable(f, op, point),
        ({
            let ops = f.blocks@[b.0 as int].ops@;
            &&& 0 <= x <= j && op != point ==> (f.ops@[op.0 as int].output matches Some(out) ==> (f.descend_of(out).contains(
                ops[x],
            ) && f.ops@[ops[x].0 as int].parent == Some(b) ==> !moveable(f, op, point)))
        }),
{
    let ops = f.blocks@[b.0 as int].ops@;
    lemma_first_at(ops, op, i);
    lemma_first_at(ops, point, j);
    if j < i {
        assert(op != point) by {
            if op == point {
                assert(ops[i] == point);
            }
        }
    }
    if 0 <= x <= j && op != point {
        if let Some(out) = f.ops@[op.0 as int].output {
            if f.descend_of(out).contains(ops[x]) && f.ops@[ops[x].0 as int].parent == Some(b) {
                let rd = ops[x];
                let k = choose|k: int| 0 <= k < f.descend_of(out).len() && f.descend_of(out)[k] == rd;
                lemma_first_index_of(ops, rd, x);
                assert(ops.contains(rd));
                assert(first_index(ops, rd) <= x);
                if moveable(f, op, point) {
                    assert(!({
                        let r2 = f.descend_of(out)[k];
                        f.ops@[r2.0 as int].parent == Some(b) && ops.contains(r2) && first_index(ops, r2) <= j
                    }));
                }
            }
        }
    }
}

/// An op stays where it is; a special op other than a LOAD, or an op in another block than
/// `point` (or in none), does not move; an ordinary op moves down to `point`, both in block `b`
/// (first at `i` and `j`), when nothing in `b` reads its output before or at `point` and every
/// op from just after it up to `point` is an ordinary op writing nothing.
pub proof fn law_move_basics(f: &Funcdata, op: OpId, point: OpId, b: BlockId, i: int, j: int)
    requires
        b.0 < f.blocks@.len(),
        op.0 < f.ops@.len(),
        point.0 < f.ops@.len(),
    ensures
        moveable(f, op, op),
        op != point && is_special(f.ops@[op.0 as int].opc) && f.ops@[op.0 as int].opc != OpCode::Load ==> !moveable(f, op, point),
        op != point && f.ops@[op.0 as int].parent != f.ops@[point.0 as int].parent ==> !moveable(f, op, point),
        op != point && f.ops@[op.0 as int].parent is None ==> !moveable(f, op, point),
        move_clear(f, op, point, b, i, j) ==> moveable(f, op, point),
{
    let ops = f.blocks@[b.0 as int].ops@;
    if move_clear(f, op, point, b, i, j) {
        lemma_first_at(ops, op, i);
        lemma_first_at(ops, point, j);
        if let Some(out) = f.ops@[op.0 as int].output {
            assert forall|k: int| 0 <= k < f.descend_of(out).len() implies !({
                let rd = #[trigger] f.descend_of(out)[k];
                f.ops@[rd.0 as int].parent == Some(b) && ops.contains(rd) && first_index(ops, rd) <= j
            }) by {
                let rd = f.descend_of(out)[k];
                if f.ops@[rd.0 as int].parent == Some(b) && ops.contains(rd) && first_index(ops, rd) <= j {
                    let y = choose|y: int| 0 <= y < ops.len() && ops[y] == rd;
                    lemma_first_index_of(ops, rd, y);
                    let c = first_index(ops, rd);
                    assert(0 <= c <= j && ops[c] == rd);
                }
            }
        }
        assert forall|x: int| i < x <= j implies !blocks_move(f, op, #[trigger] ops[x]) by {
            assert(!is_special(f.ops@[ops[x].0 as int].opc) && f.ops@[ops[x].0 as int].output is None);
        }
    }
}

/// Nothing keeps `op` (first at `i` in block `b`) from moving down to `point` (first at `j`):
/// both sit in `b`, `op` is ordinary, nothing in `b` reads its output at or before `j`, and the
/// ops after it up to `point` are ordinary and write nothing.
pub open spec fn move_clear(f: &Funcdata, op: OpId, point: OpId, b: BlockId, i: int, j: int) -> bool {
    let ops = f.blocks@[b.0 as int].ops@;
    &&& first_at(ops, op, i) && first_at(ops, point, j) && i <= j
    &&& f.ops@[op.0 as int].parent == Some(b) && f.ops@[point.0 as int].parent == Some(b)
    &&& !is_special(f.ops@[op.0 as int].opc)
    &&& f.ops@[op.0 as int].output matches Some(out) ==> forall|k: int|
        0 <= k < f.descend_of(out).len() ==> {
            let rd = #[trigger] f.descend_of(out)[k];
            !(f.ops@[rd.0 as int].parent == Some(b) && exists|x: int| 0 <= x <= j && ops[x] == rd)
        }
    &&& forall|x: int|
        i < x <= j ==> !is_special(f.ops@[(#[trigger] ops[x]).0 as int].opc) && f.ops@[ops[x].0 as int].output is None
}

/// The first position of `o` in `s`.
fn find_pos(s: &Vec<OpId>, o: OpId) -> (r: Option<usize>)
    ensures
        r is None <==> !s@.contains(o),
        r matches Some(i) ==> i == first_index(s@, o) && i < s@.len(),
{
    let mut i: usize = 0;
    while i < s.len()
        invariant
            i <= s@.len(),
            forall|j: int| 0 <= j < i ==> s@[j] != o,
        decreases s@.len() - i,
    {
        if s[i] == o {
            proof {
                assert(s@.contains(o));
                let c = first_index(s@, o);
                assert(0 <= c < s@.len() && s@[c] == o && forall|j: int| 0 <= j < c ==> s@[j] != o);
                if c < i {
                    assert(s@[c] != o);
                }
                if c > i {
                    assert(s@[i as int] != o);
                }
            }
            return Some(i);
        }
        i += 1;
    }
    None
}

/// Whether the input slots of `op` hold an address-tied varnode, and whether one of them
/// overlaps `v`.
fn tied_inputs(f: &Funcdata, op: OpId, v: Option<VarnodeId>) -> (r: (bool, bool))
    requires
        f.wf(),
        op.0 < f.ops@.len(),
        v matches Some(x) ==> x.0 < f.vns@.len(),
    ensures
        r.0 == exists|i: int| 0 <= i < f.ops@[op.0 as int].inrefs@.len() && f.vns@[(#[trigger] f.ops@[op.0 as int].inrefs@[i]).0 as int].addrtied,
        v matches Some(x) ==> r.1 == exists|i: int|
            0 <= i < f.ops@[op.0 as int].inrefs@.len() && f.vns@[(#[trigger] f.ops@[op.0 as int].inrefs@[i]).0 as int].addrtied
                && storage_overlaps(f, f.ops@[op.0 as int].inrefs@[i], x),
{
    proof {
        assert(op_wf(f.ops@[op.0 as int], f.vns@.len(), f.ops@.len(), f.blocks@.len()));
    }
    let ins = &f.op(op).inrefs;
    let mut any = false;
    let mut hit = false;
    let mut i: usize = 0;
    while i < ins.len()
        invariant
            f.wf(),
            op.0 < f.ops@.len(),
            *ins == f.ops@[op.0 as int].inrefs,
            i <= ins@.len(),
            v matches Some(x) ==> x.0 < f.vns@.len(),
            forall|k: int| 0 <= k < ins@.len() ==> (#[trigger] ins@[k]).0 < f.vns@.len(),
            any == exists|k: int| 0 <= k < i && f.vns@[(#[trigger] ins@[k]).0 as int].addrtied,
            v matches Some(x) ==> hit == exists|k: int|
                0 <= k < i && f.vns@[(#[trigger] ins@[k]).0 as int].addrtied && storage_overlaps(f, ins@[k], x),
        decreases ins@.len() - i,
    {
        let a = ins[i];
        if f.vn(a).addrtied {
            any = true;
            if let Some(x) = v {
                let (va, vb) = (f.vn(a), f.vn(x));
                if va.loc.space == vb.loc.space && (va.loc.offset as u128) < (vb.loc.offset as u128) + (vb.size as u128)
                    && (vb.loc.offset as u128) < (va.loc.offset as u128) + (va.size as u128) {
                    hit = true;
                }
            }
        }
        i += 1;
    }
    (any, hit)
}

/// See [`is_special`].
fn special(c: OpCode) -> (r: bool)
    ensures
        r == is_special(c),
{
    c == OpCode::Load || c == OpCode::Store || c == OpCode::Branch || c == OpCode::Cbranch || c == OpCode::Branchind || c
        == OpCode::Call || c == OpCode::Callind || c == OpCode::Callother || c == OpCode::Return || c == OpCode::Indirect || c
        == OpCode::Multiequal
}

/// See [`crosses_calls`].
fn crosses_calls_exec(f: &Funcdata, op: OpId) -> (r: bool)
    requires
        f.wf(),
        op.0 < f.ops@.len(),
    ensures
        r == crosses_calls(f, op),
{
    proof {
        assert(op_wf(f.ops@[op.0 as int], f.vns@.len(), f.ops@.len(), f.blocks@.len()));
    }
    if special(f.op(op).code()) {
        return false;
    }
    let out = match f.op(op).output {
        Some(o) => o,
        None => return false,
    };
    if f.vn(out).addrtied || f.vn(out).persist {
        return false;
    }
    let ins = &f.op(op).inrefs;
    let mut i: usize = 0;
    while i < ins.len()
        invariant
            f.wf(),
            op.0 < f.ops@.len(),
            *ins == f.ops@[op.0 as int].inrefs,
            i <= ins@.len(),
            forall|k: int| 0 <= k < ins@.len() ==> (#[trigger] ins@[k]).0 < f.vns@.len(),
            forall|k: int| 0 <= k < i ==> f.vns@[(#[trigger] ins@[k]).0 as int].constant || not_tied(f, ins@[k]),
        decreases ins@.len() - i,
    {
        let v = f.vn(ins[i]);
        if !(v.constant || (!v.addrtied && !v.persist)) {
            return false;
        }
        i += 1;
    }
    true
}

/// Whether op `op2` stops `op` from moving past it ([`blocks_move`]), given what is known of
/// `op`.
fn op_blocks(
    f: &Funcdata,
    op: OpId,
    op2: OpId,
    moving_load: bool,
    cross: bool,
    has_tied: bool,
    out_tied: bool,
) -> (r: bool)
    requires
        f.wf(),
        op.0 < f.ops@.len(),
        op2.0 < f.ops@.len(),
        moving_load == (f.ops@[op.0 as int].opc == OpCode::Load),
        cross == crosses_calls(f, op),
        has_tied == exists|i: int|
            0 <= i < f.ops@[op.0 as int].inrefs@.len() && f.vns@[(#[trigger] f.ops@[op.0 as int].inrefs@[i]).0 as int].addrtied,
        out_tied == (f.ops@[op.0 as int].output matches Some(out) && f.vns@[out.0 as int].addrtied),
    ensures
        r == blocks_move(f, op, op2),
{
    proof {
        assert(op_wf(f.ops@[op2.0 as int], f.vns@.len(), f.ops@.len(), f.blocks@.len()));
    }
    let c2 = f.op(op2).code();
    if special(c2) {
        if c2 == OpCode::Load {
            if out_tied {
                return true;
            }
        } else if c2 == OpCode::Store {
            if moving_load || has_tied || out_tied {
                return true;
            }
        } else if c2 == OpCode::Indirect {
        } else if c2 == OpCode::Call || c2 == OpCode::Callind {
            if !cross {
                return true;
            }
        } else {
            return true;
        }
    }
    if let Some(out2) = f.op(op2).output {
        if moving_load && f.vn(out2).addrtied {
            return true;
        }
        let (_, ov) = tied_inputs(f, op, Some(out2));
        if ov {
            return true;
        }
    }
    false
}

/// Whether some op of `ops` read `op`'s output `out` at or before position `ppos`, in `parent`.
fn read_early(f: &Funcdata, out: VarnodeId, parent: crate::funcdata::BlockId, ops: &Vec<OpId>, ppos: usize) -> (r: bool)
    requires
        f.wf(),
    ensures
        r == exists|k: int|
            0 <= k < f.descend_of(out).len() && ({
                let rd = #[trigger] f.descend_of(out)[k];
                f.ops@[rd.0 as int].parent == Some(parent) && ops@.contains(rd) && first_index(ops@, rd) <= ppos
            }),
{
    let reads = f.descend(out);
    let nf = f.ops.len();
    let mut k: usize = 0;
    while k < reads.len()
        invariant
            f.wf(),
            nf == f.ops@.len(),
            reads@ == f.descend_of(out),
            k <= reads@.len(),
            forall|j: int|
                0 <= j < k ==> !({
                    let rd = #[trigger] reads@[j];
                    f.ops@[rd.0 as int].parent == Some(parent) && ops@.contains(rd) && first_index(ops@, rd) <= ppos
                }),
        decreases reads@.len() - k,
    {
        let rd = reads[k];
        proof {
            crate::funcdata::lemma_descend_member(f.ops@, out, f.ops@.len() as int, k as int);
        }
        if f.op(rd).parent == Some(parent) {
            if let Some(rp) = find_pos(ops, rd) {
                if rp <= ppos {
                    assert(reads@[k as int] == rd);
                    return true;
                }
            }
        }
        k += 1;
    }
    false
}

/// Whether `op` can move down its block to just before `point` ([`moveable`]).
#[verifier::rlimit(40)]
#[verifier::spinoff_prover]
pub fn is_moveable(f: &Funcdata, op: OpId, point: OpId) -> (r: bool)
    requires
        f.wf(),
        op.0 < f.ops@.len(),
        point.0 < f.ops@.len(),
    ensures
        r == moveable(f, op, point),
{
    if op == point {
        return true;
    }
    proof {
        assert(op_wf(f.ops@[op.0 as int], f.vns@.len(), f.ops@.len(), f.blocks@.len()));
    }
    let code = f.op(op).code();
    let moving_load = code == OpCode::Load;
    if special(code) && !moving_load {
        return false;
    }
    let parent = match f.op(op).parent {
        Some(b) => b,
        None => return false,
    };
    if f.op(point).parent != Some(parent) {
        return false;
    }
    let ops = &f.block(parent).ops;
    proof {
        assert(crate::funcdata::block_wf(f.blocks@[parent.0 as int], f.ops@.len(), f.blocks@.len()));
    }
    let opos = match find_pos(ops, op) {
        Some(i) => i,
        None => return false,
    };
    let ppos = match find_pos(ops, point) {
        Some(i) => i,
        None => return false,
    };
    if ppos < opos {
        return false;
    }
    if let Some(out) = f.op(op).output {
        if read_early(f, out, parent, ops, ppos) {
            return false;
        }
    }
    let cross = crosses_calls_exec(f, op);
    let (has_tied, _) = tied_inputs(f, op, None);
    let out_tied = match f.op(op).output {
        Some(o) => f.vn(o).addrtied,
        None => false,
    };
    let nops = ops.len();
    let mut q: usize = opos + 1;
    while q <= ppos
        invariant
            f.wf(),
            op.0 < f.ops@.len(),
            *ops == f.blocks@[parent.0 as int].ops,
            nops == ops@.len(),
            forall|j: int| 0 <= j < ops@.len() ==> (#[trigger] ops@[j]).0 < f.ops@.len(),
            ppos < nops,
            opos < q <= ppos + 1,
            moving_load == (f.ops@[op.0 as int].opc == OpCode::Load),
            cross == crosses_calls(f, op),
            has_tied == exists|i: int|
                0 <= i < f.ops@[op.0 as int].inrefs@.len() && f.vns@[(#[trigger] f.ops@[op.0 as int].inrefs@[i]).0 as int].addrtied,
            out_tied == (f.ops@[op.0 as int].output matches Some(out) && f.vns@[out.0 as int].addrtied),
            forall|j: int| opos < j < q ==> !blocks_move(f, op, #[trigger] ops@[j]),
            op != point,
            f.ops@[op.0 as int].parent == Some(parent),
            f.ops@[point.0 as int].parent == Some(parent),
            opos as int == first_index(ops@, op),
            ppos as int == first_index(ops@, point),
        decreases ppos + 1 - q,
    {
        if op_blocks(f, op, ops[q], moving_load, cross, has_tied, out_tied) {
            assert(blocks_move(f, op, ops@[q as int]));
            return false;
        }
        q += 1;
    }
    true
}

} // verus!
