//! The wire format of the sandbox boundary.
//!
//! A strain receives its turn input as a JSON object with a `board` list of
//! `[[x,y],occupancy]` pairs covering the full view and an `allowed` list
//! of `[x,y]` coordinates, and answers with a single `[x,y]` coordinate.
//! The encoder below produces exactly the canonical encoding (no spaces,
//! canonical decimal integers), and the reply parser accepts exactly the
//! canonical encoding of a coordinate, so the boundary round-trips without
//! loss.

use vstd::prelude::*;

use crate::StrainInput;

verus! {

/// Canonical decimal digits of `n`, most significant first.
pub open spec fn dec_nat(n: nat) -> Seq<u8>
    decreases n,
{
    if n < 10 {
        seq![(48 + n) as u8]
    } else {
        dec_nat(n / 10).push((48 + n % 10) as u8)
    }
}

/// Canonical decimal encoding of `x`, with a leading minus sign when
/// negative.
pub open spec fn dec_int(x: int) -> Seq<u8> {
    if x < 0 {
        seq![45u8] + dec_nat((-x) as nat)
    } else {
        dec_nat(x as nat)
    }
}

/// The canonical JSON encoding `[x,y]` of a coordinate.
pub open spec fn coord_json(x: int, y: int) -> Seq<u8> {
    seq![91u8] + dec_int(x) + seq![44u8] + dec_int(y) + seq![93u8]
}

/// The JSON encoding of one occupancy: `true`, `false` or `null`.
pub open spec fn occ_json(v: Option<bool>) -> Seq<u8> {
    match v {
        Some(true) => seq![116u8, 114u8, 117u8, 101u8],
        Some(false) => seq![102u8, 97u8, 108u8, 115u8, 101u8],
        None => seq![110u8, 117u8, 108u8, 108u8],
    }
}

/// The JSON encoding `[[x,y],occupancy]` of one board entry.
pub open spec fn board_entry_json(e: ((i32, i32), Option<bool>)) -> Seq<u8> {
    seq![91u8] + coord_json(e.0.0 as int, e.0.1 as int) + seq![44u8] + occ_json(e.1) + seq![93u8]
}

/// The comma-separated JSON encoding of a list of board entries.
pub open spec fn board_list_json(s: Seq<((i32, i32), Option<bool>)>) -> Seq<u8>
    decreases s.len(),
{
    if s.len() == 0 {
        Seq::empty()
    } else if s.len() == 1 {
        board_entry_json(s[0])
    } else {
        board_list_json(s.drop_last()) + seq![44u8] + board_entry_json(s.last())
    }
}

/// The comma-separated JSON encoding of a list of coordinates.
pub open spec fn coord_list_json(s: Seq<(i32, i32)>) -> Seq<u8>
    decreases s.len(),
{
    if s.len() == 0 {
        Seq::empty()
    } else if s.len() == 1 {
        coord_json(s[0].0 as int, s[0].1 as int)
    } else {
        coord_list_json(s.drop_last()) + seq![44u8] + coord_json(s.last().0 as int, s.last().1 as int)
    }
}

/// The bytes `{"board":[`.
pub open spec fn json_header() -> Seq<u8> {
    seq![123u8, 34u8, 98u8, 111u8, 97u8, 114u8, 100u8, 34u8, 58u8, 91u8]
}

/// The bytes `],"allowed":[`.
pub open spec fn json_middle() -> Seq<u8> {
    seq![93u8, 44u8, 34u8, 97u8, 108u8, 108u8, 111u8, 119u8, 101u8, 100u8, 34u8, 58u8, 91u8]
}

/// The bytes `]}`.
pub open spec fn json_footer() -> Seq<u8> {
    seq![93u8, 125u8]
}

/// The canonical JSON encoding of a whole turn input.
pub open spec fn strain_input_json(
    board: Seq<((i32, i32), Option<bool>)>,
    allowed: Seq<(i32, i32)>,
) -> Seq<u8> {
    json_header() + board_list_json(board) + json_middle() + coord_list_json(allowed)
        + json_footer()
}

/// Append the canonical decimal digits of `n`.
fn push_dec_u32(out: &mut Vec<u8>, n: u32)
    ensures
        final(out)@ == old(out)@ + dec_nat(n as nat),
    decreases n,
{
    if n < 10 {
        out.push(48 + (n as u8));
        proof {
            assert(final(out)@ =~= old(out)@ + dec_nat(n as nat));
        }
    } else {
        let ghost mid = out@;
        push_dec_u32(out, n / 10);
        out.push(48 + ((n % 10) as u8));
        proof {
            assert((n as nat) / 10 == (n / 10) as nat);
            assert((n as nat) % 10 == (n % 10) as nat);
            assert(final(out)@ =~= mid + dec_nat(n as nat));
        }
    }
}

/// Append the canonical decimal encoding of `v`.
fn push_dec_i32(out: &mut Vec<u8>, v: i32)
    ensures
        final(out)@ == old(out)@ + dec_int(v as int),
{
    if v < 0 {
        let ghost pre = out@;
        out.push(45);
        let m: u32 = (-(v as i64)) as u32;
        push_dec_u32(out, m);
        proof {
            assert(m as nat == (-(v as int)) as nat);
            assert(final(out)@ =~= pre + dec_int(v as int));
        }
    } else {
        push_dec_u32(out, v as u32);
    }
}

/// Append the canonical `[x,y]` encoding of a coordinate.
fn push_coord(out: &mut Vec<u8>, c: (i32, i32))
    ensures
        final(out)@ == old(out)@ + coord_json(c.0 as int, c.1 as int),
{
    let ghost pre = out@;
    out.push(91);
    push_dec_i32(out, c.0);
    out.push(44);
    push_dec_i32(out, c.1);
    out.push(93);
    proof {
        assert(final(out)@ =~= pre + coord_json(c.0 as int, c.1 as int));
    }
}

/// Append `true`, `false` or `null` for one occupancy.
fn push_occ(out: &mut Vec<u8>, v: Option<bool>)
    ensures
        final(out)@ == old(out)@ + occ_json(v),
{
    let ghost pre = out@;
    match v {
        Some(true) => {
            out.push(116);
            out.push(114);
            out.push(117);
            out.push(101);
        },
        Some(false) => {
            out.push(102);
            out.push(97);
            out.push(108);
            out.push(115);
            out.push(101);
        },
        None => {
            out.push(110);
            out.push(117);
            out.push(108);
            out.push(108);
        },
    }
    proof {
        assert(final(out)@ =~= pre + occ_json(v));
    }
}

/// Append the `[[x,y],occupancy]` encoding of one board entry.
fn push_entry(out: &mut Vec<u8>, e: ((i32, i32), Option<bool>))
    ensures
        final(out)@ == old(out)@ + board_entry_json(e),
{
    let ghost pre = out@;
    out.push(91);
    push_coord(out, e.0);
    out.push(44);
    push_occ(out, e.1);
    out.push(93);
    proof {
        assert(final(out)@ =~= pre + board_entry_json(e));
    }
}

/// Extending a board list by one entry appends a comma (except before the
/// first entry) and the entry's encoding.
proof fn lemma_board_list_step(s: Seq<((i32, i32), Option<bool>)>, i: int)
    requires
        0 <= i < s.len(),
    ensures
        board_list_json(s.take(i + 1)) == board_list_json(s.take(i)) + (if i == 0 {
            Seq::<u8>::empty()
        } else {
            seq![44u8]
        }) + board_entry_json(s[i]),
{
    let t = s.take(i + 1);
    assert(t.drop_last() =~= s.take(i));
    assert(t.last() == s[i]);
    if i == 0 {
        assert(board_list_json(t) =~= board_list_json(s.take(0)) + Seq::<u8>::empty()
            + board_entry_json(s[0]));
    } else {
        assert(board_list_json(t) =~= board_list_json(s.take(i)) + seq![44u8]
            + board_entry_json(s[i]));
    }
}

/// Extending a coordinate list by one coordinate appends a comma (except
/// before the first) and the coordinate's encoding.
proof fn lemma_coord_list_step(s: Seq<(i32, i32)>, i: int)
    requires
        0 <= i < s.len(),
    ensures
        coord_list_json(s.take(i + 1)) == coord_list_json(s.take(i)) + (if i == 0 {
            Seq::<u8>::empty()
        } else {
            seq![44u8]
        }) + coord_json(s[i].0 as int, s[i].1 as int),
{
    let t = s.take(i + 1);
    assert(t.drop_last() =~= s.take(i));
    assert(t.last() == s[i]);
    if i == 0 {
        assert(coord_list_json(t) =~= coord_list_json(s.take(0)) + Seq::<u8>::empty()
            + coord_json(s[0].0 as int, s[0].1 as int));
    } else {
        assert(coord_list_json(t) =~= coord_list_json(s.take(i)) + seq![44u8]
            + coord_json(s[i].0 as int, s[i].1 as int));
    }
}

/// Encode a whole turn input in its canonical JSON form.
pub fn encode_strain_input(input: &StrainInput) -> (r: Vec<u8>)
    ensures
        r@ == strain_input_json(input.board@, input.allowed@),
{
    let mut out: Vec<u8> = Vec::new();
    out.push(123);
    out.push(34);
    out.push(98);
    out.push(111);
    out.push(97);
    out.push(114);
    out.push(100);
    out.push(34);
    out.push(58);
    out.push(91);
    proof {
        assert(out@ =~= json_header());
        assert(input.board@.take(0) =~= Seq::<((i32, i32), Option<bool>)>::empty());
        assert(out@ =~= json_header() + board_list_json(input.board@.take(0)));
    }
    let n: usize = input.board.len();
    let mut i: usize = 0;
    while i < n
        invariant
            n == input.board@.len(),
            0 <= i <= n,
            out@ == json_header() + board_list_json(input.board@.take(i as int)),
        decreases n - i,
    {
        let ghost pre = out@;
        if i > 0 {
            out.push(44);
        }
        push_entry(&mut out, input.board[i]);
        proof {
            lemma_board_list_step(input.board@, i as int);
            if i > 0 {
                assert(out@ =~= json_header() + board_list_json(
                    input.board@.take(i as int + 1),
                ));
            } else {
                assert(out@ =~= json_header() + board_list_json(
                    input.board@.take(i as int + 1),
                ));
            }
        }
        i = i + 1;
    }
    proof {
        assert(input.board@.take(n as int) =~= input.board@);
    }
    let ghost after_board = json_header() + board_list_json(input.board@);
    out.push(93);
    out.push(44);
    out.push(34);
    out.push(97);
    out.push(108);
    out.push(108);
    out.push(111);
    out.push(119);
    out.push(101);
    out.push(100);
    out.push(34);
    out.push(58);
    out.push(91);
    proof {
        assert(out@ =~= after_board + json_middle());
        assert(input.allowed@.take(0) =~= Seq::<(i32, i32)>::empty());
        assert(out@ =~= after_board + json_middle() + coord_list_json(input.allowed@.take(0)));
    }
    let an: usize = input.allowed.len();
    let mut k: usize = 0;
    while k < an
        invariant
            an == input.allowed@.len(),
            0 <= k <= an,
            after_board == json_header() + board_list_json(input.board@),
            out@ == after_board + json_middle() + coord_list_json(input.allowed@.take(k as int)),
        decreases an - k,
    {
        if k > 0 {
            out.push(44);
        }
        push_coord(&mut out, input.allowed[k]);
        proof {
            lemma_coord_list_step(input.allowed@, k as int);
            assert(out@ =~= after_board + json_middle() + coord_list_json(
                input.allowed@.take(k as int + 1),
            ));
        }
        k = k + 1;
    }
    proof {
        assert(input.allowed@.take(an as int) =~= input.allowed@);
    }
    out.push(93);
    out.push(125);
    proof {
        assert(out@ =~= strain_input_json(input.board@, input.allowed@));
    }
    out
}

/// An ASCII decimal digit.
pub open spec fn is_digit(b: u8) -> bool {
    48 <= b <= 57
}

/// Every byte of the sequence is a decimal digit.
pub open spec fn all_digits(s: Seq<u8>) -> bool {
    forall|i: int| 0 <= i < s.len() ==> is_digit(#[trigger] s[i])
}

/// The value of a digit sequence read as a decimal number.
pub open spec fn digits_val(s: Seq<u8>) -> int
    decreases s.len(),
{
    if s.len() == 0 {
        0
    } else {
        digits_val(s.drop_last()) * 10 + (s.last() - 48)
    }
}

/// Powers of ten.
pub open spec fn pow10(k: nat) -> int
    decreases k,
{
    if k == 0 {
        1
    } else {
        10 * pow10((k - 1) as nat)
    }
}

proof fn lemma_pow10_mono(a: nat, b: nat)
    requires
        a <= b,
    ensures
        1 <= pow10(a) <= pow10(b),
    decreases b,
{
    if b > 0 {
        if a == b {
            lemma_pow10_mono((a - 1) as nat, (b - 1) as nat);
        } else {
            lemma_pow10_mono(a, (b - 1) as nat);
        }
    }
}

/// Shape of the canonical digits: nonempty, all digits, a leading zero only
/// for the number zero itself, one digit exactly for numbers below ten.
proof fn lemma_dec_nat_shape(n: nat)
    ensures
        dec_nat(n).len() >= 1,
        all_digits(dec_nat(n)),
        dec_nat(n)[0] == 48 ==> n == 0 && dec_nat(n).len() == 1,
        (n < 10) <==> (dec_nat(n).len() == 1),
    decreases n,
{
    if n >= 10 {
        lemma_dec_nat_shape(n / 10);
        assert(dec_nat(n)[0] == dec_nat(n / 10)[0]);
        assert forall|i: int| 0 <= i < dec_nat(n).len() implies is_digit(
            #[trigger] dec_nat(n)[i],
        ) by {
            if i < dec_nat(n).len() - 1 {
                assert(dec_nat(n)[i] == dec_nat(n / 10)[i]);
            }
        };
    }
}

/// Reading the canonical digits of `n` back gives `n`.
proof fn lemma_dec_nat_val(n: nat)
    ensures
        digits_val(dec_nat(n)) == n,
    decreases n,
{
    if n < 10 {
        assert(dec_nat(n).drop_last().len() == 0);
        assert(digits_val(dec_nat(n).drop_last()) == 0);
        assert(((48 + n) as u8) as int == 48 + n);
    } else {
        lemma_dec_nat_val(n / 10);
        assert(dec_nat(n).drop_last() =~= dec_nat(n / 10));
        vstd::arithmetic::div_mod::lemma_fundamental_div_mod(n as int, 10);
        vstd::arithmetic::div_mod::lemma_mod_division_less_than_divisor(n as int, 10);
        let ni = n as int;
        assert(n % 10 == ni % 10);
        assert((n / 10) as int == ni / 10);
        assert(0 <= ni % 10 < 10);
        assert(dec_nat(n).last() == (48 + n % 10) as u8);
        assert(((48 + n % 10) as u8) as int == 48 + ni % 10);
        assert(digits_val(dec_nat(n)) == digits_val(dec_nat(n / 10)) * 10 + (dec_nat(n).last()
            - 48));
        assert(digits_val(dec_nat(n)) == (ni / 10) * 10 + ni % 10);
    }
}

/// A digit sequence with a nonzero leading digit is at least the power of
/// ten of its remaining length.
proof fn lemma_digits_val_lower(s: Seq<u8>)
    requires
        all_digits(s),
        s.len() >= 1,
        s[0] >= 49,
    ensures
        digits_val(s) >= pow10((s.len() - 1) as nat),
    decreases s.len(),
{
    if s.len() == 1 {
        assert(s.drop_last().len() == 0);
        assert(digits_val(s.drop_last()) == 0);
        assert(digits_val(s) == s[0] - 48);
    } else {
        let sub = s.drop_last();
        assert(sub[0] == s[0]);
        lemma_digits_val_lower(sub);
        lemma_pow10_mono(0, (sub.len() - 1) as nat);
        assert(digits_val(sub) * 10 >= pow10((sub.len() - 1) as nat) * 10) by (nonlinear_arith)
            requires
                digits_val(sub) >= pow10((sub.len() - 1) as nat),
                pow10((sub.len() - 1) as nat) >= 0,
        ;
        assert(is_digit(s.last()));
        assert(pow10((s.len() - 1) as nat) == 10 * pow10((sub.len() - 1) as nat));
    }
}

/// A digit sequence is below the power of ten of its length.
proof fn lemma_digits_val_upper(s: Seq<u8>)
    requires
        all_digits(s),
    ensures
        0 <= digits_val(s) < pow10(s.len() as nat),
    decreases s.len(),
{
    if s.len() > 0 {
        let sub = s.drop_last();
        lemma_digits_val_upper(sub);
        assert(digits_val(sub) * 10 + 9 < pow10(sub.len() as nat) * 10) by (nonlinear_arith)
            requires
                0 <= digits_val(sub) < pow10(sub.len() as nat),
        ;
    }
}

/// A nonempty all-digit sequence without a leading zero (except the single
/// digit zero) is the canonical encoding of its own value.
proof fn lemma_canonical_digits(s: Seq<u8>)
    requires
        all_digits(s),
        s.len() >= 1,
        s[0] != 48 || s.len() == 1,
    ensures
        s == dec_nat(digits_val(s) as nat),
    decreases s.len(),
{
    lemma_digits_val_upper(s);
    if s.len() == 1 {
        assert(s.drop_last().len() == 0);
        assert(digits_val(s.drop_last()) == 0);
        assert(digits_val(s) == s[0] - 48);
        assert(s =~= dec_nat(digits_val(s) as nat));
    } else {
        let sub = s.drop_last();
        assert(sub[0] == s[0]);
        lemma_canonical_digits(sub);
        lemma_digits_val_lower(sub);
        lemma_pow10_mono(0, (sub.len() - 1) as nat);
        let v = digits_val(s);
        let d = s.last() - 48;
        assert(v == digits_val(sub) * 10 + d);
        assert(v >= 10) by (nonlinear_arith)
            requires
                digits_val(sub) >= 1,
                d >= 0,
                v == digits_val(sub) * 10 + d,
        ;
        vstd::arithmetic::div_mod::lemma_fundamental_div_mod_converse(
            v,
            10,
            digits_val(sub),
            d,
        );
        assert(dec_nat(v as nat) == dec_nat((v as nat) / 10).push((48 + (v as nat) % 10) as u8));
        assert((v as nat) / 10 == digits_val(sub));
        assert((v as nat) % 10 == d);
        assert(s =~= dec_nat(v as nat));
    }
}

/// Shape of a canonical signed encoding: a minus sign exactly for negative
/// numbers, digits everywhere after the first byte.
proof fn lemma_dec_int_shape(v: int)
    ensures
        dec_int(v).len() >= 1,
        v >= 0 ==> dec_int(v) == dec_nat(v as nat) && is_digit(dec_int(v)[0]),
        v < 0 ==> dec_int(v)[0] == 45 && dec_int(v).len() >= 2 && dec_int(v).subrange(
            1,
            dec_int(v).len() as int,
        ) == dec_nat((-v) as nat) && dec_int(v)[1] != 48,
        forall|i: int| 1 <= i < dec_int(v).len() ==> is_digit(#[trigger] dec_int(v)[i]),
{
    if v < 0 {
        lemma_dec_nat_shape((-v) as nat);
        assert(dec_int(v).subrange(1, dec_int(v).len() as int) =~= dec_nat((-v) as nat));
        assert(dec_int(v)[1] == dec_nat((-v) as nat)[0]);
        assert forall|i: int| 1 <= i < dec_int(v).len() implies is_digit(
            #[trigger] dec_int(v)[i],
        ) by {
            assert(dec_int(v)[i] == dec_nat((-v) as nat)[i - 1]);
        };
    } else {
        lemma_dec_nat_shape(v as nat);
    }
}

/// The canonical signed encoding is injective.
proof fn lemma_dec_int_injective(a: int, b: int)
    requires
        dec_int(a) == dec_int(b),
    ensures
        a == b,
{
    lemma_dec_int_shape(a);
    lemma_dec_int_shape(b);
    lemma_dec_nat_val((if a < 0 {
        -a
    } else {
        a
    }) as nat);
    lemma_dec_nat_val((if b < 0 {
        -b
    } else {
        b
    }) as nat);
    if a < 0 && b < 0 {
        assert(dec_nat((-a) as nat) == dec_nat((-b) as nat));
    } else if a >= 0 && b >= 0 {
        assert(dec_nat(a as nat) == dec_nat(b as nat));
    }
}

/// The bytes from `start` to `end` hold the canonical encoding of `v`, and
/// the encoding cannot be extended: the next byte, if any, is not a digit.
pub open spec fn maximal_int_at(bytes: Seq<u8>, start: int, v: int, end: int) -> bool {
    &&& 0 <= start < end <= bytes.len()
    &&& bytes.subrange(start, end) == dec_int(v)
    &&& (end == bytes.len() || !is_digit(bytes[end]))
}

/// At one position of a byte sequence there is at most one maximal
/// canonical integer.
proof fn lemma_maximal_int_unique(bytes: Seq<u8>, start: int, v1: int, end1: int, v2: int, end2: int)
    requires
        maximal_int_at(bytes, start, v1, end1),
        maximal_int_at(bytes, start, v2, end2),
    ensures
        v1 == v2,
        end1 == end2,
{
    lemma_dec_int_shape(v1);
    lemma_dec_int_shape(v2);
    if end1 < end2 {
        assert(bytes[end1] == bytes.subrange(start, end2)[end1 - start]);
        assert(is_digit(dec_int(v2)[end1 - start]));
        assert(false);
    }
    if end2 < end1 {
        assert(bytes[end2] == bytes.subrange(start, end1)[end2 - start]);
        assert(is_digit(dec_int(v1)[end2 - start]));
        assert(false);
    }
    lemma_dec_int_injective(v1, v2);
}

/// A maximal canonical integer at `start` ends exactly at the end of the
/// digit run that begins there, and its magnitude is the value of that run.
#[verifier::rlimit(100)]
#[verifier::spinoff_prover]
proof fn lemma_forced_end(bytes: Seq<u8>, start: int, v: int, end: int, d0: int, run_end: int)
    requires
        maximal_int_at(bytes, start, v, end),
        d0 == (if bytes[start] == 45 {
            start + 1
        } else {
            start
        }),
        d0 < run_end <= bytes.len(),
        forall|i: int| d0 <= i < run_end ==> is_digit(#[trigger] bytes[i]),
        run_end == bytes.len() || !is_digit(bytes[run_end]),
    ensures
        end == run_end,
        (v < 0) <==> (bytes[start] == 45),
        bytes.subrange(d0, run_end) == dec_nat((if v < 0 {
            -v
        } else {
            v
        }) as nat),
        digits_val(bytes.subrange(d0, run_end)) == (if v < 0 {
            -v
        } else {
            v
        }),
{
    lemma_dec_int_shape(v);
    let m = (if v < 0 {
        -v
    } else {
        v
    }) as nat;
    lemma_dec_nat_shape(m);
    assert(bytes[start] == dec_int(v)[0]);
    if v < 0 {
        assert(bytes.subrange(d0, end) =~= dec_int(v).subrange(1, dec_int(v).len() as int));
    } else {
        assert(bytes[start] != 45);
        assert(bytes.subrange(d0, end) =~= dec_int(v));
    }
    assert(bytes.subrange(d0, end) == dec_nat(m));
    assert(end > d0);
    if end < run_end {
        assert(is_digit(bytes[end]));
        assert(false);
    }
    if end > run_end {
        assert(bytes[run_end] == bytes.subrange(d0, end)[run_end - d0]);
        assert(is_digit(dec_nat(m)[run_end - d0]));
        assert(false);
    }
    lemma_dec_nat_val(m);
}

/// Parse the maximal canonical integer starting at `start`: its value and
/// the position just past it. Returns `None` exactly when no canonical
/// `i32` stands there.
fn parse_int(bytes: &Vec<u8>, start: usize) -> (r: Option<(i32, usize)>)
    requires
        start <= bytes@.len(),
    ensures
        match r {
            Some(p) => maximal_int_at(bytes@, start as int, p.0 as int, p.1 as int),
            None => forall|v: int, end: int|
                i32::MIN <= v <= i32::MAX ==> !(#[trigger] maximal_int_at(
                    bytes@,
                    start as int,
                    v,
                    end,
                )),
        },
{
    let n: usize = bytes.len();
    if start >= n {
        return None;
    }
    let neg: bool = bytes[start] == 45;
    let d0: usize = if neg {
        start + 1
    } else {
        start
    };
    if d0 >= n || bytes[d0] < 48 || bytes[d0] > 57 {
        proof {
            assert forall|v: int, end: int| i32::MIN <= v <= i32::MAX implies !(
            #[trigger] maximal_int_at(bytes@, start as int, v, end)) by {
                if maximal_int_at(bytes@, start as int, v, end) {
                    lemma_dec_int_shape(v);
                    assert(bytes@[start as int] == dec_int(v)[0]);
                    if v < 0 {
                        assert(end - (start as int) >= 2);
                        assert(bytes@[start as int + 1] == dec_int(v)[1]);
                    }
                }
            };
        }
        return None;
    }
    let mut run_end: usize = d0;
    while run_end < n && bytes[run_end] >= 48 && bytes[run_end] <= 57
        invariant
            d0 <= run_end <= n,
            n == bytes@.len(),
            forall|i: int| d0 <= i < run_end ==> is_digit(#[trigger] bytes@[i]),
        decreases n - run_end,
    {
        run_end = run_end + 1;
    }
    proof {
        assert(d0 < run_end);
    }
    if bytes[d0] == 48 {
        if neg {
            proof {
                assert forall|v: int, end: int| i32::MIN <= v <= i32::MAX implies !(
                #[trigger] maximal_int_at(bytes@, start as int, v, end)) by {
                    if maximal_int_at(bytes@, start as int, v, end) {
                        lemma_forced_end(
                            bytes@,
                            start as int,
                            v,
                            end,
                            d0 as int,
                            run_end as int,
                        );
                        lemma_dec_int_shape(v);
                        assert(bytes@[d0 as int] == dec_int(v)[1]);
                    }
                };
            }
            return None;
        }
        if run_end > d0 + 1 {
            proof {
                assert forall|v: int, end: int| i32::MIN <= v <= i32::MAX implies !(
                #[trigger] maximal_int_at(bytes@, start as int, v, end)) by {
                    if maximal_int_at(bytes@, start as int, v, end) {
                        lemma_forced_end(
                            bytes@,
                            start as int,
                            v,
                            end,
                            d0 as int,
                            run_end as int,
                        );
                        let m = (if v < 0 {
                            -v
                        } else {
                            v
                        }) as nat;
                        lemma_dec_nat_shape(m);
                        assert(dec_nat(m)[0] == bytes@[d0 as int]);
                        assert(dec_nat(m).len() == run_end - d0);
                    }
                };
            }
            return None;
        }
        proof {
            assert(!neg && start == d0);
            assert(bytes@.subrange(start as int, run_end as int) =~= dec_nat(0));
            assert(maximal_int_at(bytes@, start as int, 0, run_end as int));
        }
        return Some((0, run_end));
    }
    if run_end - d0 > 10 {
        proof {
            assert forall|v: int, end: int| i32::MIN <= v <= i32::MAX implies !(
            #[trigger] maximal_int_at(bytes@, start as int, v, end)) by {
                if maximal_int_at(bytes@, start as int, v, end) {
                    lemma_forced_end(bytes@, start as int, v, end, d0 as int, run_end as int);
                    let run = bytes@.subrange(d0 as int, run_end as int);
                    assert(run[0] == bytes@[d0 as int]);
                    lemma_digits_val_lower(run);
                    lemma_pow10_mono(10, (run.len() - 1) as nat);
                    assert(pow10(10) == 10000000000) by {
                        reveal_with_fuel(pow10, 12);
                    };
                }
            };
        }
        return None;
    }
    let mut acc: u64 = 0;
    let mut pos: usize = d0;
    proof {
        assert(bytes@.subrange(d0 as int, d0 as int) =~= Seq::<u8>::empty());
        assert(pow10(0) == 1) by {
            reveal_with_fuel(pow10, 1);
        };
    }
    while pos < run_end
        invariant
            d0 <= pos <= run_end <= n,
            n == bytes@.len(),
            run_end - d0 <= 10,
            forall|i: int| d0 <= i < run_end ==> is_digit(#[trigger] bytes@[i]),
            acc == digits_val(bytes@.subrange(d0 as int, pos as int)),
            0 <= acc < pow10((pos - d0) as nat),
        decreases run_end - pos,
    {
        let d: u8 = bytes[pos];
        proof {
            lemma_pow10_mono((pos - d0) as nat, 9);
            assert(pow10(9) == 1000000000) by {
                reveal_with_fuel(pow10, 10);
            };
            assert(bytes@.subrange(d0 as int, pos as int + 1).drop_last() =~= bytes@.subrange(
                d0 as int,
                pos as int,
            ));
        }
        acc = acc * 10 + ((d - 48) as u64);
        proof {
            assert(acc < pow10((pos + 1 - d0) as nat)) by (nonlinear_arith)
                requires
                    acc == digits_val(bytes@.subrange(d0 as int, pos as int)) * 10 + (bytes@[
                    pos as int] - 48),
                    digits_val(bytes@.subrange(d0 as int, pos as int)) < pow10((pos - d0) as nat),
                    digits_val(bytes@.subrange(d0 as int, pos as int)) >= 0,
                    bytes@[pos as int] - 48 < 10,
                    pow10((pos + 1 - d0) as nat) == 10 * pow10((pos - d0) as nat),
            ;
        }
        pos = pos + 1;
    }
    let ghost run = bytes@.subrange(d0 as int, run_end as int);
    let limit: u64 = if neg {
        2147483648
    } else {
        2147483647
    };
    if acc > limit {
        proof {
            assert forall|v: int, end: int| i32::MIN <= v <= i32::MAX implies !(
            #[trigger] maximal_int_at(bytes@, start as int, v, end)) by {
                if maximal_int_at(bytes@, start as int, v, end) {
                    lemma_forced_end(bytes@, start as int, v, end, d0 as int, run_end as int);
                }
            };
        }
        return None;
    }
    proof {
        assert(run[0] == bytes@[d0 as int]);
        lemma_canonical_digits(run);
        lemma_digits_val_lower(run);
        lemma_pow10_mono(0, (run.len() - 1) as nat);
    }
    if neg {
        let v: i32 = (-(acc as i64)) as i32;
        proof {
            assert(v as int == -(acc as int));
            assert(dec_int(v as int) == seq![45u8] + dec_nat(acc as nat));
            assert(bytes@.subrange(start as int, run_end as int) =~= dec_int(v as int));
            assert(maximal_int_at(bytes@, start as int, v as int, run_end as int));
        }
        return Some((v, run_end));
    } else {
        let v: i32 = acc as i32;
        proof {
            assert(dec_int(v as int) == dec_nat(acc as nat));
            assert(bytes@.subrange(start as int, run_end as int) =~= dec_int(v as int));
            assert(maximal_int_at(bytes@, start as int, v as int, run_end as int));
        }
        return Some((v, run_end));
    }
}

/// Parse a strain's reply: exactly the canonical `[x,y]` encoding of a
/// coordinate, and nothing else.
pub fn parse_coord(bytes: &Vec<u8>) -> (r: Option<(i32, i32)>)
    ensures
        match r {
            Some(m) => bytes@ == coord_json(m.0 as int, m.1 as int),
            None => forall|x: int, y: int|
                i32::MIN <= x <= i32::MAX && i32::MIN <= y <= i32::MAX ==> bytes@ != #[trigger]
                coord_json(x, y),
        },
{
    let n: usize = bytes.len();
    if n == 0 || bytes[0] != 91 {
        proof {
            assert forall|x: int, y: int|
                i32::MIN <= x <= i32::MAX && i32::MIN <= y <= i32::MAX implies bytes@
                != #[trigger] coord_json(x, y) by {
                assert(coord_json(x, y)[0] == 91);
                assert(coord_json(x, y).len() > 0);
            };
        }
        return None;
    }
    let ghost gb = bytes@;
    let first = parse_int(bytes, 1);
    match first {
        None => {
            proof {
                assert forall|x: int, y: int|
                    i32::MIN <= x <= i32::MAX && i32::MIN <= y <= i32::MAX implies gb
                    != #[trigger] coord_json(x, y) by {
                    if gb == coord_json(x, y) {
                        lemma_coord_json_first_int(gb, x, y);
                    }
                };
            }
            None
        },
        Some((x, p)) => {
            if p >= n || bytes[p] != 44 {
                proof {
                    assert forall|x0: int, y0: int|
                        i32::MIN <= x0 <= i32::MAX && i32::MIN <= y0 <= i32::MAX implies gb
                        != #[trigger] coord_json(x0, y0) by {
                        if gb == coord_json(x0, y0) {
                            lemma_coord_json_first_int(gb, x0, y0);
                            let ex = 1 + dec_int(x0).len() as int;
                            lemma_maximal_int_unique(gb, 1, x as int, p as int, x0, ex);
                        }
                    };
                }
                return None;
            }
            let second = parse_int(bytes, p + 1);
            match second {
                None => {
                    proof {
                        assert forall|x0: int, y0: int|
                            i32::MIN <= x0 <= i32::MAX && i32::MIN <= y0 <= i32::MAX implies gb
                            != #[trigger] coord_json(x0, y0) by {
                            if gb == coord_json(x0, y0) {
                                lemma_coord_json_first_int(gb, x0, y0);
                                lemma_coord_json_second_int(gb, x0, y0);
                                let ex = 1 + dec_int(x0).len() as int;
                                lemma_maximal_int_unique(gb, 1, x as int, p as int, x0, ex);
                            }
                        };
                    }
                    None
                },
                Some((y, q)) => {
                    if q < n && bytes[q] == 93 && q + 1 == n {
                        proof {
                            assert(gb =~= coord_json(x as int, y as int));
                        }
                        Some((x, y))
                    } else {
                        proof {
                            assert forall|x0: int, y0: int|
                                i32::MIN <= x0 <= i32::MAX && i32::MIN <= y0 <= i32::MAX implies gb
                                != #[trigger] coord_json(x0, y0) by {
                                if gb == coord_json(x0, y0) {
                                    lemma_coord_json_first_int(gb, x0, y0);
                                    lemma_coord_json_second_int(gb, x0, y0);
                                    let ex = 1 + dec_int(x0).len() as int;
                                    lemma_maximal_int_unique(gb, 1, x as int, p as int, x0, ex);
                                    let ey = ex + 1 + dec_int(y0).len() as int;
                                    lemma_maximal_int_unique(
                                        gb,
                                        p as int + 1,
                                        y as int,
                                        q as int,
                                        y0,
                                        ey,
                                    );
                                }
                            };
                        }
                        None
                    }
                },
            }
        },
    }
}

/// In an encoded coordinate the first integer stands maximally right after
/// the opening bracket, followed by the comma.
proof fn lemma_coord_json_first_int(bytes: Seq<u8>, x: int, y: int)
    requires
        bytes == coord_json(x, y),
    ensures
        maximal_int_at(bytes, 1, x, 1 + dec_int(x).len() as int),
        bytes[1 + dec_int(x).len() as int] == 44,
{
    lemma_dec_int_shape(x);
    lemma_dec_int_shape(y);
    let lx = dec_int(x).len() as int;
    assert(bytes.subrange(1, 1 + lx) =~= dec_int(x));
    assert(bytes[1 + lx] == 44);
}

/// In an encoded coordinate the second integer stands maximally right
/// after the comma, followed by the closing bracket at the very end.
proof fn lemma_coord_json_second_int(bytes: Seq<u8>, x: int, y: int)
    requires
        bytes == coord_json(x, y),
    ensures
        maximal_int_at(bytes, 2 + dec_int(x).len() as int, y, 2 + dec_int(x).len() as int
            + dec_int(y).len() as int),
        bytes[2 + dec_int(x).len() as int + dec_int(y).len() as int] == 93,
        bytes.len() == 3 + dec_int(x).len() + dec_int(y).len(),
{
    lemma_dec_int_shape(x);
    lemma_dec_int_shape(y);
    let lx = dec_int(x).len() as int;
    let ly = dec_int(y).len() as int;
    assert(bytes.subrange(2 + lx, 2 + lx + ly) =~= dec_int(y));
    assert(bytes[2 + lx + ly] == 93);
}

} // verus!
