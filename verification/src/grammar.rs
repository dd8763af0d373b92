//! The grammar model: one specification function per JSON production.
//!
//! Each `scan_*` function says, for an input byte sequence `s` and a start
//! position `i`, where the production stops, which bytes it writes, and
//! whether it applied a comma correction — or which syntax error it raises.
//! The executable walker in `parser` is proved to behave exactly like this
//! model, and the laws (identity on valid input, comma locality,
//! idempotence) are proved of the model itself.

use crate::outcome::SyntaxError;
use vstd::prelude::*;

verus! {

// ---------------------------------------------------------------------------
// Byte classes
//
// The byte values spelled out below and in the productions:
//   0x09 0x0a 0x0d 0x20   tab, newline, carriage return, space
//   0x22  "    0x2c  ,    0x3a  :    0x5c  \
//   0x7b  {    0x7d  }    0x5b  [    0x5d  ]
//   0x2b  +    0x2d  -    0x2e  .    0x30  0    0x65  e    0x45  E
//   0x6e n  0x74 t  0x66 f  0x75 u   (literal and escape spellings)
// ---------------------------------------------------------------------------

/// The four JSON whitespace bytes: tab, newline, carriage return, space.
pub open spec fn is_ws(b: u8) -> bool {
    b == 0x09 || b == 0x0a || b == 0x0d || b == 0x20
}

/// ASCII decimal digit.
pub open spec fn is_digit(b: u8) -> bool {
    0x30 <= b && b <= 0x39
}

/// ASCII digit other than zero.
pub open spec fn is_onenine(b: u8) -> bool {
    0x31 <= b && b <= 0x39
}

/// ASCII hexadecimal digit, either case.
pub open spec fn is_hex_digit(b: u8) -> bool {
    is_digit(b) || (0x41 <= b && b <= 0x46) || (0x61 <= b && b <= 0x66)
}

/// The escape characters that stand for themselves after a backslash:
/// `" \ / b f n r t`.
pub open spec fn is_simple_escape(b: u8) -> bool {
    b == 0x22 || b == 0x5c || b == 0x2f || b == 0x62 || b == 0x66 || b == 0x6e
        || b == 0x72 || b == 0x74
}

/// A byte that can open a JSON value.
pub open spec fn is_value_start(b: u8) -> bool {
    b == 0x6e || b == 0x74 || b == 0x66 || b == 0x7b || b == 0x5b || b == 0x22
        || b == 0x2d || is_digit(b)
}

/// Canonical spelling of the `null` literal.
pub open spec fn lit_null() -> Seq<u8> {
    seq![0x6eu8, 0x75u8, 0x6cu8, 0x6cu8]
}

/// Canonical spelling of the `true` literal.
pub open spec fn lit_true() -> Seq<u8> {
    seq![0x74u8, 0x72u8, 0x75u8, 0x65u8]
}

/// Canonical spelling of the `false` literal.
pub open spec fn lit_false() -> Seq<u8> {
    seq![0x66u8, 0x61u8, 0x6cu8, 0x73u8, 0x65u8]
}

// ---------------------------------------------------------------------------
// Maximal runs
// ---------------------------------------------------------------------------

/// End of the maximal whitespace run starting at `i`.
pub open spec fn ws_end(s: Seq<u8>, i: int) -> int
    decreases s.len() - i,
{
    if 0 <= i < s.len() && is_ws(s[i]) {
        ws_end(s, i + 1)
    } else {
        i
    }
}

/// End of the maximal digit run starting at `i`.
pub open spec fn digits_end(s: Seq<u8>, i: int) -> int
    decreases s.len() - i,
{
    if 0 <= i < s.len() && is_digit(s[i]) {
        digits_end(s, i + 1)
    } else {
        i
    }
}

/// Where the maximal whitespace run ends: never before `i`, never past the
/// end, all whitespace inside, and a non-whitespace byte (or the end) after.
pub proof fn lemma_ws_end(s: Seq<u8>, i: int)
    requires
        0 <= i <= s.len(),
    ensures
        i <= ws_end(s, i) <= s.len(),
        forall|k: int| i <= k < ws_end(s, i) ==> is_ws(#[trigger] s[k]),
        ws_end(s, i) < s.len() ==> !is_ws(s[ws_end(s, i)]),
    decreases s.len() - i,
{
    if i < s.len() && is_ws(s[i]) {
        lemma_ws_end(s, i + 1);
    }
}

/// As `lemma_ws_end`, for the maximal digit run.
pub proof fn lemma_digits_end(s: Seq<u8>, i: int)
    requires
        0 <= i <= s.len(),
    ensures
        i <= digits_end(s, i) <= s.len(),
        forall|k: int| i <= k < digits_end(s, i) ==> is_digit(#[trigger] s[k]),
        digits_end(s, i) < s.len() ==> !is_digit(s[digits_end(s, i)]),
    decreases s.len() - i,
{
    if i < s.len() && is_digit(s[i]) {
        lemma_digits_end(s, i + 1);
    }
}

// ---------------------------------------------------------------------------
// The result of one production
// ---------------------------------------------------------------------------

/// What one production did on success: the position after the last byte it
/// consumed, the bytes it wrote, and whether it applied a comma correction.
#[verifier::ext_equal]
pub struct Walked {
    pub end: int,
    pub out: Seq<u8>,
    pub rep: bool,
}

/// Shorthand constructor for `Walked`.
pub open spec fn walked(end: int, out: Seq<u8>, rep: bool) -> Walked {
    Walked { end, out, rep }
}

/// Outcome of one production: success or a syntax error.
pub type WalkResult = Result<Walked, SyntaxError>;

// ---------------------------------------------------------------------------
// Strings
// ---------------------------------------------------------------------------

/// One escape sequence, entered just after the backslash. Writes the
/// backslash and the escape spelling, all six characters for `\uXXXX`.
pub open spec fn scan_escape(s: Seq<u8>, i: int) -> WalkResult {
    if i >= s.len() {
        Err(SyntaxError::UnexpectedEof)
    } else if is_simple_escape(s[i]) {
        Ok(walked(i + 1, seq![0x5cu8, s[i]], false))
    } else if s[i] == 0x75 {
        if i + 1 >= s.len() {
            Err(SyntaxError::UnexpectedEof)
        } else if !is_hex_digit(s[i + 1]) {
            Err(SyntaxError::InvalidValue)
        } else if i + 2 >= s.len() {
            Err(SyntaxError::UnexpectedEof)
        } else if !is_hex_digit(s[i + 2]) {
            Err(SyntaxError::InvalidValue)
        } else if i + 3 >= s.len() {
            Err(SyntaxError::UnexpectedEof)
        } else if !is_hex_digit(s[i + 3]) {
            Err(SyntaxError::InvalidValue)
        } else if i + 4 >= s.len() {
            Err(SyntaxError::UnexpectedEof)
        } else if !is_hex_digit(s[i + 4]) {
            Err(SyntaxError::InvalidValue)
        } else {
            Ok(walked(i + 5, seq![0x5cu8, 0x75u8] + s.subrange(i + 1, i + 5), false))
        }
    } else {
        Err(SyntaxError::InvalidValue)
    }
}

/// String contents after the opening quote, up to and including the closing
/// quote. Content bytes are echoed verbatim.
pub open spec fn scan_string_body(s: Seq<u8>, i: int) -> WalkResult
    decreases s.len() - i,
{
    if i < 0 || i >= s.len() {
        Err(SyntaxError::UnexpectedEof)
    } else if s[i] == 0x22 {
        Ok(walked(i + 1, seq![0x22u8], false))
    } else if s[i] == 0x5c {
        match scan_escape(s, i + 1) {
            Err(e) => Err(e),
            Ok(ew) => match scan_string_body(s, ew.end) {
                Err(e) => Err(e),
                Ok(bw) => Ok(walked(bw.end, ew.out + bw.out, bw.rep)),
            },
        }
    } else {
        match scan_string_body(s, i + 1) {
            Err(e) => Err(e),
            Ok(bw) => Ok(walked(bw.end, seq![s[i]] + bw.out, bw.rep)),
        }
    }
}

/// A whole string, opening quote included.
pub open spec fn scan_string(s: Seq<u8>, i: int) -> WalkResult {
    if i < 0 || i >= s.len() {
        Err(SyntaxError::UnexpectedEof)
    } else if s[i] != 0x22 {
        Err(SyntaxError::InvalidValue)
    } else {
        match scan_string_body(s, i + 1) {
            Err(e) => Err(e),
            Ok(bw) => Ok(walked(bw.end, seq![0x22u8] + bw.out, false)),
        }
    }
}

// ---------------------------------------------------------------------------
// Numbers
// ---------------------------------------------------------------------------

/// A non-empty digit run; zero digits is an error.
pub open spec fn scan_digits(s: Seq<u8>, i: int) -> WalkResult {
    if digits_end(s, i) == i {
        if i >= s.len() {
            Err(SyntaxError::UnexpectedEof)
        } else {
            Err(SyntaxError::InvalidValue)
        }
    } else {
        Ok(walked(digits_end(s, i), s.subrange(i, digits_end(s, i)), false))
    }
}

/// The digit part of an integer: a lone zero, or a nonzero digit followed
/// by any further digits.
pub open spec fn scan_int_digits(s: Seq<u8>, i: int) -> WalkResult {
    if i < 0 || i >= s.len() {
        Err(SyntaxError::UnexpectedEof)
    } else if s[i] == 0x30 {
        Ok(walked(i + 1, seq![0x30u8], false))
    } else if is_onenine(s[i]) {
        Ok(walked(digits_end(s, i), s.subrange(i, digits_end(s, i)), false))
    } else {
        Err(SyntaxError::InvalidValue)
    }
}

/// The integer part of a number: at most one leading minus, then digits.
pub open spec fn scan_integer(s: Seq<u8>, i: int) -> WalkResult {
    if i < 0 || i >= s.len() {
        Err(SyntaxError::UnexpectedEof)
    } else if s[i] == 0x2d {
        match scan_int_digits(s, i + 1) {
            Err(e) => Err(e),
            Ok(w) => Ok(walked(w.end, seq![0x2du8] + w.out, false)),
        }
    } else {
        scan_int_digits(s, i)
    }
}

/// The optional fraction part: a dot followed by at least one digit.
pub open spec fn scan_fraction(s: Seq<u8>, i: int) -> WalkResult {
    if i < 0 || i >= s.len() || s[i] != 0x2e {
        Ok(walked(i, Seq::<u8>::empty(), false))
    } else {
        match scan_digits(s, i + 1) {
            Err(e) => Err(e),
            Ok(w) => Ok(walked(w.end, seq![0x2eu8] + w.out, false)),
        }
    }
}

/// An optional sign inside an exponent. Looking past the end of the input
/// is an error here: an exponent mark must be followed by something.
pub open spec fn scan_sign(s: Seq<u8>, i: int) -> WalkResult {
    if i >= s.len() {
        Err(SyntaxError::UnexpectedEof)
    } else if s[i] == 0x2b || s[i] == 0x2d {
        Ok(walked(i + 1, seq![s[i]], false))
    } else {
        Ok(walked(i, Seq::<u8>::empty(), false))
    }
}

/// The optional exponent part: `e` or `E`, an optional sign, digits.
pub open spec fn scan_exponent(s: Seq<u8>, i: int) -> WalkResult {
    if i < 0 || i >= s.len() || (s[i] != 0x65 && s[i] != 0x45) {
        Ok(walked(i, Seq::<u8>::empty(), false))
    } else {
        match scan_sign(s, i + 1) {
            Err(e) => Err(e),
            Ok(sw) => match scan_digits(s, sw.end) {
                Err(e) => Err(e),
                Ok(dw) => Ok(walked(dw.end, seq![s[i]] + sw.out + dw.out, false)),
            },
        }
    }
}

/// A whole number, echoed verbatim: integer, fraction, exponent.
pub open spec fn scan_number(s: Seq<u8>, i: int) -> WalkResult {
    match scan_integer(s, i) {
        Err(e) => Err(e),
        Ok(iw) => match scan_fraction(s, iw.end) {
            Err(e) => Err(e),
            Ok(fw) => match scan_exponent(s, fw.end) {
                Err(e) => Err(e),
                Ok(xw) => Ok(walked(xw.end, iw.out + fw.out + xw.out, false)),
            },
        },
    }
}

// ---------------------------------------------------------------------------
// Structural productions
// ---------------------------------------------------------------------------

/// One JSON value, dispatched on its first byte.
pub open spec fn scan_value(s: Seq<u8>, i: int) -> WalkResult
    decreases s.len() - i, 1int,
{
    if i < 0 || i >= s.len() {
        Err(SyntaxError::UnexpectedEof)
    } else if s[i] == 0x6e {
        if i + 1 >= s.len() {
            Err(SyntaxError::UnexpectedEof)
        } else if s[i + 1] != 0x75 {
            Err(SyntaxError::InvalidValue)
        } else if i + 2 >= s.len() {
            Err(SyntaxError::UnexpectedEof)
        } else if s[i + 2] != 0x6c {
            Err(SyntaxError::InvalidValue)
        } else if i + 3 >= s.len() {
            Err(SyntaxError::UnexpectedEof)
        } else if s[i + 3] != 0x6c {
            Err(SyntaxError::InvalidValue)
        } else {
            Ok(walked(i + 4, lit_null(), false))
        }
    } else if s[i] == 0x74 {
        if i + 1 >= s.len() {
            Err(SyntaxError::UnexpectedEof)
        } else if s[i + 1] != 0x72 {
            Err(SyntaxError::InvalidValue)
        } else if i + 2 >= s.len() {
            Err(SyntaxError::UnexpectedEof)
        } else if s[i + 2] != 0x75 {
            Err(SyntaxError::InvalidValue)
        } else if i + 3 >= s.len() {
            Err(SyntaxError::UnexpectedEof)
        } else if s[i + 3] != 0x65 {
            Err(SyntaxError::InvalidValue)
        } else {
            Ok(walked(i + 4, lit_true(), false))
        }
    } else if s[i] == 0x66 {
        if i + 1 >= s.len() {
            Err(SyntaxError::UnexpectedEof)
        } else if s[i + 1] != 0x61 {
            Err(SyntaxError::InvalidValue)
        } else if i + 2 >= s.len() {
            Err(SyntaxError::UnexpectedEof)
        } else if s[i + 2] != 0x6c {
            Err(SyntaxError::InvalidValue)
        } else if i + 3 >= s.len() {
            Err(SyntaxError::UnexpectedEof)
        } else if s[i + 3] != 0x73 {
            Err(SyntaxError::InvalidValue)
        } else if i + 4 >= s.len() {
            Err(SyntaxError::UnexpectedEof)
        } else if s[i + 4] != 0x65 {
            Err(SyntaxError::InvalidValue)
        } else {
            Ok(walked(i + 5, lit_false(), false))
        }
    } else if s[i] == 0x7b {
        scan_object(s, i)
    } else if s[i] == 0x5b {
        scan_array(s, i)
    } else if s[i] == 0x22 {
        scan_string(s, i)
    } else if s[i] == 0x2d || is_digit(s[i]) {
        scan_number(s, i)
    } else {
        Err(SyntaxError::InvalidValue)
    }
}

/// An object: `{`, whitespace, optional members, an optional trailing comma
/// that is dropped as a repair, `}`.
pub open spec fn scan_object(s: Seq<u8>, i: int) -> WalkResult
    decreases s.len() - i, 0int,
{
    if i < 0 || i >= s.len() || s[i] != 0x7b {
        Err(SyntaxError::InvalidValue)
    } else {
        let w1 = ws_end(s, i + 1);
        if w1 <= i || s.len() < w1 {
            // A whitespace run never moves the cursor backwards nor past the
            // end; the branch keeps the recursion measure decreasing without
            // appeal to that fact.
            Err(SyntaxError::InvalidValue)
        } else if w1 >= s.len() {
            Err(SyntaxError::UnexpectedEof)
        } else {
            let head = seq![0x7bu8] + s.subrange(i + 1, w1);
            let m = if s[w1] == 0x22 {
                scan_members(s, w1)
            } else {
                Ok(walked(w1, Seq::<u8>::empty(), false))
            };
            match m {
                Err(e) => Err(e),
                Ok(mw) => {
                    if mw.end >= s.len() {
                        Err(SyntaxError::UnexpectedEof)
                    } else if s[mw.end] == 0x2c {
                        let w2 = ws_end(s, mw.end + 1);
                        if w2 >= s.len() {
                            Err(SyntaxError::UnexpectedEof)
                        } else if s[w2] != 0x7d {
                            Err(SyntaxError::InvalidValue)
                        } else {
                            Ok(walked(
                                w2 + 1,
                                head + mw.out + s.subrange(mw.end + 1, w2) + seq![0x7du8],
                                true,
                            ))
                        }
                    } else if s[mw.end] == 0x7d {
                        Ok(walked(mw.end + 1, head + mw.out + seq![0x7du8], mw.rep))
                    } else {
                        Err(SyntaxError::InvalidValue)
                    }
                },
            }
        }
    }
}

/// An array: `[`, whitespace, optional elements, an optional trailing comma
/// that is dropped as a repair, `]`.
pub open spec fn scan_array(s: Seq<u8>, i: int) -> WalkResult
    decreases s.len() - i, 0int,
{
    if i < 0 || i >= s.len() || s[i] != 0x5b {
        Err(SyntaxError::InvalidValue)
    } else {
        let w1 = ws_end(s, i + 1);
        if w1 <= i || s.len() < w1 {
            // Guard for the recursion measure, as in `scan_object`.
            Err(SyntaxError::InvalidValue)
        } else if w1 >= s.len() {
            Err(SyntaxError::UnexpectedEof)
        } else {
            let head = seq![0x5bu8] + s.subrange(i + 1, w1);
            let m = if s[w1] != 0x2c && s[w1] != 0x5d {
                scan_elements(s, w1)
            } else {
                Ok(walked(w1, Seq::<u8>::empty(), false))
            };
            match m {
                Err(e) => Err(e),
                Ok(mw) => {
                    if mw.end >= s.len() {
                        Err(SyntaxError::UnexpectedEof)
                    } else if s[mw.end] == 0x2c {
                        let w2 = ws_end(s, mw.end + 1);
                        if w2 >= s.len() {
                            Err(SyntaxError::UnexpectedEof)
                        } else if s[w2] != 0x5d {
                            Err(SyntaxError::InvalidValue)
                        } else {
                            Ok(walked(
                                w2 + 1,
                                head + mw.out + s.subrange(mw.end + 1, w2) + seq![0x5du8],
                                true,
                            ))
                        }
                    } else if s[mw.end] == 0x5d {
                        Ok(walked(mw.end + 1, head + mw.out + seq![0x5du8], mw.rep))
                    } else {
                        Err(SyntaxError::InvalidValue)
                    }
                },
            }
        }
    }
}

/// One element: whitespace, a value, whitespace.
pub open spec fn scan_element(s: Seq<u8>, i: int) -> WalkResult
    decreases s.len() - i, 2int,
{
    let w1 = ws_end(s, i);
    if w1 < i || s.len() < w1 {
        // Guard for the recursion measure, as in `scan_object`.
        Err(SyntaxError::InvalidValue)
    } else {
        match scan_value(s, w1) {
            Err(e) => Err(e),
            Ok(vw) => {
                let w2 = ws_end(s, vw.end);
                Ok(walked(w2, s.subrange(i, w1) + vw.out + s.subrange(vw.end, w2), vw.rep))
            },
        }
    }
}

/// One object member: a string key, whitespace, a colon, an element.
pub open spec fn scan_member(s: Seq<u8>, i: int) -> WalkResult
    decreases s.len() - i, 3int,
{
    match scan_string(s, i) {
        Err(e) => Err(e),
        Ok(kw) => {
            let wk = ws_end(s, kw.end);
            if kw.end <= i || wk < kw.end || s.len() < wk {
                // A string consumes at least its quotes and a whitespace run
                // never retreats; the branch keeps the recursion measure
                // decreasing without appeal to those facts.
                Err(SyntaxError::InvalidValue)
            } else if wk >= s.len() {
                Err(SyntaxError::UnexpectedEof)
            } else if s[wk] != 0x3a {
                Err(SyntaxError::InvalidValue)
            } else {
                match scan_element(s, wk + 1) {
                    Err(e) => Err(e),
                    Ok(ew) => Ok(walked(
                        ew.end,
                        kw.out + s.subrange(kw.end, wk) + seq![0x3au8] + ew.out,
                        ew.rep,
                    )),
                }
            }
        },
    }
}

/// A non-empty member list. After each member the following whitespace is
/// held pending until the separator decision: a closing brace ends the list,
/// a comma continues it unless only the brace follows (the trailing comma is
/// dropped), and a member with no comma before it has one inserted.
pub open spec fn scan_members(s: Seq<u8>, i: int) -> WalkResult
    decreases s.len() - i, 4int,
{
    match scan_member(s, i) {
        Err(e) => Err(e),
        Ok(mw) => {
            let we = ws_end(s, mw.end);
            if mw.end <= i || we < mw.end || s.len() < we {
                // Guard for the recursion measure, as in `scan_member`.
                Err(SyntaxError::InvalidValue)
            } else if we >= s.len() {
                Err(SyntaxError::UnexpectedEof)
            } else if s[we] == 0x7d {
                Ok(walked(we, mw.out + s.subrange(mw.end, we), mw.rep))
            } else if s[we] == 0x2c {
                let w2 = ws_end(s, we + 1);
                if w2 <= we || s.len() < w2 {
                    // Guard for the recursion measure, as in `scan_member`.
                    Err(SyntaxError::InvalidValue)
                } else if w2 >= s.len() {
                    Err(SyntaxError::UnexpectedEof)
                } else if s[w2] == 0x7d {
                    Ok(walked(
                        w2,
                        mw.out + s.subrange(mw.end, we) + s.subrange(we + 1, w2),
                        true,
                    ))
                } else {
                    match scan_members(s, w2) {
                        Err(e) => Err(e),
                        Ok(rw) => Ok(walked(
                            rw.end,
                            mw.out + s.subrange(mw.end, we) + seq![0x2cu8]
                                + s.subrange(we + 1, w2) + rw.out,
                            mw.rep || rw.rep,
                        )),
                    }
                }
            } else {
                match scan_members(s, we) {
                    Err(e) => Err(e),
                    Ok(rw) => Ok(walked(
                        rw.end,
                        mw.out + seq![0x2cu8] + s.subrange(mw.end, we) + rw.out,
                        true,
                    )),
                }
            }
        },
    }
}

/// A non-empty element list, with the same separator handling as
/// `scan_members` but closed by a bracket.
pub open spec fn scan_elements(s: Seq<u8>, i: int) -> WalkResult
    decreases s.len() - i, 4int,
{
    match scan_value(s, i) {
        Err(e) => Err(e),
        Ok(mw) => {
            let we = ws_end(s, mw.end);
            if mw.end <= i || we < mw.end || s.len() < we {
                // Guard for the recursion measure, as in `scan_member`.
                Err(SyntaxError::InvalidValue)
            } else if we >= s.len() {
                Err(SyntaxError::UnexpectedEof)
            } else if s[we] == 0x5d {
                Ok(walked(we, mw.out + s.subrange(mw.end, we), mw.rep))
            } else if s[we] == 0x2c {
                let w2 = ws_end(s, we + 1);
                if w2 <= we || s.len() < w2 {
                    // Guard for the recursion measure, as in `scan_member`.
                    Err(SyntaxError::InvalidValue)
                } else if w2 >= s.len() {
                    Err(SyntaxError::UnexpectedEof)
                } else if s[w2] == 0x5d {
                    Ok(walked(
                        w2,
                        mw.out + s.subrange(mw.end, we) + s.subrange(we + 1, w2),
                        true,
                    ))
                } else {
                    match scan_elements(s, w2) {
                        Err(e) => Err(e),
                        Ok(rw) => Ok(walked(
                            rw.end,
                            mw.out + s.subrange(mw.end, we) + seq![0x2cu8]
                                + s.subrange(we + 1, w2) + rw.out,
                            mw.rep || rw.rep,
                        )),
                    }
                }
            } else {
                match scan_elements(s, we) {
                    Err(e) => Err(e),
                    Ok(rw) => Ok(walked(
                        rw.end,
                        mw.out + seq![0x2cu8] + s.subrange(mw.end, we) + rw.out,
                        true,
                    )),
                }
            }
        },
    }
}

/// A whole document: one element, then the end of the input. Bytes left
/// over after the element are a fatal error, never silently accepted.
pub open spec fn scan_json(s: Seq<u8>) -> WalkResult {
    match scan_element(s, 0) {
        Err(e) => Err(e),
        Ok(w) => if w.end == s.len() {
            Ok(w)
        } else {
            Err(SyntaxError::TrailingData)
        },
    }
}

} // verus!
