//! The executable walker: one pass over the input bytes, echoing accepted
//! bytes and applying comma corrections, proved to behave exactly like the
//! grammar model in `grammar`.

use crate::grammar::{
    digits_end, lit_false, lit_null, lit_true, scan_array, scan_digits, scan_element,
    scan_elements, scan_escape, scan_exponent, scan_fraction, scan_int_digits, scan_integer,
    scan_json, scan_member, scan_members, scan_number, scan_object, scan_sign, scan_string,
    scan_string_body, scan_value, walked, ws_end, Walked, WalkResult,
};
use crate::grammar::lemma_digits_end;
use crate::laws::lemma_valid_identity;
use crate::outcome::{RepairErr, RepairOk, RepairResult, SyntaxError};
use vstd::prelude::*;

verus! {

/// The walker result agrees with the model result: same position, same
/// error, and the output grew by exactly the bytes the model writes.
pub open spec fn agrees(
    r: Result<usize, SyntaxError>,
    sr: WalkResult,
    out0: Seq<u8>,
    out1: Seq<u8>,
) -> bool {
    match sr {
        Ok(w) => match r {
            Ok(p) => p == w.end && out1 == out0 + w.out,
            Err(_) => false,
        },
        Err(e) => r == Err::<usize, SyntaxError>(e),
    }
}

/// As `agrees`, and the `repaired` flag moved monotonically: it ends set
/// exactly when it started set or the production repaired something.
pub open spec fn agrees_rep(
    r: Result<usize, SyntaxError>,
    sr: WalkResult,
    out0: Seq<u8>,
    out1: Seq<u8>,
    rep0: bool,
    rep1: bool,
) -> bool {
    match sr {
        Ok(w) => match r {
            Ok(p) => p == w.end && out1 == out0 + w.out && rep1 == (rep0 || w.rep),
            Err(_) => false,
        },
        Err(e) => r == Err::<usize, SyntaxError>(e),
    }
}

/// Prepend already-written bytes and an already-seen repair to a pending
/// model result. The loop invariants below say: what the model does from
/// the start equals what it still does from the cursor, glued after what
/// the loop has already written.
pub open spec fn glue(acc: Seq<u8>, racc: bool, r: WalkResult) -> WalkResult {
    match r {
        Ok(w) => Ok(walked(w.end, acc + w.out, racc || w.rep)),
        Err(e) => Err(e),
    }
}

/// The grammar walker. Its one piece of state is the `repaired` flag, set
/// the first time a comma correction is applied and never reset within a
/// run.
struct Parser {
    repaired: bool,
}

impl Parser {
    fn new() -> (p: Parser)
        ensures
            !p.repaired,
    {
        Parser { repaired: false }
    }

    fn repaired(&self) -> (b: bool)
        ensures
            b == self.repaired,
    {
        self.repaired
    }

    /// Echo the maximal whitespace run and return the position after it.
    fn walk_ws(input: &Vec<u8>, pos: usize, out: &mut Vec<u8>) -> (r: usize)
        requires
            pos <= input@.len(),
        ensures
            r == ws_end(input@, pos as int),
            pos <= r <= input@.len(),
            final(out)@ == old(out)@ + input@.subrange(pos as int, r as int),
    {
        let mut j: usize = pos;
        proof {
            assert(out@ =~= old(out)@ + input@.subrange(pos as int, pos as int));
        }
        loop
            invariant
                pos <= j <= input@.len(),
                out@ == old(out)@ + input@.subrange(pos as int, j as int),
                ws_end(input@, pos as int) == ws_end(input@, j as int),
            ensures
                j == ws_end(input@, pos as int),
                pos <= j <= input@.len(),
                out@ == old(out)@ + input@.subrange(pos as int, j as int),
            decreases input@.len() - j,
        {
            if j >= input.len() {
                break;
            }
            let b = input[j];
            if !(b == 0x09 || b == 0x0a || b == 0x0d || b == 0x20) {
                break;
            }
            out.push(b);
            proof {
                assert(input@.subrange(pos as int, j + 1) =~= input@.subrange(
                    pos as int,
                    j as int,
                ).push(input@[j as int]));
            }
            j = j + 1;
        }
        j
    }

    /// Echo a non-empty digit run; zero digits is an error.
    fn walk_digits(input: &Vec<u8>, pos: usize, out: &mut Vec<u8>) -> (r: Result<
        usize,
        SyntaxError,
    >)
        requires
            pos <= input@.len(),
        ensures
            agrees(r, scan_digits(input@, pos as int), old(out)@, final(out)@),
            r matches Ok(p) ==> pos < p && p <= input@.len(),
    {
        let mut j: usize = pos;
        proof {
            assert(out@ =~= old(out)@ + input@.subrange(pos as int, pos as int));
        }
        loop
            invariant
                pos <= j <= input@.len(),
                out@ == old(out)@ + input@.subrange(pos as int, j as int),
                digits_end(input@, pos as int) == digits_end(input@, j as int),
            ensures
                j == digits_end(input@, pos as int),
                pos <= j <= input@.len(),
                out@ == old(out)@ + input@.subrange(pos as int, j as int),
            decreases input@.len() - j,
        {
            if j >= input.len() {
                break;
            }
            let b = input[j];
            if !(0x30 <= b && b <= 0x39) {
                break;
            }
            out.push(b);
            proof {
                assert(input@.subrange(pos as int, j + 1) =~= input@.subrange(
                    pos as int,
                    j as int,
                ).push(input@[j as int]));
            }
            j = j + 1;
        }
        if j == pos {
            if pos >= input.len() {
                Err(SyntaxError::UnexpectedEof)
            } else {
                Err(SyntaxError::InvalidValue)
            }
        } else {
            Ok(j)
        }
    }

    /// The digit part of an integer: a lone zero, or a nonzero digit and
    /// every digit after it.
    fn walk_int_digits(input: &Vec<u8>, pos: usize, out: &mut Vec<u8>) -> (r: Result<
        usize,
        SyntaxError,
    >)
        requires
            pos <= input@.len(),
        ensures
            agrees(r, scan_int_digits(input@, pos as int), old(out)@, final(out)@),
            r matches Ok(p) ==> pos < p && p <= input@.len(),
    {
        if pos >= input.len() {
            return Err(SyntaxError::UnexpectedEof);
        }
        let b = input[pos];
        if b == 0x30 {
            out.push(b);
            proof {
                assert(out@ =~= old(out)@ + seq![0x30u8]);
            }
            Ok(pos + 1)
        } else if 0x31 <= b && b <= 0x39 {
            proof {
                lemma_digits_end(input@, pos as int + 1);
            }
            Self::walk_digits(input, pos, out)
        } else {
            Err(SyntaxError::InvalidValue)
        }
    }

    /// The integer part of a number: at most one leading minus, then digits.
    fn walk_integer(input: &Vec<u8>, pos: usize, out: &mut Vec<u8>) -> (r: Result<
        usize,
        SyntaxError,
    >)
        requires
            pos <= input@.len(),
        ensures
            agrees(r, scan_integer(input@, pos as int), old(out)@, final(out)@),
            r matches Ok(p) ==> pos < p && p <= input@.len(),
    {
        if pos >= input.len() {
            return Err(SyntaxError::UnexpectedEof);
        }
        if input[pos] == 0x2d {
            out.push(0x2d);
            match Self::walk_int_digits(input, pos + 1, out) {
                Err(e) => Err(e),
                Ok(p) => {
                    proof {
                        let w = scan_int_digits(input@, pos as int + 1)->Ok_0;
                        assert(out@ =~= old(out)@ + (seq![0x2du8] + w.out));
                    }
                    Ok(p)
                },
            }
        } else {
            Self::walk_int_digits(input, pos, out)
        }
    }

    /// The optional fraction part: a dot followed by at least one digit.
    fn walk_fraction(input: &Vec<u8>, pos: usize, out: &mut Vec<u8>) -> (r: Result<
        usize,
        SyntaxError,
    >)
        requires
            pos <= input@.len(),
        ensures
            agrees(r, scan_fraction(input@, pos as int), old(out)@, final(out)@),
            r matches Ok(p) ==> pos <= p && p <= input@.len(),
    {
        if pos >= input.len() || input[pos] != 0x2e {
            proof {
                assert(out@ =~= old(out)@ + Seq::<u8>::empty());
            }
            return Ok(pos);
        }
        out.push(0x2e);
        match Self::walk_digits(input, pos + 1, out) {
            Err(e) => Err(e),
            Ok(p) => {
                proof {
                    let w = scan_digits(input@, pos as int + 1)->Ok_0;
                    assert(out@ =~= old(out)@ + (seq![0x2eu8] + w.out));
                }
                Ok(p)
            },
        }
    }

    /// An optional sign inside an exponent.
    fn walk_sign(input: &Vec<u8>, pos: usize, out: &mut Vec<u8>) -> (r: Result<
        usize,
        SyntaxError,
    >)
        requires
            pos <= input@.len(),
        ensures
            agrees(r, scan_sign(input@, pos as int), old(out)@, final(out)@),
            r matches Ok(p) ==> pos <= p && p <= input@.len(),
    {
        if pos >= input.len() {
            return Err(SyntaxError::UnexpectedEof);
        }
        let b = input[pos];
        if b == 0x2b || b == 0x2d {
            out.push(b);
            proof {
                assert(out@ =~= old(out)@ + seq![input@[pos as int]]);
            }
            Ok(pos + 1)
        } else {
            proof {
                assert(out@ =~= old(out)@ + Seq::<u8>::empty());
            }
            Ok(pos)
        }
    }

    /// The optional exponent part: `e` or `E`, an optional sign, digits.
    fn walk_exponent(input: &Vec<u8>, pos: usize, out: &mut Vec<u8>) -> (r: Result<
        usize,
        SyntaxError,
    >)
        requires
            pos <= input@.len(),
        ensures
            agrees(r, scan_exponent(input@, pos as int), old(out)@, final(out)@),
            r matches Ok(p) ==> pos <= p && p <= input@.len(),
    {
        if pos >= input.len() || (input[pos] != 0x65 && input[pos] != 0x45) {
            proof {
                assert(out@ =~= old(out)@ + Seq::<u8>::empty());
            }
            return Ok(pos);
        }
        let e = input[pos];
        out.push(e);
        match Self::walk_sign(input, pos + 1, out) {
            Err(err) => Err(err),
            Ok(p1) => match Self::walk_digits(input, p1, out) {
                Err(err) => Err(err),
                Ok(p2) => {
                    proof {
                        let sw = scan_sign(input@, pos as int + 1)->Ok_0;
                        let dw = scan_digits(input@, sw.end)->Ok_0;
                        assert(out@ =~= old(out)@ + (seq![input@[pos as int]] + sw.out
                            + dw.out));
                    }
                    Ok(p2)
                },
            },
        }
    }

    /// A whole number, echoed verbatim.
    fn walk_number(input: &Vec<u8>, pos: usize, out: &mut Vec<u8>) -> (r: Result<
        usize,
        SyntaxError,
    >)
        requires
            pos <= input@.len(),
        ensures
            agrees(r, scan_number(input@, pos as int), old(out)@, final(out)@),
            r matches Ok(p) ==> pos < p && p <= input@.len(),
    {
        match Self::walk_integer(input, pos, out) {
            Err(e) => Err(e),
            Ok(p1) => match Self::walk_fraction(input, p1, out) {
                Err(e) => Err(e),
                Ok(p2) => match Self::walk_exponent(input, p2, out) {
                    Err(e) => Err(e),
                    Ok(p3) => {
                        proof {
                            let iw = scan_integer(input@, pos as int)->Ok_0;
                            let fw = scan_fraction(input@, iw.end)->Ok_0;
                            let xw = scan_exponent(input@, fw.end)->Ok_0;
                            assert(out@ =~= old(out)@ + (iw.out + fw.out + xw.out));
                        }
                        Ok(p3)
                    },
                },
            },
        }
    }

    /// One escape sequence, entered just after the backslash. Writes the
    /// backslash and the escape spelling; all six characters of `\uXXXX`.
    fn walk_escape(input: &Vec<u8>, pos: usize, out: &mut Vec<u8>) -> (r: Result<
        usize,
        SyntaxError,
    >)
        requires
            pos <= input@.len(),
        ensures
            agrees(r, scan_escape(input@, pos as int), old(out)@, final(out)@),
            r matches Ok(p) ==> pos < p && p <= input@.len(),
    {
        if pos >= input.len() {
            return Err(SyntaxError::UnexpectedEof);
        }
        let c = input[pos];
        if c == 0x22 || c == 0x5c || c == 0x2f || c == 0x62 || c == 0x66 || c == 0x6e || c == 0x72
            || c == 0x74 {
            out.push(0x5c);
            out.push(c);
            proof {
                assert(out@ =~= old(out)@ + seq![0x5cu8, input@[pos as int]]);
            }
            Ok(pos + 1)
        } else if c == 0x75 {
            if pos + 1 >= input.len() {
                return Err(SyntaxError::UnexpectedEof);
            }
            let h1 = input[pos + 1];
            if !(0x30 <= h1 && h1 <= 0x39 || 0x41 <= h1 && h1 <= 0x46 || 0x61 <= h1 && h1
                <= 0x66) {
                return Err(SyntaxError::InvalidValue);
            }
            if pos + 2 >= input.len() {
                return Err(SyntaxError::UnexpectedEof);
            }
            let h2 = input[pos + 2];
            if !(0x30 <= h2 && h2 <= 0x39 || 0x41 <= h2 && h2 <= 0x46 || 0x61 <= h2 && h2
                <= 0x66) {
                return Err(SyntaxError::InvalidValue);
            }
            if pos + 3 >= input.len() {
                return Err(SyntaxError::UnexpectedEof);
            }
            let h3 = input[pos + 3];
            if !(0x30 <= h3 && h3 <= 0x39 || 0x41 <= h3 && h3 <= 0x46 || 0x61 <= h3 && h3
                <= 0x66) {
                return Err(SyntaxError::InvalidValue);
            }
            if pos + 4 >= input.len() {
                return Err(SyntaxError::UnexpectedEof);
            }
            let h4 = input[pos + 4];
            if !(0x30 <= h4 && h4 <= 0x39 || 0x41 <= h4 && h4 <= 0x46 || 0x61 <= h4 && h4
                <= 0x66) {
                return Err(SyntaxError::InvalidValue);
            }
            out.push(0x5c);
            out.push(0x75);
            out.push(h1);
            out.push(h2);
            out.push(h3);
            out.push(h4);
            proof {
                assert(out@ =~= old(out)@ + (seq![0x5cu8, 0x75u8] + input@.subrange(
                    pos as int + 1,
                    pos as int + 5,
                )));
            }
            Ok(pos + 5)
        } else {
            Err(SyntaxError::InvalidValue)
        }
    }

    /// A whole string, quotes included; content bytes echoed verbatim.
    fn walk_string(input: &Vec<u8>, pos: usize, out: &mut Vec<u8>) -> (r: Result<
        usize,
        SyntaxError,
    >)
        requires
            pos <= input@.len(),
        ensures
            agrees(r, scan_string(input@, pos as int), old(out)@, final(out)@),
            r matches Ok(p) ==> pos < p && p <= input@.len(),
    {
        if pos >= input.len() {
            return Err(SyntaxError::UnexpectedEof);
        }
        if input[pos] != 0x22 {
            return Err(SyntaxError::InvalidValue);
        }
        out.push(0x22);
        let ghost s = input@;
        let mut j: usize = pos + 1;
        let ghost mut acc: Seq<u8> = Seq::empty();
        proof {
            assert(out@ =~= old(out)@ + seq![0x22u8] + acc);
            let r0 = scan_string_body(s, pos as int + 1);
            if r0 is Ok {
                let w = r0->Ok_0;
                assert(acc + w.out =~= w.out);
                assert(glue(acc, false, r0) == r0);
            }
        }
        loop
            invariant
                s == input@,
                pos < j <= input@.len(),
                out@ == old(out)@ + seq![0x22u8] + acc,
                scan_string_body(input@, pos as int + 1) == glue(
                    acc,
                    false,
                    scan_string_body(input@, j as int),
                ),
                input@.len() > pos,
                input@[pos as int] == 0x22,
            decreases input@.len() - j,
        {
            if j >= input.len() {
                return Err(SyntaxError::UnexpectedEof);
            }
            let c = input[j];
            if c == 0x22 {
                out.push(0x22);
                proof {
                    assert(scan_string_body(s, j as int) == Ok::<Walked, SyntaxError>(walked(
                        j as int + 1,
                        seq![0x22u8],
                        false,
                    )));
                    assert(scan_string_body(s, pos as int + 1) == Ok::<Walked, SyntaxError>(
                        walked(j as int + 1, acc + seq![0x22u8], false),
                    ));
                    assert(out@ =~= old(out)@ + (seq![0x22u8] + (acc + seq![0x22u8])));
                }
                return Ok(j + 1);
            }
            if c == 0x5c {
                match Self::walk_escape(input, j + 1, out) {
                    Err(e) => {
                        return Err(e);
                    },
                    Ok(p) => {
                        proof {
                            let ew = scan_escape(s, j as int + 1)->Ok_0;
                            let r2 = scan_string_body(s, p as int);
                            if r2 is Ok {
                                let bw = r2->Ok_0;
                                assert(acc + (ew.out + bw.out) =~= (acc + ew.out) + bw.out);
                            }
                            acc = acc + ew.out;
                            assert(out@ =~= old(out)@ + seq![0x22u8] + acc);
                        }
                        j = p;
                    },
                }
            } else {
                out.push(c);
                proof {
                    let r2 = scan_string_body(s, j as int + 1);
                    if r2 is Ok {
                        let bw = r2->Ok_0;
                        assert(acc + (seq![s[j as int]] + bw.out) =~= (acc + seq![s[j as int]])
                            + bw.out);
                    }
                    acc = acc + seq![s[j as int]];
                    assert(out@ =~= old(out)@ + seq![0x22u8] + acc);
                }
                j = j + 1;
            }
        }
    }

    /// One JSON value, dispatched on its first byte. Literals are checked
    /// byte-for-byte and written in their canonical spelling.
    fn walk_value(&mut self, input: &Vec<u8>, pos: usize, out: &mut Vec<u8>) -> (r: Result<
        usize,
        SyntaxError,
    >)
        requires
            pos <= input@.len(),
        ensures
            agrees_rep(
                r,
                scan_value(input@, pos as int),
                old(out)@,
                final(out)@,
                old(self).repaired,
                final(self).repaired,
            ),
            r matches Ok(p) ==> pos < p && p <= input@.len(),
        decreases input@.len() - pos, 1int,
    {
        if pos >= input.len() {
            return Err(SyntaxError::UnexpectedEof);
        }
        let c = input[pos];
        if c == 0x6e {
            if pos + 1 >= input.len() {
                return Err(SyntaxError::UnexpectedEof);
            }
            if input[pos + 1] != 0x75 {
                return Err(SyntaxError::InvalidValue);
            }
            if pos + 2 >= input.len() {
                return Err(SyntaxError::UnexpectedEof);
            }
            if input[pos + 2] != 0x6c {
                return Err(SyntaxError::InvalidValue);
            }
            if pos + 3 >= input.len() {
                return Err(SyntaxError::UnexpectedEof);
            }
            if input[pos + 3] != 0x6c {
                return Err(SyntaxError::InvalidValue);
            }
            out.push(0x6e);
            out.push(0x75);
            out.push(0x6c);
            out.push(0x6c);
            proof {
                assert(out@ =~= old(out)@ + lit_null());
            }
            Ok(pos + 4)
        } else if c == 0x74 {
            if pos + 1 >= input.len() {
                return Err(SyntaxError::UnexpectedEof);
            }
            if input[pos + 1] != 0x72 {
                return Err(SyntaxError::InvalidValue);
            }
            if pos + 2 >= input.len() {
                return Err(SyntaxError::UnexpectedEof);
            }
            if input[pos + 2] != 0x75 {
                return Err(SyntaxError::InvalidValue);
            }
            if pos + 3 >= input.len() {
                return Err(SyntaxError::UnexpectedEof);
            }
            if input[pos + 3] != 0x65 {
                return Err(SyntaxError::InvalidValue);
            }
            out.push(0x74);
            out.push(0x72);
            out.push(0x75);
            out.push(0x65);
            proof {
                assert(out@ =~= old(out)@ + lit_true());
            }
            Ok(pos + 4)
        } else if c == 0x66 {
            if pos + 1 >= input.len() {
                return Err(SyntaxError::UnexpectedEof);
            }
            if input[pos + 1] != 0x61 {
                return Err(SyntaxError::InvalidValue);
            }
            if pos + 2 >= input.len() {
                return Err(SyntaxError::UnexpectedEof);
            }
            if input[pos + 2] != 0x6c {
                return Err(SyntaxError::InvalidValue);
            }
            if pos + 3 >= input.len() {
                return Err(SyntaxError::UnexpectedEof);
            }
            if input[pos + 3] != 0x73 {
                return Err(SyntaxError::InvalidValue);
            }
            if pos + 4 >= input.len() {
                return Err(SyntaxError::UnexpectedEof);
            }
            if input[pos + 4] != 0x65 {
                return Err(SyntaxError::InvalidValue);
            }
            out.push(0x66);
            out.push(0x61);
            out.push(0x6c);
            out.push(0x73);
            out.push(0x65);
            proof {
                assert(out@ =~= old(out)@ + lit_false());
            }
            Ok(pos + 5)
        } else if c == 0x7b {
            self.walk_object(input, pos, out)
        } else if c == 0x5b {
            self.walk_array(input, pos, out)
        } else if c == 0x22 {
            let r = Self::walk_string(input, pos, out);
            proof {
                if scan_string(input@, pos as int) is Ok {
                    assert(scan_string(input@, pos as int)->Ok_0.rep == false);
                }
            }
            r
        } else if c == 0x2d || (0x30 <= c && c <= 0x39) {
            let r = Self::walk_number(input, pos, out);
            proof {
                if scan_number(input@, pos as int) is Ok {
                    assert(scan_number(input@, pos as int)->Ok_0.rep == false);
                }
            }
            r
        } else {
            Err(SyntaxError::InvalidValue)
        }
    }

    /// An object. A comma between the members (or the opening brace) and
    /// the closing brace is a trailing comma: it is consumed, never
    /// echoed, and the run is marked repaired.
    #[verifier::rlimit(100)]
    #[verifier::spinoff_prover]
    fn walk_object(&mut self, input: &Vec<u8>, pos: usize, out: &mut Vec<u8>) -> (r: Result<
        usize,
        SyntaxError,
    >)
        requires
            pos <= input@.len(),
        ensures
            agrees_rep(
                r,
                scan_object(input@, pos as int),
                old(out)@,
                final(out)@,
                old(self).repaired,
                final(self).repaired,
            ),
            r matches Ok(p) ==> pos < p && p <= input@.len(),
        decreases input@.len() - pos, 0int,
    {
        if pos >= input.len() || input[pos] != 0x7b {
            return Err(SyntaxError::InvalidValue);
        }
        out.push(0x7b);
        let p1 = Self::walk_ws(input, pos + 1, out);
        if p1 >= input.len() {
            return Err(SyntaxError::UnexpectedEof);
        }
        let ghost s = input@;
        let ghost base = old(out)@;
        let ghost rep0 = old(self).repaired;
        let c = input[p1];
        if c == 0x22 {
            match self.walk_members(input, p1, out) {
                Err(e) => Err(e),
                Ok(p2) => {
                    proof {
                        let mo = scan_members(s, p1 as int)->Ok_0.out;
                        assert(out@ =~= base + seq![0x7bu8] + s.subrange(
                            pos as int + 1,
                            p1 as int,
                        ) + mo);
                    }
                    self.walk_object_tail(input, pos, p1, p2, out, Ghost(base), Ghost(rep0))
                },
            }
        } else {
            proof {
                assert(out@ =~= base + seq![0x7bu8] + s.subrange(pos as int + 1, p1 as int)
                    + Seq::<u8>::empty());
            }
            self.walk_object_tail(input, pos, p1, p1, out, Ghost(base), Ghost(rep0))
        }
    }

    /// The close of an object, entered after its member list (or its
    /// absence): an optional trailing comma that is dropped as a repair,
    /// then the closing brace.
    #[verifier::rlimit(100)]
    #[verifier::spinoff_prover]
    fn walk_object_tail(
        &mut self,
        input: &Vec<u8>,
        pos: usize,
        p1: usize,
        p2: usize,
        out: &mut Vec<u8>,
        base: Ghost<Seq<u8>>,
        rep0: Ghost<bool>,
    ) -> (r: Result<usize, SyntaxError>)
        requires
            pos < input@.len(),
            input@[pos as int] == 0x7b,
            p1 == ws_end(input@, pos as int + 1),
            pos < p1 < input@.len(),
            ({
                let m = if input@[p1 as int] == 0x22 {
                    scan_members(input@, p1 as int)
                } else {
                    Ok::<Walked, SyntaxError>(walked(p1 as int, Seq::<u8>::empty(), false))
                };
                &&& m is Ok
                &&& p2 == m->Ok_0.end
                &&& p1 <= p2 <= input@.len()
                &&& old(out)@ == base@ + seq![0x7bu8] + input@.subrange(
                    pos as int + 1,
                    p1 as int,
                ) + m->Ok_0.out
                &&& old(self).repaired == (rep0@ || m->Ok_0.rep)
            }),
        ensures
            agrees_rep(
                r,
                scan_object(input@, pos as int),
                base@,
                final(out)@,
                rep0@,
                final(self).repaired,
            ),
            r matches Ok(p) ==> pos < p && p <= input@.len(),
    {
        let ghost s = input@;
        if p2 >= input.len() {
            return Err(SyntaxError::UnexpectedEof);
        }
        let c2 = input[p2];
        if c2 == 0x2c {
            self.repaired = true;
            let p3 = Self::walk_ws(input, p2 + 1, out);
            if p3 >= input.len() {
                return Err(SyntaxError::UnexpectedEof);
            }
            if input[p3] != 0x7d {
                return Err(SyntaxError::InvalidValue);
            }
            out.push(0x7d);
            proof {
                let mo = scan_object(s, pos as int)->Ok_0.out;
                assert(out@ =~= base@ + mo);
            }
            Ok(p3 + 1)
        } else if c2 == 0x7d {
            out.push(0x7d);
            proof {
                let mo = scan_object(s, pos as int)->Ok_0.out;
                assert(out@ =~= base@ + mo);
            }
            Ok(p2 + 1)
        } else {
            Err(SyntaxError::InvalidValue)
        }
    }

    /// An array, with the same trailing-comma handling as `walk_object`.
    #[verifier::rlimit(100)]
    #[verifier::spinoff_prover]
    fn walk_array(&mut self, input: &Vec<u8>, pos: usize, out: &mut Vec<u8>) -> (r: Result<
        usize,
        SyntaxError,
    >)
        requires
            pos <= input@.len(),
        ensures
            agrees_rep(
                r,
                scan_array(input@, pos as int),
                old(out)@,
                final(out)@,
                old(self).repaired,
                final(self).repaired,
            ),
            r matches Ok(p) ==> pos < p && p <= input@.len(),
        decreases input@.len() - pos, 0int,
    {
        if pos >= input.len() || input[pos] != 0x5b {
            return Err(SyntaxError::InvalidValue);
        }
        out.push(0x5b);
        let p1 = Self::walk_ws(input, pos + 1, out);
        if p1 >= input.len() {
            return Err(SyntaxError::UnexpectedEof);
        }
        let ghost s = input@;
        let ghost base = old(out)@;
        let ghost rep0 = old(self).repaired;
        let c = input[p1];
        if c != 0x2c && c != 0x5d {
            match self.walk_elements(input, p1, out) {
                Err(e) => Err(e),
                Ok(p2) => {
                    proof {
                        let mo = scan_elements(s, p1 as int)->Ok_0.out;
                        assert(out@ =~= base + seq![0x5bu8] + s.subrange(
                            pos as int + 1,
                            p1 as int,
                        ) + mo);
                    }
                    self.walk_array_tail(input, pos, p1, p2, out, Ghost(base), Ghost(rep0))
                },
            }
        } else {
            proof {
                assert(out@ =~= base + seq![0x5bu8] + s.subrange(pos as int + 1, p1 as int)
                    + Seq::<u8>::empty());
            }
            self.walk_array_tail(input, pos, p1, p1, out, Ghost(base), Ghost(rep0))
        }
    }

    /// The close of an array, entered after its element list (or its
    /// absence): an optional trailing comma that is dropped as a repair,
    /// then the closing bracket.
    #[verifier::rlimit(100)]
    #[verifier::spinoff_prover]
    fn walk_array_tail(
        &mut self,
        input: &Vec<u8>,
        pos: usize,
        p1: usize,
        p2: usize,
        out: &mut Vec<u8>,
        base: Ghost<Seq<u8>>,
        rep0: Ghost<bool>,
    ) -> (r: Result<usize, SyntaxError>)
        requires
            pos < input@.len(),
            input@[pos as int] == 0x5b,
            p1 == ws_end(input@, pos as int + 1),
            pos < p1 < input@.len(),
            ({
                let m = if input@[p1 as int] != 0x2c && input@[p1 as int] != 0x5d {
                    scan_elements(input@, p1 as int)
                } else {
                    Ok::<Walked, SyntaxError>(walked(p1 as int, Seq::<u8>::empty(), false))
                };
                &&& m is Ok
                &&& p2 == m->Ok_0.end
                &&& p1 <= p2 <= input@.len()
                &&& old(out)@ == base@ + seq![0x5bu8] + input@.subrange(
                    pos as int + 1,
                    p1 as int,
                ) + m->Ok_0.out
                &&& old(self).repaired == (rep0@ || m->Ok_0.rep)
            }),
        ensures
            agrees_rep(
                r,
                scan_array(input@, pos as int),
                base@,
                final(out)@,
                rep0@,
                final(self).repaired,
            ),
            r matches Ok(p) ==> pos < p && p <= input@.len(),
    {
        let ghost s = input@;
        if p2 >= input.len() {
            return Err(SyntaxError::UnexpectedEof);
        }
        let c2 = input[p2];
        if c2 == 0x2c {
            self.repaired = true;
            let p3 = Self::walk_ws(input, p2 + 1, out);
            if p3 >= input.len() {
                return Err(SyntaxError::UnexpectedEof);
            }
            if input[p3] != 0x5d {
                return Err(SyntaxError::InvalidValue);
            }
            out.push(0x5d);
            proof {
                let mo = scan_array(s, pos as int)->Ok_0.out;
                assert(out@ =~= base@ + mo);
            }
            Ok(p3 + 1)
        } else if c2 == 0x5d {
            out.push(0x5d);
            proof {
                let mo = scan_array(s, pos as int)->Ok_0.out;
                assert(out@ =~= base@ + mo);
            }
            Ok(p2 + 1)
        } else {
            Err(SyntaxError::InvalidValue)
        }
    }

    /// One element: whitespace, a value, whitespace.
    fn walk_element(&mut self, input: &Vec<u8>, pos: usize, out: &mut Vec<u8>) -> (r: Result<
        usize,
        SyntaxError,
    >)
        requires
            pos <= input@.len(),
        ensures
            agrees_rep(
                r,
                scan_element(input@, pos as int),
                old(out)@,
                final(out)@,
                old(self).repaired,
                final(self).repaired,
            ),
            r matches Ok(p) ==> pos < p && p <= input@.len(),
        decreases input@.len() - pos, 2int,
    {
        let p1 = Self::walk_ws(input, pos, out);
        match self.walk_value(input, p1, out) {
            Err(e) => Err(e),
            Ok(p2) => {
                let p3 = Self::walk_ws(input, p2, out);
                proof {
                    let vw = scan_value(input@, p1 as int)->Ok_0;
                    assert(out@ =~= old(out)@ + (input@.subrange(pos as int, p1 as int) + vw.out
                        + input@.subrange(p2 as int, p3 as int)));
                }
                Ok(p3)
            },
        }
    }

    /// One object member: a string key, whitespace, a colon, an element.
    fn walk_member(&mut self, input: &Vec<u8>, pos: usize, out: &mut Vec<u8>) -> (r: Result<
        usize,
        SyntaxError,
    >)
        requires
            pos <= input@.len(),
        ensures
            agrees_rep(
                r,
                scan_member(input@, pos as int),
                old(out)@,
                final(out)@,
                old(self).repaired,
                final(self).repaired,
            ),
            r matches Ok(p) ==> pos < p && p <= input@.len(),
        decreases input@.len() - pos, 3int,
    {
        match Self::walk_string(input, pos, out) {
            Err(e) => Err(e),
            Ok(p1) => {
                let p2 = Self::walk_ws(input, p1, out);
                if p2 >= input.len() {
                    return Err(SyntaxError::UnexpectedEof);
                }
                if input[p2] != 0x3a {
                    return Err(SyntaxError::InvalidValue);
                }
                out.push(0x3a);
                match self.walk_element(input, p2 + 1, out) {
                    Err(e) => Err(e),
                    Ok(p3) => {
                        proof {
                            let kw = scan_string(input@, pos as int)->Ok_0;
                            let ew = scan_element(input@, p2 as int + 1)->Ok_0;
                            assert(out@ =~= old(out)@ + (kw.out + input@.subrange(
                                p1 as int,
                                p2 as int,
                            ) + seq![0x3au8] + ew.out));
                            if scan_string(input@, pos as int) is Ok {
                                assert(kw.rep == false);
                            }
                        }
                        Ok(p3)
                    },
                }
            },
        }
    }

    /// The member list of an object. Whitespace after a member is held in
    /// a pending buffer until the next byte decides whether a comma is
    /// echoed, dropped as trailing, or inserted as missing.
    fn walk_members(&mut self, input: &Vec<u8>, pos: usize, out: &mut Vec<u8>) -> (r: Result<
        usize,
        SyntaxError,
    >)
        requires
            pos <= input@.len(),
        ensures
            agrees_rep(
                r,
                scan_members(input@, pos as int),
                old(out)@,
                final(out)@,
                old(self).repaired,
                final(self).repaired,
            ),
            r matches Ok(p) ==> pos < p && p <= input@.len(),
        decreases input@.len() - pos, 4int,
    {
        let ghost s = input@;
        let mut j: usize = pos;
        let mut pend: Vec<u8> = Vec::new();
        let ghost mut acc: Seq<u8> = Seq::empty();
        let ghost mut racc: bool = false;
        proof {
            assert(out@ =~= old(out)@ + acc);
            let r0 = scan_members(s, pos as int);
            if r0 is Ok {
                assert(acc + r0->Ok_0.out =~= r0->Ok_0.out);
            }
        }
        loop
            invariant
                s == input@,
                pos <= j <= input@.len(),
                pend@ == Seq::<u8>::empty(),
                out@ == old(out)@ + acc,
                self.repaired == (old(self).repaired || racc),
                scan_members(input@, pos as int) == glue(
                    acc,
                    racc,
                    scan_members(input@, j as int),
                ),
            decreases input@.len() - j,
        {
            let mres = self.walk_member(input, j, out);
            match mres {
                Err(e) => {
                    return Err(e);
                },
                Ok(p1) => {
                    let q1 = Self::walk_ws(input, p1, &mut pend);
                    proof {
                        assert(pend@ =~= s.subrange(p1 as int, q1 as int));
                    }
                    if q1 >= input.len() {
                        return Err(SyntaxError::UnexpectedEof);
                    }
                    let ghost mw = scan_member(s, j as int)->Ok_0;
                    let ghost pd = s.subrange(p1 as int, q1 as int);
                    let c = input[q1];
                    if c == 0x7d {
                        out.append(&mut pend);
                        proof {
                            assert(out@ =~= old(out)@ + (acc + (mw.out + pd)));
                        }
                        return Ok(q1);
                    }
                    if c == 0x2c {
                        out.append(&mut pend);
                        let q2 = Self::walk_ws(input, q1 + 1, &mut pend);
                        proof {
                            assert(pend@ =~= s.subrange(q1 as int + 1, q2 as int));
                        }
                        if q2 >= input.len() {
                            return Err(SyntaxError::UnexpectedEof);
                        }
                        let ghost pd2 = s.subrange(q1 as int + 1, q2 as int);
                        if input[q2] == 0x7d {
                            self.repaired = true;
                            out.append(&mut pend);
                            proof {
                                assert(out@ =~= old(out)@ + (acc + (mw.out + pd + pd2)));
                            }
                            return Ok(q2);
                        }
                        out.push(0x2c);
                        out.append(&mut pend);
                        proof {
                            let r2 = scan_members(s, q2 as int);
                            if r2 is Ok {
                                let rw = r2->Ok_0;
                                assert(acc + (mw.out + pd + seq![0x2cu8] + pd2 + rw.out) =~= (acc
                                    + mw.out + pd + seq![0x2cu8] + pd2) + rw.out);
                            }
                            acc = acc + mw.out + pd + seq![0x2cu8] + pd2;
                            racc = racc || mw.rep;
                            assert(out@ =~= old(out)@ + acc);
                        }
                        j = q2;
                    } else {
                        self.repaired = true;
                        out.push(0x2c);
                        out.append(&mut pend);
                        proof {
                            let r2 = scan_members(s, q1 as int);
                            if r2 is Ok {
                                let rw = r2->Ok_0;
                                assert(acc + (mw.out + seq![0x2cu8] + pd + rw.out) =~= (acc
                                    + mw.out + seq![0x2cu8] + pd) + rw.out);
                            }
                            acc = acc + mw.out + seq![0x2cu8] + pd;
                            racc = true;
                            assert(out@ =~= old(out)@ + acc);
                        }
                        j = q1;
                    }
                },
            }
        }
    }

    /// The element list of an array, with the same pending-whitespace
    /// handling as `walk_members`.
    fn walk_elements(&mut self, input: &Vec<u8>, pos: usize, out: &mut Vec<u8>) -> (r: Result<
        usize,
        SyntaxError,
    >)
        requires
            pos <= input@.len(),
        ensures
            agrees_rep(
                r,
                scan_elements(input@, pos as int),
                old(out)@,
                final(out)@,
                old(self).repaired,
                final(self).repaired,
            ),
            r matches Ok(p) ==> pos < p && p <= input@.len(),
        decreases input@.len() - pos, 4int,
    {
        let ghost s = input@;
        let mut j: usize = pos;
        let mut pend: Vec<u8> = Vec::new();
        let ghost mut acc: Seq<u8> = Seq::empty();
        let ghost mut racc: bool = false;
        proof {
            assert(out@ =~= old(out)@ + acc);
            let r0 = scan_elements(s, pos as int);
            if r0 is Ok {
                assert(acc + r0->Ok_0.out =~= r0->Ok_0.out);
            }
        }
        loop
            invariant
                s == input@,
                pos <= j <= input@.len(),
                pend@ == Seq::<u8>::empty(),
                out@ == old(out)@ + acc,
                self.repaired == (old(self).repaired || racc),
                scan_elements(input@, pos as int) == glue(
                    acc,
                    racc,
                    scan_elements(input@, j as int),
                ),
            decreases input@.len() - j,
        {
            let mres = self.walk_value(input, j, out);
            match mres {
                Err(e) => {
                    return Err(e);
                },
                Ok(p1) => {
                    let q1 = Self::walk_ws(input, p1, &mut pend);
                    proof {
                        assert(pend@ =~= s.subrange(p1 as int, q1 as int));
                    }
                    if q1 >= input.len() {
                        return Err(SyntaxError::UnexpectedEof);
                    }
                    let ghost mw = scan_value(s, j as int)->Ok_0;
                    let ghost pd = s.subrange(p1 as int, q1 as int);
                    let c = input[q1];
                    if c == 0x5d {
                        out.append(&mut pend);
                        proof {
                            assert(out@ =~= old(out)@ + (acc + (mw.out + pd)));
                        }
                        return Ok(q1);
                    }
                    if c == 0x2c {
                        out.append(&mut pend);
                        let q2 = Self::walk_ws(input, q1 + 1, &mut pend);
                        proof {
                            assert(pend@ =~= s.subrange(q1 as int + 1, q2 as int));
                        }
                        if q2 >= input.len() {
                            return Err(SyntaxError::UnexpectedEof);
                        }
                        let ghost pd2 = s.subrange(q1 as int + 1, q2 as int);
                        if input[q2] == 0x5d {
                            self.repaired = true;
                            out.append(&mut pend);
                            proof {
                                assert(out@ =~= old(out)@ + (acc + (mw.out + pd + pd2)));
                            }
                            return Ok(q2);
                        }
                        out.push(0x2c);
                        out.append(&mut pend);
                        proof {
                            let r2 = scan_elements(s, q2 as int);
                            if r2 is Ok {
                                let rw = r2->Ok_0;
                                assert(acc + (mw.out + pd + seq![0x2cu8] + pd2 + rw.out) =~= (acc
                                    + mw.out + pd + seq![0x2cu8] + pd2) + rw.out);
                            }
                            acc = acc + mw.out + pd + seq![0x2cu8] + pd2;
                            racc = racc || mw.rep;
                            assert(out@ =~= old(out)@ + acc);
                        }
                        j = q2;
                    } else {
                        self.repaired = true;
                        out.push(0x2c);
                        out.append(&mut pend);
                        proof {
                            let r2 = scan_elements(s, q1 as int);
                            if r2 is Ok {
                                let rw = r2->Ok_0;
                                assert(acc + (mw.out + seq![0x2cu8] + pd + rw.out) =~= (acc
                                    + mw.out + seq![0x2cu8] + pd) + rw.out);
                            }
                            acc = acc + mw.out + seq![0x2cu8] + pd;
                            racc = true;
                            assert(out@ =~= old(out)@ + acc);
                        }
                        j = q1;
                    }
                },
            }
        }
    }

    /// A whole document: one element, then the end of the input. Bytes
    /// left over after the element are a fatal error.
    fn walk_json(&mut self, input: &Vec<u8>, out: &mut Vec<u8>) -> (r: Result<(), SyntaxError>)
        ensures
            match scan_json(input@) {
                Ok(w) => r is Ok && final(out)@ == old(out)@ + w.out && final(self).repaired == (
                old(self).repaired || w.rep),
                Err(e) => r == Err::<(), SyntaxError>(e),
            },
    {
        match self.walk_element(input, 0, out) {
            Err(e) => Err(e),
            Ok(p) => {
                if p != input.len() {
                    Err(SyntaxError::TrailingData)
                } else {
                    Ok(())
                }
            },
        }
    }
}

/// Validate and minimally repair one JSON document.
///
/// On success the produced bytes are appended to `out`: the input itself
/// when it was already valid (`RepairOk::Valid`), or the input with comma
/// corrections when at least one was needed (`RepairOk::Repaired`). On
/// error `out` is left untouched. The result and the bytes are exactly
/// what the grammar model `scan_json` prescribes for the input.
pub fn repair(input: &Vec<u8>, out: &mut Vec<u8>) -> (r: RepairResult)
    ensures
        match scan_json(input@) {
            Ok(w) => {
                &&& final(out)@ == old(out)@ + w.out
                &&& r == Ok::<RepairOk, RepairErr>(
                    if w.rep {
                        RepairOk::Repaired
                    } else {
                        RepairOk::Valid
                    },
                )
            },
            Err(e) => {
                &&& r == Err::<RepairOk, RepairErr>(RepairErr::Invalid(e))
                &&& final(out)@ == old(out)@
            },
        },
        r == Ok::<RepairOk, RepairErr>(RepairOk::Valid) ==> final(out)@ == old(out)@ + input@,
{
    let mut p = Parser::new();
    let mut buf: Vec<u8> = Vec::new();
    match p.walk_json(input, &mut buf) {
        Err(e) => Err(RepairErr::Invalid(e)),
        Ok(()) => {
            proof {
                assert(buf@ =~= scan_json(input@)->Ok_0.out);
            }
            out.append(&mut buf);
            if p.repaired() {
                Ok(RepairOk::Repaired)
            } else {
                proof {
                    lemma_valid_identity(input@);
                }
                Ok(RepairOk::Valid)
            }
        },
    }
}

} // verus!
