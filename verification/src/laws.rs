//! The laws of the repairer, proved of the grammar model: output identity
//! on valid input, comma-only locality of repairs, and idempotence of a
//! successful run.

use crate::grammar::{
    digits_end, is_digit, is_simple_escape, is_value_start, is_ws, lemma_digits_end,
    lemma_ws_end, scan_array, scan_digits, scan_element, scan_elements, scan_escape,
    scan_exponent, scan_fraction, scan_int_digits, scan_integer, scan_json, scan_member,
    scan_members, scan_number, scan_object, scan_sign, scan_string, scan_string_body,
    scan_value, walked, ws_end, Walked,
};
use crate::outcome::SyntaxError;
use vstd::prelude::*;

verus! {

// ---------------------------------------------------------------------------
// Position bounds of every production
// ---------------------------------------------------------------------------

/// A successful escape stops past its start, within the input, and writes
/// at least the backslash and one more byte.
pub proof fn lemma_escape_bounds(s: Seq<u8>, i: int)
    requires
        0 <= i,
    ensures
        scan_escape(s, i) matches Ok(w) ==> i < w.end <= s.len() && w.out.len() >= 2
            && w.out[0] == 0x5c,
{
}

/// String contents stop past their start and within the input, and never
/// count as a repair.
pub proof fn lemma_string_body_bounds(s: Seq<u8>, i: int)
    requires
        0 <= i,
    ensures
        scan_string_body(s, i) matches Ok(w) ==> i < w.end <= s.len() && w.out.len() >= 1
            && !w.rep,
    decreases s.len() - i,
{
    if 0 <= i < s.len() {
        if s[i] == 0x22 {
        } else if s[i] == 0x5c {
            lemma_escape_bounds(s, i + 1);
            match scan_escape(s, i + 1) {
                Ok(ew) => {
                    lemma_string_body_bounds(s, ew.end);
                },
                Err(_) => {},
            }
        } else {
            lemma_string_body_bounds(s, i + 1);
        }
    }
}

/// A successful string stops past its start and within the input, opens
/// with its quote, and never counts as a repair.
pub proof fn lemma_string_bounds(s: Seq<u8>, i: int)
    requires
        0 <= i,
    ensures
        scan_string(s, i) matches Ok(w) ==> i < w.end <= s.len() && w.out.len() >= 2
            && w.out[0] == 0x22 && !w.rep,
{
    if 0 <= i < s.len() && s[i] == 0x22 {
        lemma_string_body_bounds(s, i + 1);
    }
}

/// The digit part of an integer stops past its start and within the input.
pub proof fn lemma_int_digits_bounds(s: Seq<u8>, i: int)
    requires
        0 <= i <= s.len(),
    ensures
        scan_int_digits(s, i) matches Ok(w) ==> i < w.end <= s.len() && w.out.len() == w.end - i
            && w.out[0] == s[i],
{
    if i < s.len() {
        lemma_digits_end(s, i);
        if is_digit(s[i]) {
            lemma_digits_end(s, i + 1);
        }
    }
}

/// A successful integer part stops past its start and within the input,
/// and opens with the byte it was dispatched on.
pub proof fn lemma_integer_bounds(s: Seq<u8>, i: int)
    requires
        0 <= i <= s.len(),
    ensures
        scan_integer(s, i) matches Ok(w) ==> i < w.end <= s.len() && w.out.len() == w.end - i
            && w.out[0] == s[i],
{
    if i < s.len() {
        lemma_int_digits_bounds(s, i);
        if s[i] == 0x2d {
            lemma_int_digits_bounds(s, i + 1);
        }
    }
}

/// A successful fraction part never retreats and stays within the input.
pub proof fn lemma_fraction_bounds(s: Seq<u8>, i: int)
    requires
        0 <= i <= s.len(),
    ensures
        scan_fraction(s, i) matches Ok(w) ==> i <= w.end <= s.len() && w.out.len() == w.end - i,
{
    if i < s.len() && s[i] == 0x2e {
        lemma_digits_end(s, i + 1);
    }
}

/// A successful exponent part never retreats and stays within the input.
pub proof fn lemma_exponent_bounds(s: Seq<u8>, i: int)
    requires
        0 <= i <= s.len(),
    ensures
        scan_exponent(s, i) matches Ok(w) ==> i <= w.end <= s.len() && w.out.len() == w.end - i,
{
    if i < s.len() && (s[i] == 0x65 || s[i] == 0x45) {
        match scan_sign(s, i + 1) {
            Ok(sw) => {
                lemma_digits_end(s, sw.end);
            },
            Err(_) => {},
        }
    }
}

/// A successful number stops past its start and within the input, opens
/// with the byte it was dispatched on, and never counts as a repair.
pub proof fn lemma_number_bounds(s: Seq<u8>, i: int)
    requires
        0 <= i <= s.len(),
    ensures
        scan_number(s, i) matches Ok(w) ==> i < w.end <= s.len() && w.out.len() == w.end - i
            && w.out[0] == s[i] && !w.rep,
{
    lemma_integer_bounds(s, i);
    match scan_integer(s, i) {
        Ok(iw) => {
            lemma_fraction_bounds(s, iw.end);
            match scan_fraction(s, iw.end) {
                Ok(fw) => {
                    lemma_exponent_bounds(s, fw.end);
                },
                Err(_) => {},
            }
        },
        Err(_) => {},
    }
}

/// A successful value stops past its start and within the input, and its
/// first output byte is the input byte it was dispatched on.
pub proof fn lemma_value_bounds(s: Seq<u8>, i: int)
    requires
        0 <= i <= s.len(),
    ensures
        scan_value(s, i) matches Ok(w) ==> i < w.end <= s.len() && w.out.len() > 0 && w.out[0]
            == s[i] && is_value_start(s[i]),
    decreases s.len() - i, 1int,
{
    if i < s.len() {
        if s[i] == 0x7b {
            lemma_object_bounds(s, i);
        } else if s[i] == 0x5b {
            lemma_array_bounds(s, i);
        } else if s[i] == 0x22 {
            lemma_string_bounds(s, i);
        } else if s[i] == 0x2d || is_digit(s[i]) {
            lemma_number_bounds(s, i);
        }
    }
}

/// A successful object stops past its start and within the input.
pub proof fn lemma_object_bounds(s: Seq<u8>, i: int)
    requires
        0 <= i <= s.len(),
    ensures
        scan_object(s, i) matches Ok(w) ==> i < w.end <= s.len() && w.out.len() > 0 && w.out[0]
            == 0x7b,
    decreases s.len() - i, 0int,
{
    if i < s.len() && s[i] == 0x7b {
        lemma_ws_end(s, i + 1);
        let w1 = ws_end(s, i + 1);
        if w1 < s.len() {
            if s[w1] == 0x22 {
                lemma_members_bounds(s, w1);
            }
            let m = if s[w1] == 0x22 {
                scan_members(s, w1)
            } else {
                Ok(walked(w1, Seq::<u8>::empty(), false))
            };
            match m {
                Ok(mw) => {
                    if i < mw.end < s.len() {
                        lemma_ws_end(s, mw.end + 1);
                    }
                },
                Err(_) => {},
            }
        }
    }
}

/// A successful array stops past its start and within the input.
pub proof fn lemma_array_bounds(s: Seq<u8>, i: int)
    requires
        0 <= i <= s.len(),
    ensures
        scan_array(s, i) matches Ok(w) ==> i < w.end <= s.len() && w.out.len() > 0 && w.out[0]
            == 0x5b,
    decreases s.len() - i, 0int,
{
    if i < s.len() && s[i] == 0x5b {
        lemma_ws_end(s, i + 1);
        let w1 = ws_end(s, i + 1);
        if w1 < s.len() {
            if s[w1] != 0x2c && s[w1] != 0x5d {
                lemma_elements_bounds(s, w1);
            }
            let m = if s[w1] != 0x2c && s[w1] != 0x5d {
                scan_elements(s, w1)
            } else {
                Ok(walked(w1, Seq::<u8>::empty(), false))
            };
            match m {
                Ok(mw) => {
                    if i < mw.end < s.len() {
                        lemma_ws_end(s, mw.end + 1);
                    }
                },
                Err(_) => {},
            }
        }
    }
}

/// A successful element stops past its start and within the input, and
/// ends right after its maximal trailing whitespace: the byte at its end,
/// if any, is not whitespace.
pub proof fn lemma_element_bounds(s: Seq<u8>, i: int)
    requires
        0 <= i <= s.len(),
    ensures
        scan_element(s, i) matches Ok(w) ==> i < w.end <= s.len() && (w.end == s.len()
            || !is_ws(s[w.end])),
    decreases s.len() - i, 2int,
{
    lemma_ws_end(s, i);
    let w1 = ws_end(s, i);
    if i <= w1 <= s.len() {
        lemma_value_bounds(s, w1);
        match scan_value(s, w1) {
            Ok(vw) => {
                lemma_ws_end(s, vw.end);
            },
            Err(_) => {},
        }
    }
}

/// A successful member stops past its start and within the input, and as
/// an element does, right after its maximal trailing whitespace.
pub proof fn lemma_member_bounds(s: Seq<u8>, i: int)
    requires
        0 <= i <= s.len(),
    ensures
        scan_member(s, i) matches Ok(w) ==> i < w.end <= s.len() && (w.end == s.len() || !is_ws(
            s[w.end],
        )) && w.out.len() > 0 && w.out[0] == 0x22,
    decreases s.len() - i, 3int,
{
    lemma_string_bounds(s, i);
    match scan_string(s, i) {
        Ok(kw) => {
            lemma_ws_end(s, kw.end);
            let wk = ws_end(s, kw.end);
            if kw.end <= wk <= s.len() && wk < s.len() && s[wk] == 0x3a {
                lemma_element_bounds(s, wk + 1);
            }
        },
        Err(_) => {},
    }
}

/// A successful member list stops right before the closing brace.
pub proof fn lemma_members_bounds(s: Seq<u8>, i: int)
    requires
        0 <= i <= s.len(),
    ensures
        scan_members(s, i) matches Ok(w) ==> i < w.end < s.len() && s[w.end] == 0x7d
            && w.out.len() > 0 && w.out[0] == 0x22,
    decreases s.len() - i, 4int,
{
    lemma_member_bounds(s, i);
    match scan_member(s, i) {
        Ok(mw) => {
            lemma_ws_end(s, mw.end);
            let we = ws_end(s, mw.end);
            if i < mw.end <= we <= s.len() && we < s.len() {
                if s[we] == 0x2c {
                    lemma_ws_end(s, we + 1);
                    let w2 = ws_end(s, we + 1);
                    if we < w2 <= s.len() && w2 < s.len() && s[w2] != 0x7d {
                        lemma_members_bounds(s, w2);
                    }
                } else if s[we] != 0x7d {
                    lemma_members_bounds(s, we);
                }
            }
        },
        Err(_) => {},
    }
}

/// A successful element list stops right before the closing bracket.
pub proof fn lemma_elements_bounds(s: Seq<u8>, i: int)
    requires
        0 <= i <= s.len(),
    ensures
        scan_elements(s, i) matches Ok(w) ==> i < w.end < s.len() && s[w.end] == 0x5d
            && w.out.len() > 0 && is_value_start(w.out[0]),
    decreases s.len() - i, 4int,
{
    lemma_value_bounds(s, i);
    match scan_value(s, i) {
        Ok(mw) => {
            lemma_ws_end(s, mw.end);
            let we = ws_end(s, mw.end);
            if i < mw.end <= we <= s.len() && we < s.len() {
                if s[we] == 0x2c {
                    lemma_ws_end(s, we + 1);
                    let w2 = ws_end(s, we + 1);
                    if we < w2 <= s.len() && w2 < s.len() && s[w2] != 0x5d {
                        lemma_elements_bounds(s, w2);
                    }
                } else if s[we] != 0x5d {
                    lemma_elements_bounds(s, we);
                }
            }
        },
        Err(_) => {},
    }
}

// ---------------------------------------------------------------------------
// Echo: the leaf productions write exactly the bytes they consume
// ---------------------------------------------------------------------------

/// An escape writes exactly the bytes it consumed, backslash included.
pub proof fn lemma_escape_echo(s: Seq<u8>, i: int)
    requires
        0 <= i,
    ensures
        scan_escape(s, i) matches Ok(w) ==> w.out == seq![0x5cu8] + s.subrange(i, w.end),
{
    match scan_escape(s, i) {
        Ok(w) => {
            assert(w.out =~= seq![0x5cu8] + s.subrange(i, w.end));
        },
        Err(_) => {},
    }
}

/// String contents are echoed exactly.
pub proof fn lemma_string_body_echo(s: Seq<u8>, i: int)
    requires
        0 <= i,
    ensures
        scan_string_body(s, i) matches Ok(w) ==> w.out == s.subrange(i, w.end),
    decreases s.len() - i,
{
    match scan_string_body(s, i) {
        Ok(bw) => {
            if s[i] == 0x22 {
                assert(bw.out =~= s.subrange(i, bw.end));
            } else if s[i] == 0x5c {
                lemma_escape_bounds(s, i + 1);
                lemma_escape_echo(s, i + 1);
                let ew = scan_escape(s, i + 1)->Ok_0;
                lemma_string_body_bounds(s, ew.end);
                lemma_string_body_echo(s, ew.end);
                assert(bw.out =~= s.subrange(i, bw.end));
            } else {
                lemma_string_body_bounds(s, i + 1);
                lemma_string_body_echo(s, i + 1);
                assert(bw.out =~= s.subrange(i, bw.end));
            }
        },
        Err(_) => {},
    }
}

/// A string is echoed exactly.
pub proof fn lemma_string_echo(s: Seq<u8>, i: int)
    requires
        0 <= i,
    ensures
        scan_string(s, i) matches Ok(w) ==> w.out == s.subrange(i, w.end),
{
    match scan_string(s, i) {
        Ok(w) => {
            lemma_string_body_bounds(s, i + 1);
            lemma_string_body_echo(s, i + 1);
            assert(w.out =~= s.subrange(i, w.end));
        },
        Err(_) => {},
    }
}

/// A number is echoed exactly, with no reformatting.
pub proof fn lemma_number_echo(s: Seq<u8>, i: int)
    requires
        0 <= i <= s.len(),
    ensures
        scan_number(s, i) matches Ok(w) ==> w.out == s.subrange(i, w.end),
{
    match scan_number(s, i) {
        Ok(w) => {
            lemma_integer_bounds(s, i);
            let iw = scan_integer(s, i)->Ok_0;
            if i < s.len() && s[i] == 0x2d {
                lemma_int_digits_bounds(s, i + 1);
                assert(iw.out =~= s.subrange(i, iw.end));
            } else {
                lemma_int_digits_bounds(s, i);
                assert(iw.out =~= s.subrange(i, iw.end));
            }
            lemma_fraction_bounds(s, iw.end);
            let fw = scan_fraction(s, iw.end)->Ok_0;
            if iw.end < s.len() && s[iw.end] == 0x2e {
                lemma_digits_end(s, iw.end + 1);
                assert(fw.out =~= s.subrange(iw.end, fw.end));
            } else {
                assert(fw.out =~= s.subrange(iw.end, fw.end));
            }
            lemma_exponent_bounds(s, fw.end);
            let xw = scan_exponent(s, fw.end)->Ok_0;
            if fw.end < s.len() && (s[fw.end] == 0x65 || s[fw.end] == 0x45) {
                let sw = scan_sign(s, fw.end + 1)->Ok_0;
                lemma_digits_end(s, sw.end);
                assert(sw.out =~= s.subrange(fw.end + 1, sw.end));
                assert(xw.out =~= s.subrange(fw.end, xw.end));
            } else {
                assert(xw.out =~= s.subrange(fw.end, xw.end));
            }
            assert(w.out =~= s.subrange(i, w.end));
        },
        Err(_) => {},
    }
}

// ---------------------------------------------------------------------------
// Dropping commas
// ---------------------------------------------------------------------------

/// The byte sequence with every comma removed. Input and output of a
/// successful run agree on this projection: comma placement is the only
/// thing a repair may touch.
pub open spec fn drop_commas(s: Seq<u8>) -> Seq<u8>
    decreases s.len(),
{
    if s.len() == 0 {
        Seq::empty()
    } else if s[0] == 0x2c {
        drop_commas(s.drop_first())
    } else {
        seq![s[0]] + drop_commas(s.drop_first())
    }
}

/// Dropping commas distributes over concatenation.
pub proof fn lemma_drop_commas_add(a: Seq<u8>, b: Seq<u8>)
    ensures
        drop_commas(a + b) == drop_commas(a) + drop_commas(b),
    decreases a.len(),
{
    if a.len() == 0 {
        assert(a + b =~= b);
        assert(drop_commas(a) + drop_commas(b) =~= drop_commas(b));
    } else {
        lemma_drop_commas_add(a.drop_first(), b);
        assert((a + b).drop_first() =~= a.drop_first() + b);
        assert((a + b)[0] == a[0]);
        if a[0] == 0x2c {
        } else {
            assert(seq![a[0]] + (drop_commas(a.drop_first()) + drop_commas(b)) =~= (seq![a[0]]
                + drop_commas(a.drop_first())) + drop_commas(b));
        }
    }
}

/// Dropping commas from one byte: a comma vanishes, anything else stays.
pub proof fn lemma_drop_commas_single(c: u8)
    ensures
        c == 0x2c ==> drop_commas(seq![c]) == Seq::<u8>::empty(),
        c != 0x2c ==> drop_commas(seq![c]) == seq![c],
{
    assert(seq![c].drop_first() =~= Seq::<u8>::empty());
    assert(drop_commas(Seq::<u8>::empty()) == Seq::<u8>::empty());
    if c != 0x2c {
        assert(seq![c] + Seq::<u8>::empty() =~= seq![c]);
    }
}

// ---------------------------------------------------------------------------
// Shape of a successful walk: identity without repairs, and comma-only
// differences with them
// ---------------------------------------------------------------------------

/// A value that needed no repair is echoed exactly; with repairs, input
/// and output still agree once commas are dropped.
pub proof fn lemma_value_shape(s: Seq<u8>, i: int)
    requires
        0 <= i <= s.len(),
    ensures
        scan_value(s, i) matches Ok(w) ==> (!w.rep ==> w.out == s.subrange(i, w.end)),
        scan_value(s, i) matches Ok(w) ==> drop_commas(w.out) == drop_commas(
            s.subrange(i, w.end),
        ),
    decreases s.len() - i, 1int,
{
    match scan_value(s, i) {
        Ok(w) => {
            if s[i] == 0x6e || s[i] == 0x74 || s[i] == 0x66 {
                assert(w.out =~= s.subrange(i, w.end));
            } else if s[i] == 0x7b {
                lemma_object_shape(s, i);
            } else if s[i] == 0x5b {
                lemma_array_shape(s, i);
            } else if s[i] == 0x22 {
                lemma_string_echo(s, i);
            } else {
                lemma_number_echo(s, i);
            }
        },
        Err(_) => {},
    }
}

/// As `lemma_value_shape`, for objects.
#[verifier::rlimit(100)]
#[verifier::spinoff_prover]
pub proof fn lemma_object_shape(s: Seq<u8>, i: int)
    requires
        0 <= i <= s.len(),
    ensures
        scan_object(s, i) matches Ok(w) ==> (!w.rep ==> w.out == s.subrange(i, w.end)),
        scan_object(s, i) matches Ok(w) ==> drop_commas(w.out) == drop_commas(
            s.subrange(i, w.end),
        ),
    decreases s.len() - i, 0int,
{
    match scan_object(s, i) {
        Ok(w) => {
            lemma_ws_end(s, i + 1);
            let w1 = ws_end(s, i + 1);
            let head = seq![0x7bu8] + s.subrange(i + 1, w1);
            if s[w1] == 0x22 {
                lemma_members_bounds(s, w1);
                lemma_members_shape(s, w1);
            }
            let m = if s[w1] == 0x22 {
                scan_members(s, w1)
            } else {
                Ok(walked(w1, Seq::<u8>::empty(), false))
            };
            let mw = m->Ok_0;
            if s[mw.end] == 0x2c {
                if s[w1] == 0x22 {
                    // a member list always stops at the closing brace
                    assert(false);
                } else {
                    lemma_ws_end(s, mw.end + 1);
                    let w2 = ws_end(s, mw.end + 1);
                    let pd2 = s.subrange(mw.end + 1, w2);
                    assert(s.subrange(i, w2 + 1) =~= seq![0x7bu8] + s.subrange(i + 1, w1)
                        + seq![0x2cu8] + pd2 + seq![0x7du8]);
                    lemma_drop_commas_single(0x2c);
                    lemma_drop_commas_single(0x7b);
                    lemma_drop_commas_single(0x7d);
                    lemma_drop_commas_add(seq![0x7bu8], s.subrange(i + 1, w1));
                    lemma_drop_commas_add(head, mw.out);
                    lemma_drop_commas_add(head + mw.out, pd2);
                    lemma_drop_commas_add(head + mw.out + pd2, seq![0x7du8]);
                    lemma_drop_commas_add(head, seq![0x2cu8]);
                    lemma_drop_commas_add(head + seq![0x2cu8], pd2);
                    lemma_drop_commas_add(head + seq![0x2cu8] + pd2, seq![0x7du8]);
                    assert(head + mw.out =~= head);
                    assert(drop_commas(w.out) == drop_commas(s.subrange(i, w.end)));
                }
            } else {
                // closing brace; the member list, if any, ended right here
                let pre = s.subrange(i, mw.end);
                if s[w1] == 0x22 {
                    assert(pre =~= seq![0x7bu8] + s.subrange(i + 1, w1) + s.subrange(
                        w1,
                        mw.end,
                    ));
                    if !w.rep {
                        assert(w.out =~= s.subrange(i, w.end));
                    }
                    lemma_drop_commas_single(0x7b);
                    lemma_drop_commas_single(0x7d);
                    lemma_drop_commas_add(seq![0x7bu8], s.subrange(i + 1, w1));
                    lemma_drop_commas_add(head, mw.out);
                    lemma_drop_commas_add(head + mw.out, seq![0x7du8]);
                    lemma_drop_commas_add(head, s.subrange(w1, mw.end));
                    lemma_drop_commas_add(head + s.subrange(w1, mw.end), seq![0x7du8]);
                    assert(s.subrange(i, w.end) =~= (head + s.subrange(w1, mw.end))
                        + seq![0x7du8]);
                    assert(drop_commas(w.out) == drop_commas(s.subrange(i, w.end)));
                } else {
                    assert(w.out =~= s.subrange(i, w.end));
                }
            }
        },
        Err(_) => {},
    }
}

/// As `lemma_value_shape`, for arrays.
#[verifier::rlimit(100)]
#[verifier::spinoff_prover]
pub proof fn lemma_array_shape(s: Seq<u8>, i: int)
    requires
        0 <= i <= s.len(),
    ensures
        scan_array(s, i) matches Ok(w) ==> (!w.rep ==> w.out == s.subrange(i, w.end)),
        scan_array(s, i) matches Ok(w) ==> drop_commas(w.out) == drop_commas(
            s.subrange(i, w.end),
        ),
    decreases s.len() - i, 0int,
{
    match scan_array(s, i) {
        Ok(w) => {
            lemma_ws_end(s, i + 1);
            let w1 = ws_end(s, i + 1);
            let head = seq![0x5bu8] + s.subrange(i + 1, w1);
            if s[w1] != 0x2c && s[w1] != 0x5d {
                lemma_elements_bounds(s, w1);
                lemma_elements_shape(s, w1);
            }
            let m = if s[w1] != 0x2c && s[w1] != 0x5d {
                scan_elements(s, w1)
            } else {
                Ok(walked(w1, Seq::<u8>::empty(), false))
            };
            let mw = m->Ok_0;
            if s[mw.end] == 0x2c {
                if s[w1] != 0x2c && s[w1] != 0x5d {
                    // an element list always stops at the closing bracket
                    assert(false);
                } else {
                    lemma_ws_end(s, mw.end + 1);
                    let w2 = ws_end(s, mw.end + 1);
                    let pd2 = s.subrange(mw.end + 1, w2);
                    assert(s.subrange(i, w2 + 1) =~= seq![0x5bu8] + s.subrange(i + 1, w1)
                        + seq![0x2cu8] + pd2 + seq![0x5du8]);
                    lemma_drop_commas_single(0x2c);
                    lemma_drop_commas_single(0x5b);
                    lemma_drop_commas_single(0x5d);
                    lemma_drop_commas_add(seq![0x5bu8], s.subrange(i + 1, w1));
                    lemma_drop_commas_add(head, mw.out);
                    lemma_drop_commas_add(head + mw.out, pd2);
                    lemma_drop_commas_add(head + mw.out + pd2, seq![0x5du8]);
                    lemma_drop_commas_add(head, seq![0x2cu8]);
                    lemma_drop_commas_add(head + seq![0x2cu8], pd2);
                    lemma_drop_commas_add(head + seq![0x2cu8] + pd2, seq![0x5du8]);
                    assert(head + mw.out =~= head);
                    assert(drop_commas(w.out) == drop_commas(s.subrange(i, w.end)));
                }
            } else {
                let pre = s.subrange(i, mw.end);
                if s[w1] != 0x2c && s[w1] != 0x5d {
                    assert(pre =~= seq![0x5bu8] + s.subrange(i + 1, w1) + s.subrange(
                        w1,
                        mw.end,
                    ));
                    if !w.rep {
                        assert(w.out =~= s.subrange(i, w.end));
                    }
                    lemma_drop_commas_single(0x5b);
                    lemma_drop_commas_single(0x5d);
                    lemma_drop_commas_add(seq![0x5bu8], s.subrange(i + 1, w1));
                    lemma_drop_commas_add(head, mw.out);
                    lemma_drop_commas_add(head + mw.out, seq![0x5du8]);
                    lemma_drop_commas_add(head, s.subrange(w1, mw.end));
                    lemma_drop_commas_add(head + s.subrange(w1, mw.end), seq![0x5du8]);
                    assert(s.subrange(i, w.end) =~= (head + s.subrange(w1, mw.end))
                        + seq![0x5du8]);
                    assert(drop_commas(w.out) == drop_commas(s.subrange(i, w.end)));
                } else {
                    assert(w.out =~= s.subrange(i, w.end));
                }
            }
        },
        Err(_) => {},
    }
}

/// As `lemma_value_shape`, for elements.
pub proof fn lemma_element_shape(s: Seq<u8>, i: int)
    requires
        0 <= i <= s.len(),
    ensures
        scan_element(s, i) matches Ok(w) ==> (!w.rep ==> w.out == s.subrange(i, w.end)),
        scan_element(s, i) matches Ok(w) ==> drop_commas(w.out) == drop_commas(
            s.subrange(i, w.end),
        ),
    decreases s.len() - i, 2int,
{
    match scan_element(s, i) {
        Ok(w) => {
            lemma_ws_end(s, i);
            let w1 = ws_end(s, i);
            lemma_value_bounds(s, w1);
            lemma_value_shape(s, w1);
            let vw = scan_value(s, w1)->Ok_0;
            lemma_ws_end(s, vw.end);
            let w2 = ws_end(s, vw.end);
            if !w.rep {
                assert(w.out =~= s.subrange(i, w.end));
            }
            lemma_drop_commas_add(s.subrange(i, w1), vw.out);
            lemma_drop_commas_add(s.subrange(i, w1) + vw.out, s.subrange(vw.end, w2));
            lemma_drop_commas_add(s.subrange(i, w1), s.subrange(w1, vw.end));
            lemma_drop_commas_add(
                s.subrange(i, w1) + s.subrange(w1, vw.end),
                s.subrange(vw.end, w2),
            );
            assert(s.subrange(i, w2) =~= (s.subrange(i, w1) + s.subrange(w1, vw.end))
                + s.subrange(vw.end, w2));
            assert(drop_commas(w.out) == drop_commas(s.subrange(i, w.end)));
        },
        Err(_) => {},
    }
}

/// As `lemma_value_shape`, for members.
pub proof fn lemma_member_shape(s: Seq<u8>, i: int)
    requires
        0 <= i <= s.len(),
    ensures
        scan_member(s, i) matches Ok(w) ==> (!w.rep ==> w.out == s.subrange(i, w.end)),
        scan_member(s, i) matches Ok(w) ==> drop_commas(w.out) == drop_commas(
            s.subrange(i, w.end),
        ),
    decreases s.len() - i, 3int,
{
    match scan_member(s, i) {
        Ok(w) => {
            lemma_string_bounds(s, i);
            lemma_string_echo(s, i);
            let kw = scan_string(s, i)->Ok_0;
            lemma_ws_end(s, kw.end);
            let wk = ws_end(s, kw.end);
            lemma_element_bounds(s, wk + 1);
            lemma_element_shape(s, wk + 1);
            let ew = scan_element(s, wk + 1)->Ok_0;
            let pre = kw.out + s.subrange(kw.end, wk) + seq![0x3au8];
            if !w.rep {
                assert(w.out =~= s.subrange(i, w.end));
            }
            assert(pre =~= s.subrange(i, wk + 1));
            lemma_drop_commas_add(pre, ew.out);
            lemma_drop_commas_add(s.subrange(i, wk + 1), s.subrange(wk + 1, ew.end));
            assert(s.subrange(i, ew.end) =~= s.subrange(i, wk + 1) + s.subrange(
                wk + 1,
                ew.end,
            ));
            assert(drop_commas(w.out) == drop_commas(s.subrange(i, w.end)));
        },
        Err(_) => {},
    }
}

/// As `lemma_value_shape`, for member lists.
#[verifier::rlimit(100)]
#[verifier::spinoff_prover]
pub proof fn lemma_members_shape(s: Seq<u8>, i: int)
    requires
        0 <= i <= s.len(),
    ensures
        scan_members(s, i) matches Ok(w) ==> (!w.rep ==> w.out == s.subrange(i, w.end)),
        scan_members(s, i) matches Ok(w) ==> drop_commas(w.out) == drop_commas(
            s.subrange(i, w.end),
        ),
    decreases s.len() - i, 4int,
{
    match scan_members(s, i) {
        Ok(w) => {
            lemma_member_bounds(s, i);
            lemma_member_shape(s, i);
            let mw = scan_member(s, i)->Ok_0;
            lemma_ws_end(s, mw.end);
            let we = ws_end(s, mw.end);
            let pd = s.subrange(mw.end, we);
            if s[we] == 0x7d {
                if !w.rep {
                    assert(w.out =~= s.subrange(i, we));
                }
                lemma_drop_commas_add(mw.out, pd);
                lemma_drop_commas_add(s.subrange(i, mw.end), pd);
                assert(s.subrange(i, we) =~= s.subrange(i, mw.end) + pd);
                assert(drop_commas(w.out) == drop_commas(s.subrange(i, w.end)));
            } else if s[we] == 0x2c {
                lemma_ws_end(s, we + 1);
                let w2 = ws_end(s, we + 1);
                let pd2 = s.subrange(we + 1, w2);
                lemma_drop_commas_single(0x2c);
                if s[w2] == 0x7d {
                    assert(s.subrange(i, w2) =~= s.subrange(i, mw.end) + pd + seq![0x2cu8]
                        + pd2);
                    lemma_drop_commas_add(mw.out + pd, pd2);
                    lemma_drop_commas_add(mw.out, pd);
                    lemma_drop_commas_add(s.subrange(i, mw.end) + pd + seq![0x2cu8], pd2);
                    lemma_drop_commas_add(s.subrange(i, mw.end) + pd, seq![0x2cu8]);
                    lemma_drop_commas_add(s.subrange(i, mw.end), pd);
                    assert(drop_commas(w.out) == drop_commas(s.subrange(i, w.end)));
                } else {
                    lemma_members_bounds(s, w2);
                    lemma_members_shape(s, w2);
                    let rw = scan_members(s, w2)->Ok_0;
                    if !w.rep {
                        assert(w.out =~= s.subrange(i, rw.end));
                    }
                    assert(s.subrange(i, rw.end) =~= s.subrange(i, mw.end) + pd + seq![0x2cu8]
                        + pd2 + s.subrange(w2, rw.end));
                    lemma_drop_commas_add(mw.out, pd);
                    lemma_drop_commas_add(mw.out + pd, seq![0x2cu8]);
                    lemma_drop_commas_add(mw.out + pd + seq![0x2cu8], pd2);
                    lemma_drop_commas_add(mw.out + pd + seq![0x2cu8] + pd2, rw.out);
                    lemma_drop_commas_add(s.subrange(i, mw.end), pd);
                    lemma_drop_commas_add(s.subrange(i, mw.end) + pd, seq![0x2cu8]);
                    lemma_drop_commas_add(s.subrange(i, mw.end) + pd + seq![0x2cu8], pd2);
                    lemma_drop_commas_add(
                        s.subrange(i, mw.end) + pd + seq![0x2cu8] + pd2,
                        s.subrange(w2, rw.end),
                    );
                    assert(drop_commas(w.out) == drop_commas(s.subrange(i, w.end)));
                }
            } else {
                lemma_members_bounds(s, we);
                lemma_members_shape(s, we);
                let rw = scan_members(s, we)->Ok_0;
                assert(s.subrange(i, rw.end) =~= s.subrange(i, mw.end) + pd + s.subrange(
                    we,
                    rw.end,
                ));
                lemma_drop_commas_single(0x2c);
                lemma_drop_commas_add(mw.out, seq![0x2cu8]);
                lemma_drop_commas_add(mw.out + seq![0x2cu8], pd);
                lemma_drop_commas_add(mw.out + seq![0x2cu8] + pd, rw.out);
                lemma_drop_commas_add(s.subrange(i, mw.end), pd);
                lemma_drop_commas_add(s.subrange(i, mw.end) + pd, s.subrange(we, rw.end));
                assert(drop_commas(w.out) == drop_commas(s.subrange(i, w.end)));
            }
        },
        Err(_) => {},
    }
}

/// As `lemma_value_shape`, for element lists.
#[verifier::rlimit(100)]
#[verifier::spinoff_prover]
pub proof fn lemma_elements_shape(s: Seq<u8>, i: int)
    requires
        0 <= i <= s.len(),
    ensures
        scan_elements(s, i) matches Ok(w) ==> (!w.rep ==> w.out == s.subrange(i, w.end)),
        scan_elements(s, i) matches Ok(w) ==> drop_commas(w.out) == drop_commas(
            s.subrange(i, w.end),
        ),
    decreases s.len() - i, 4int,
{
    match scan_elements(s, i) {
        Ok(w) => {
            lemma_value_bounds(s, i);
            lemma_value_shape(s, i);
            let mw = scan_value(s, i)->Ok_0;
            lemma_ws_end(s, mw.end);
            let we = ws_end(s, mw.end);
            let pd = s.subrange(mw.end, we);
            if s[we] == 0x5d {
                if !w.rep {
                    assert(w.out =~= s.subrange(i, we));
                }
                lemma_drop_commas_add(mw.out, pd);
                lemma_drop_commas_add(s.subrange(i, mw.end), pd);
                assert(s.subrange(i, we) =~= s.subrange(i, mw.end) + pd);
                assert(drop_commas(w.out) == drop_commas(s.subrange(i, w.end)));
            } else if s[we] == 0x2c {
                lemma_ws_end(s, we + 1);
                let w2 = ws_end(s, we + 1);
                let pd2 = s.subrange(we + 1, w2);
                lemma_drop_commas_single(0x2c);
                if s[w2] == 0x5d {
                    assert(s.subrange(i, w2) =~= s.subrange(i, mw.end) + pd + seq![0x2cu8]
                        + pd2);
                    lemma_drop_commas_add(mw.out + pd, pd2);
                    lemma_drop_commas_add(mw.out, pd);
                    lemma_drop_commas_add(s.subrange(i, mw.end) + pd + seq![0x2cu8], pd2);
                    lemma_drop_commas_add(s.subrange(i, mw.end) + pd, seq![0x2cu8]);
                    lemma_drop_commas_add(s.subrange(i, mw.end), pd);
                    assert(drop_commas(w.out) == drop_commas(s.subrange(i, w.end)));
                } else {
                    lemma_elements_bounds(s, w2);
                    lemma_elements_shape(s, w2);
                    let rw = scan_elements(s, w2)->Ok_0;
                    if !w.rep {
                        assert(w.out =~= s.subrange(i, rw.end));
                    }
                    assert(s.subrange(i, rw.end) =~= s.subrange(i, mw.end) + pd + seq![0x2cu8]
                        + pd2 + s.subrange(w2, rw.end));
                    lemma_drop_commas_add(mw.out, pd);
                    lemma_drop_commas_add(mw.out + pd, seq![0x2cu8]);
                    lemma_drop_commas_add(mw.out + pd + seq![0x2cu8], pd2);
                    lemma_drop_commas_add(mw.out + pd + seq![0x2cu8] + pd2, rw.out);
                    lemma_drop_commas_add(s.subrange(i, mw.end), pd);
                    lemma_drop_commas_add(s.subrange(i, mw.end) + pd, seq![0x2cu8]);
                    lemma_drop_commas_add(s.subrange(i, mw.end) + pd + seq![0x2cu8], pd2);
                    lemma_drop_commas_add(
                        s.subrange(i, mw.end) + pd + seq![0x2cu8] + pd2,
                        s.subrange(w2, rw.end),
                    );
                    assert(drop_commas(w.out) == drop_commas(s.subrange(i, w.end)));
                }
            } else {
                lemma_elements_bounds(s, we);
                lemma_elements_shape(s, we);
                let rw = scan_elements(s, we)->Ok_0;
                assert(s.subrange(i, rw.end) =~= s.subrange(i, mw.end) + pd + s.subrange(
                    we,
                    rw.end,
                ));
                lemma_drop_commas_single(0x2c);
                lemma_drop_commas_add(mw.out, seq![0x2cu8]);
                lemma_drop_commas_add(mw.out + seq![0x2cu8], pd);
                lemma_drop_commas_add(mw.out + seq![0x2cu8] + pd, rw.out);
                lemma_drop_commas_add(s.subrange(i, mw.end), pd);
                lemma_drop_commas_add(s.subrange(i, mw.end) + pd, s.subrange(we, rw.end));
                assert(drop_commas(w.out) == drop_commas(s.subrange(i, w.end)));
            }
        },
        Err(_) => {},
    }
}

// ---------------------------------------------------------------------------
// Reparsing produced output: the tools for idempotence
// ---------------------------------------------------------------------------

/// `x` stands letter for letter at position `j` of `t`.
pub open spec fn occurs_at(t: Seq<u8>, j: int, x: Seq<u8>) -> bool {
    0 <= j && j + x.len() <= t.len() && t.subrange(j, j + x.len()) == x
}

/// Every byte of `x` is whitespace.
pub open spec fn ws_run(x: Seq<u8>) -> bool {
    forall|k: int| 0 <= k < x.len() ==> is_ws(#[trigger] x[k])
}

/// A byte that could extend a preceding number if it followed one.
pub open spec fn extends_number(b: u8) -> bool {
    is_digit(b) || b == 0x2e || b == 0x65 || b == 0x45
}

/// An occurrence pins each byte of `t` under it.
pub proof fn lemma_occurs_index(t: Seq<u8>, j: int, x: Seq<u8>, k: int)
    requires
        occurs_at(t, j, x),
        0 <= k < x.len(),
    ensures
        t[j + k] == x[k],
{
    assert(t.subrange(j, j + x.len())[k] == x[k]);
}

/// An occurrence of a concatenation is an occurrence of each part.
pub proof fn lemma_occurs_split(t: Seq<u8>, j: int, a: Seq<u8>, b: Seq<u8>)
    requires
        occurs_at(t, j, a + b),
    ensures
        occurs_at(t, j, a),
        occurs_at(t, j + a.len(), b),
{
    assert forall|k: int| 0 <= k < a.len() implies t.subrange(j, j + a.len())[k] == a[k] by {
        lemma_occurs_index(t, j, a + b, k);
    }
    assert(t.subrange(j, j + a.len()) =~= a);
    assert forall|k: int| 0 <= k < b.len() implies t.subrange(
        j + a.len(),
        j + a.len() + b.len(),
    )[k] == b[k] by {
        lemma_occurs_index(t, j, a + b, a.len() + k);
    }
    assert(t.subrange(j + a.len(), j + a.len() + b.len()) =~= b);
}

/// A whitespace run that stands in `t` and is followed by a byte that is
/// not whitespace, or by the end, is exactly what `ws_end` consumes.
pub proof fn lemma_ws_reparse(t: Seq<u8>, j: int, x: Seq<u8>)
    requires
        occurs_at(t, j, x),
        ws_run(x),
        j + x.len() == t.len() || !is_ws(t[j + x.len()]),
    ensures
        ws_end(t, j) == j + x.len(),
    decreases x.len(),
{
    if x.len() == 0 {
    } else {
        lemma_occurs_index(t, j, x, 0);
        assert(x =~= seq![x[0]] + x.drop_first());
        lemma_occurs_split(t, j, seq![x[0]], x.drop_first());
        lemma_ws_reparse(t, j + 1, x.drop_first());
    }
}

/// A digit run that stands in `t` and is followed by a non-digit, or by
/// the end, is exactly what `digits_end` consumes.
pub proof fn lemma_digits_reparse(t: Seq<u8>, j: int, x: Seq<u8>)
    requires
        occurs_at(t, j, x),
        forall|k: int| 0 <= k < x.len() ==> is_digit(#[trigger] x[k]),
        j + x.len() == t.len() || !is_digit(t[j + x.len()]),
    ensures
        digits_end(t, j) == j + x.len(),
    decreases x.len(),
{
    if x.len() == 0 {
    } else {
        lemma_occurs_index(t, j, x, 0);
        assert(x =~= seq![x[0]] + x.drop_first());
        lemma_occurs_split(t, j, seq![x[0]], x.drop_first());
        lemma_digits_reparse(t, j + 1, x.drop_first());
    }
}

/// An escape's output reparses as the same escape.
pub proof fn lemma_escape_reparse(s: Seq<u8>, i: int, t: Seq<u8>, j: int)
    requires
        0 <= i,
        scan_escape(s, i) is Ok,
        occurs_at(t, j, scan_escape(s, i)->Ok_0.out),
    ensures
        scan_escape(t, j + 1) == Ok::<Walked, SyntaxError>(
            walked(j + scan_escape(s, i)->Ok_0.out.len(), scan_escape(s, i)->Ok_0.out, false),
        ),
{
    let ew = scan_escape(s, i)->Ok_0;
    if is_simple_escape(s[i]) {
        lemma_occurs_index(t, j, ew.out, 0);
        lemma_occurs_index(t, j, ew.out, 1);
        assert(ew.out =~= seq![0x5cu8, t[j + 1]]);
    } else {
        lemma_occurs_index(t, j, ew.out, 0);
        lemma_occurs_index(t, j, ew.out, 1);
        lemma_occurs_index(t, j, ew.out, 2);
        lemma_occurs_index(t, j, ew.out, 3);
        lemma_occurs_index(t, j, ew.out, 4);
        lemma_occurs_index(t, j, ew.out, 5);
        assert(t[j + 2] == s[i + 1] && t[j + 3] == s[i + 2] && t[j + 4] == s[i + 3] && t[j + 5]
            == s[i + 4]);
        assert(ew.out =~= seq![0x5cu8, 0x75u8] + t.subrange(j + 2, j + 6));
    }
}

/// String contents reparse as the same contents.
pub proof fn lemma_string_body_reparse(s: Seq<u8>, i: int, t: Seq<u8>, j: int)
    requires
        0 <= i,
        scan_string_body(s, i) is Ok,
        occurs_at(t, j, scan_string_body(s, i)->Ok_0.out),
    ensures
        scan_string_body(t, j) == Ok::<Walked, SyntaxError>(
            walked(
                j + scan_string_body(s, i)->Ok_0.out.len(),
                scan_string_body(s, i)->Ok_0.out,
                false,
            ),
        ),
    decreases s.len() - i,
{
    let bw = scan_string_body(s, i)->Ok_0;
    if s[i] == 0x22 {
        lemma_occurs_index(t, j, bw.out, 0);
        assert(bw.out =~= seq![0x22u8]);
    } else if s[i] == 0x5c {
        lemma_escape_bounds(s, i + 1);
        let ew = scan_escape(s, i + 1)->Ok_0;
        lemma_string_body_bounds(s, ew.end);
        let b2 = scan_string_body(s, ew.end)->Ok_0;
        lemma_occurs_split(t, j, ew.out, b2.out);
        lemma_occurs_index(t, j, ew.out, 0);
        lemma_escape_reparse(s, i + 1, t, j);
        lemma_string_body_reparse(s, ew.end, t, j + ew.out.len());
        assert(bw.out =~= ew.out + b2.out);
    } else {
        lemma_string_body_bounds(s, i + 1);
        let b2 = scan_string_body(s, i + 1)->Ok_0;
        lemma_occurs_split(t, j, seq![s[i]], b2.out);
        lemma_occurs_index(t, j, bw.out, 0);
        lemma_string_body_reparse(s, i + 1, t, j + 1);
        assert(bw.out =~= seq![t[j]] + b2.out);
    }
}

/// A string's output reparses as the same string.
pub proof fn lemma_string_reparse(s: Seq<u8>, i: int, t: Seq<u8>, j: int)
    requires
        0 <= i,
        scan_string(s, i) is Ok,
        occurs_at(t, j, scan_string(s, i)->Ok_0.out),
    ensures
        scan_string(t, j) == Ok::<Walked, SyntaxError>(
            walked(j + scan_string(s, i)->Ok_0.out.len(), scan_string(s, i)->Ok_0.out, false),
        ),
{
    let kw = scan_string(s, i)->Ok_0;
    lemma_string_body_bounds(s, i + 1);
    let bw = scan_string_body(s, i + 1)->Ok_0;
    lemma_occurs_split(t, j, seq![0x22u8], bw.out);
    lemma_occurs_index(t, j, kw.out, 0);
    lemma_string_body_reparse(s, i + 1, t, j + 1);
    assert(kw.out =~= seq![0x22u8] + bw.out);
}

/// The digit part of an integer reparses as itself when no digit follows.
pub proof fn lemma_int_digits_reparse(s: Seq<u8>, i: int, t: Seq<u8>, j: int)
    requires
        0 <= i <= s.len(),
        scan_int_digits(s, i) is Ok,
        occurs_at(t, j, scan_int_digits(s, i)->Ok_0.out),
        j + scan_int_digits(s, i)->Ok_0.out.len() == t.len() || !is_digit(
            t[j + scan_int_digits(s, i)->Ok_0.out.len()],
        ),
    ensures
        scan_int_digits(t, j) == Ok::<Walked, SyntaxError>(
            walked(
                j + scan_int_digits(s, i)->Ok_0.out.len(),
                scan_int_digits(s, i)->Ok_0.out,
                false,
            ),
        ),
{
    let w = scan_int_digits(s, i)->Ok_0;
    lemma_int_digits_bounds(s, i);
    lemma_occurs_index(t, j, w.out, 0);
    if s[i] == 0x30 {
        assert(w.out =~= seq![0x30u8]);
    } else {
        lemma_digits_end(s, i);
        assert forall|k: int| 0 <= k < w.out.len() implies is_digit(#[trigger] w.out[k]) by {
            assert(w.out[k] == s[i + k]);
        }
        lemma_digits_reparse(t, j, w.out);
        assert(t.subrange(j, j + w.out.len()) == w.out);
    }
}

/// The integer part reparses as itself when no digit follows.
pub proof fn lemma_integer_reparse(s: Seq<u8>, i: int, t: Seq<u8>, j: int)
    requires
        0 <= i <= s.len(),
        scan_integer(s, i) is Ok,
        occurs_at(t, j, scan_integer(s, i)->Ok_0.out),
        j + scan_integer(s, i)->Ok_0.out.len() == t.len() || !is_digit(
            t[j + scan_integer(s, i)->Ok_0.out.len()],
        ),
    ensures
        scan_integer(t, j) == Ok::<Walked, SyntaxError>(
            walked(j + scan_integer(s, i)->Ok_0.out.len(), scan_integer(s, i)->Ok_0.out, false),
        ),
{
    let w = scan_integer(s, i)->Ok_0;
    lemma_integer_bounds(s, i);
    lemma_occurs_index(t, j, w.out, 0);
    if s[i] == 0x2d {
        lemma_int_digits_bounds(s, i + 1);
        let dw = scan_int_digits(s, i + 1)->Ok_0;
        assert(w.out =~= seq![0x2du8] + dw.out);
        lemma_occurs_split(t, j, seq![0x2du8], dw.out);
        lemma_int_digits_reparse(s, i + 1, t, j + 1);
        lemma_int_digits_bounds(t, j + 1);
    } else {
        lemma_int_digits_reparse(s, i, t, j);
    }
}

/// The fraction part reparses as itself: an empty one stays empty when no
/// dot follows, a present one is closed off by any non-digit.
pub proof fn lemma_fraction_reparse(s: Seq<u8>, i: int, t: Seq<u8>, j: int)
    requires
        0 <= i <= s.len(),
        scan_fraction(s, i) is Ok,
        occurs_at(t, j, scan_fraction(s, i)->Ok_0.out),
        scan_fraction(s, i)->Ok_0.out.len() == 0 ==> j == t.len() || t[j] != 0x2e,
        j + scan_fraction(s, i)->Ok_0.out.len() == t.len() || !is_digit(
            t[j + scan_fraction(s, i)->Ok_0.out.len()],
        ),
    ensures
        scan_fraction(t, j) == Ok::<Walked, SyntaxError>(
            walked(
                j + scan_fraction(s, i)->Ok_0.out.len(),
                scan_fraction(s, i)->Ok_0.out,
                false,
            ),
        ),
{
    let fw = scan_fraction(s, i)->Ok_0;
    lemma_fraction_bounds(s, i);
    if i < s.len() && s[i] == 0x2e {
        lemma_digits_end(s, i + 1);
        let dw = scan_digits(s, i + 1)->Ok_0;
        assert(fw.out =~= seq![0x2eu8] + dw.out);
        lemma_occurs_split(t, j, seq![0x2eu8], dw.out);
        lemma_occurs_index(t, j, fw.out, 0);
        assert forall|k: int| 0 <= k < dw.out.len() implies is_digit(#[trigger] dw.out[k]) by {
            assert(dw.out[k] == s[i + 1 + k]);
        }
        lemma_digits_reparse(t, j + 1, dw.out);
        assert(t.subrange(j + 1, j + 1 + dw.out.len()) == dw.out);
    }
}

/// The exponent part reparses as itself: an empty one stays empty when no
/// exponent mark follows, a present one is closed off by any non-digit.
pub proof fn lemma_exponent_reparse(s: Seq<u8>, i: int, t: Seq<u8>, j: int)
    requires
        0 <= i <= s.len(),
        scan_exponent(s, i) is Ok,
        occurs_at(t, j, scan_exponent(s, i)->Ok_0.out),
        scan_exponent(s, i)->Ok_0.out.len() == 0 ==> j == t.len() || (t[j] != 0x65 && t[j]
            != 0x45),
        j + scan_exponent(s, i)->Ok_0.out.len() == t.len() || !is_digit(
            t[j + scan_exponent(s, i)->Ok_0.out.len()],
        ),
    ensures
        scan_exponent(t, j) == Ok::<Walked, SyntaxError>(
            walked(
                j + scan_exponent(s, i)->Ok_0.out.len(),
                scan_exponent(s, i)->Ok_0.out,
                false,
            ),
        ),
{
    let xw = scan_exponent(s, i)->Ok_0;
    lemma_exponent_bounds(s, i);
    if i < s.len() && (s[i] == 0x65 || s[i] == 0x45) {
        let sw = scan_sign(s, i + 1)->Ok_0;
        let dw = scan_digits(s, sw.end)->Ok_0;
        lemma_digits_end(s, sw.end);
        assert(xw.out =~= seq![s[i]] + (sw.out + dw.out));
        lemma_occurs_split(t, j, seq![s[i]], sw.out + dw.out);
        lemma_occurs_split(t, j + 1, sw.out, dw.out);
        lemma_occurs_index(t, j, xw.out, 0);
        assert forall|k: int| 0 <= k < dw.out.len() implies is_digit(#[trigger] dw.out[k]) by {
            assert(dw.out[k] == s[sw.end + k]);
        }
        if sw.out.len() == 0 {
            lemma_occurs_index(t, j + 1, dw.out, 0);
            assert(is_digit(t[j + 1]));
        } else {
            lemma_occurs_index(t, j + 1, sw.out, 0);
            assert(t[j + 1] == s[i + 1]);
        }
        lemma_digits_reparse(t, j + 1 + sw.out.len(), dw.out);
        assert(t.subrange(
            j + 1 + sw.out.len(),
            j + 1 + sw.out.len() + dw.out.len(),
        ) == dw.out);
        assert(sw.out.len() > 0 ==> t.subrange(j + 1, j + 1 + sw.out.len()) == sw.out);
        assert(xw.out =~= seq![t[j]] + sw.out + dw.out);
    }
}

/// A number's output reparses as the same number when the byte after it,
/// if any, cannot extend a number.
pub proof fn lemma_number_reparse(s: Seq<u8>, i: int, t: Seq<u8>, j: int)
    requires
        0 <= i <= s.len(),
        scan_number(s, i) is Ok,
        occurs_at(t, j, scan_number(s, i)->Ok_0.out),
        j + scan_number(s, i)->Ok_0.out.len() == t.len() || !extends_number(
            t[j + scan_number(s, i)->Ok_0.out.len()],
        ),
    ensures
        scan_number(t, j) == Ok::<Walked, SyntaxError>(
            walked(j + scan_number(s, i)->Ok_0.out.len(), scan_number(s, i)->Ok_0.out, false),
        ),
{
    let w = scan_number(s, i)->Ok_0;
    lemma_integer_bounds(s, i);
    let iw = scan_integer(s, i)->Ok_0;
    lemma_fraction_bounds(s, iw.end);
    let fw = scan_fraction(s, iw.end)->Ok_0;
    lemma_exponent_bounds(s, fw.end);
    let xw = scan_exponent(s, fw.end)->Ok_0;
    let j1 = j + iw.out.len();
    let j2 = j1 + fw.out.len();
    let j3 = j2 + xw.out.len();
    assert(w.out =~= (iw.out + fw.out) + xw.out);
    lemma_occurs_split(t, j, iw.out + fw.out, xw.out);
    lemma_occurs_split(t, j, iw.out, fw.out);
    if fw.out.len() > 0 {
        assert(fw.out[0] == 0x2e);
        lemma_occurs_index(t, j1, fw.out, 0);
    }
    if xw.out.len() > 0 {
        assert(xw.out[0] == 0x65 || xw.out[0] == 0x45);
        lemma_occurs_index(t, j2, xw.out, 0);
    }
    lemma_integer_reparse(s, i, t, j);
    lemma_fraction_reparse(s, iw.end, t, j1);
    lemma_exponent_reparse(s, fw.end, t, j2);
    assert(iw.out + fw.out + xw.out =~= w.out);
}

/// Whitespace runs concatenate to whitespace runs.
pub proof fn lemma_ws_run_add(a: Seq<u8>, b: Seq<u8>)
    requires
        ws_run(a),
        ws_run(b),
    ensures
        ws_run(a + b),
{
    assert forall|k: int| 0 <= k < (a + b).len() implies is_ws(#[trigger] (a + b)[k]) by {
        if k < a.len() {
            assert((a + b)[k] == a[k]);
        } else {
            assert((a + b)[k] == b[k - a.len()]);
        }
    }
}

/// A subrange of bytes that are all whitespace is a whitespace run.
pub proof fn lemma_ws_subrange(s: Seq<u8>, a: int, b: int)
    requires
        0 <= a <= b <= s.len(),
        forall|k: int| a <= k < b ==> is_ws(#[trigger] s[k]),
    ensures
        ws_run(s.subrange(a, b)),
{
    assert forall|k: int| 0 <= k < b - a implies is_ws(#[trigger] s.subrange(a, b)[k]) by {
        assert(s.subrange(a, b)[k] == s[a + k]);
    }
}

/// A value's output reparses as the same value when the byte after it, if
/// any, cannot extend a number.
pub proof fn lemma_value_reparse(s: Seq<u8>, i: int, t: Seq<u8>, j: int)
    requires
        0 <= i <= s.len(),
        scan_value(s, i) is Ok,
        occurs_at(t, j, scan_value(s, i)->Ok_0.out),
        j + scan_value(s, i)->Ok_0.out.len() == t.len() || !extends_number(
            t[j + scan_value(s, i)->Ok_0.out.len()],
        ),
    ensures
        scan_value(t, j) == Ok::<Walked, SyntaxError>(
            walked(j + scan_value(s, i)->Ok_0.out.len(), scan_value(s, i)->Ok_0.out, false),
        ),
    decreases s.len() - i, 2int,
{
    let w = scan_value(s, i)->Ok_0;
    lemma_value_bounds(s, i);
    lemma_occurs_index(t, j, w.out, 0);
    if s[i] == 0x6e || s[i] == 0x74 || s[i] == 0x66 {
        lemma_occurs_index(t, j, w.out, 1);
        lemma_occurs_index(t, j, w.out, 2);
        lemma_occurs_index(t, j, w.out, 3);
        if s[i] == 0x66 {
            lemma_occurs_index(t, j, w.out, 4);
        }
        assert(scan_value(t, j) == Ok::<Walked, SyntaxError>(
            walked(j + w.out.len(), w.out, false),
        ));
    } else if s[i] == 0x7b {
        lemma_object_reparse(s, i, t, j);
    } else if s[i] == 0x5b {
        lemma_array_reparse(s, i, t, j);
    } else if s[i] == 0x22 {
        lemma_string_reparse(s, i, t, j);
    } else {
        lemma_number_reparse(s, i, t, j);
    }
}

/// An element's output, followed by any further whitespace that the next
/// context would hand it, reparses as that element with the whitespace
/// absorbed into its trailing run.
pub proof fn lemma_element_reparse(s: Seq<u8>, i: int, t: Seq<u8>, j: int, wsx: Seq<u8>)
    requires
        0 <= i <= s.len(),
        scan_element(s, i) is Ok,
        occurs_at(t, j, scan_element(s, i)->Ok_0.out + wsx),
        ws_run(wsx),
        j + scan_element(s, i)->Ok_0.out.len() + wsx.len() == t.len() || (!is_ws(
            t[j + scan_element(s, i)->Ok_0.out.len() + wsx.len()],
        ) && !extends_number(t[j + scan_element(s, i)->Ok_0.out.len() + wsx.len()])),
    ensures
        scan_element(t, j) == Ok::<Walked, SyntaxError>(
            walked(
                j + scan_element(s, i)->Ok_0.out.len() + wsx.len(),
                scan_element(s, i)->Ok_0.out + wsx,
                false,
            ),
        ),
    decreases s.len() - i, 3int,
{
    let ew = scan_element(s, i)->Ok_0;
    let p = j + ew.out.len() + wsx.len();
    lemma_ws_end(s, i);
    let w1 = ws_end(s, i);
    let ws1 = s.subrange(i, w1);
    lemma_ws_subrange(s, i, w1);
    lemma_value_bounds(s, w1);
    let vw = scan_value(s, w1)->Ok_0;
    lemma_ws_end(s, vw.end);
    let w2 = ws_end(s, vw.end);
    let ws2 = s.subrange(vw.end, w2);
    lemma_ws_subrange(s, vw.end, w2);
    assert(ew.out + wsx =~= ws1 + (vw.out + (ws2 + wsx)));
    lemma_occurs_split(t, j, ws1, vw.out + (ws2 + wsx));
    let a = j + ws1.len();
    lemma_occurs_split(t, a, vw.out, ws2 + wsx);
    let b = a + vw.out.len();
    lemma_occurs_index(t, a, vw.out, 0);
    lemma_ws_reparse(t, j, ws1);
    lemma_ws_run_add(ws2, wsx);
    if ws2.len() + wsx.len() > 0 {
        lemma_occurs_index(t, b, ws2 + wsx, 0);
    }
    lemma_value_reparse(s, w1, t, a);
    lemma_ws_reparse(t, b, ws2 + wsx);
    assert(t.subrange(j, a) == ws1);
    assert(t.subrange(b, p) == ws2 + wsx);
    assert(t.subrange(j, a) + vw.out + t.subrange(b, p) =~= ew.out + wsx);
}

/// A member's output, with further whitespace handed in, reparses as that
/// member with the whitespace absorbed.
pub proof fn lemma_member_reparse(s: Seq<u8>, i: int, t: Seq<u8>, j: int, wsx: Seq<u8>)
    requires
        0 <= i <= s.len(),
        scan_member(s, i) is Ok,
        occurs_at(t, j, scan_member(s, i)->Ok_0.out + wsx),
        ws_run(wsx),
        j + scan_member(s, i)->Ok_0.out.len() + wsx.len() == t.len() || (!is_ws(
            t[j + scan_member(s, i)->Ok_0.out.len() + wsx.len()],
        ) && !extends_number(t[j + scan_member(s, i)->Ok_0.out.len() + wsx.len()])),
    ensures
        scan_member(t, j) == Ok::<Walked, SyntaxError>(
            walked(
                j + scan_member(s, i)->Ok_0.out.len() + wsx.len(),
                scan_member(s, i)->Ok_0.out + wsx,
                false,
            ),
        ),
    decreases s.len() - i, 4int,
{
    let mw = scan_member(s, i)->Ok_0;
    let p = j + mw.out.len() + wsx.len();
    lemma_string_bounds(s, i);
    let kw = scan_string(s, i)->Ok_0;
    lemma_ws_end(s, kw.end);
    let wk = ws_end(s, kw.end);
    let wsk = s.subrange(kw.end, wk);
    lemma_ws_subrange(s, kw.end, wk);
    lemma_element_bounds(s, wk + 1);
    let ew = scan_element(s, wk + 1)->Ok_0;
    assert(mw.out + wsx =~= kw.out + (wsk + (seq![0x3au8] + (ew.out + wsx))));
    lemma_occurs_split(t, j, kw.out, wsk + (seq![0x3au8] + (ew.out + wsx)));
    let a1 = j + kw.out.len();
    lemma_occurs_split(t, a1, wsk, seq![0x3au8] + (ew.out + wsx));
    let a2 = a1 + wsk.len();
    lemma_occurs_split(t, a2, seq![0x3au8], ew.out + wsx);
    lemma_occurs_index(t, a2, seq![0x3au8], 0);
    lemma_string_reparse(s, i, t, j);
    lemma_ws_reparse(t, a1, wsk);
    lemma_element_reparse(s, wk + 1, t, a2 + 1, wsx);
    assert(t.subrange(a1, a2) == wsk);
    assert(kw.out + t.subrange(a1, a2) + seq![0x3au8] + (ew.out + wsx) =~= mw.out + wsx);
}

/// An object's output reparses as the same object with nothing repaired.
#[verifier::rlimit(100)]
#[verifier::spinoff_prover]
pub proof fn lemma_object_reparse(s: Seq<u8>, i: int, t: Seq<u8>, j: int)
    requires
        0 <= i <= s.len(),
        scan_object(s, i) is Ok,
        occurs_at(t, j, scan_object(s, i)->Ok_0.out),
    ensures
        scan_object(t, j) == Ok::<Walked, SyntaxError>(
            walked(j + scan_object(s, i)->Ok_0.out.len(), scan_object(s, i)->Ok_0.out, false),
        ),
    decreases s.len() - i, 1int,
{
    let w = scan_object(s, i)->Ok_0;
    lemma_object_bounds(s, i);
    lemma_ws_end(s, i + 1);
    let w1 = ws_end(s, i + 1);
    let ws1 = s.subrange(i + 1, w1);
    lemma_ws_subrange(s, i + 1, w1);
    lemma_occurs_index(t, j, w.out, 0);
    if s[w1] == 0x22 {
        lemma_object_reparse_members(s, i, t, j);
    } else if s[w1] == 0x2c {
        lemma_ws_end(s, w1 + 1);
        let w2 = ws_end(s, w1 + 1);
        let ws3 = s.subrange(w1 + 1, w2);
        lemma_ws_subrange(s, w1 + 1, w2);
        assert(w.out =~= seq![0x7bu8] + ((ws1 + ws3) + seq![0x7du8]));
        lemma_occurs_split(t, j, seq![0x7bu8], (ws1 + ws3) + seq![0x7du8]);
        lemma_occurs_split(t, j + 1, ws1 + ws3, seq![0x7du8]);
        let b = j + 1 + ws1.len() + ws3.len();
        lemma_occurs_index(t, b, seq![0x7du8], 0);
        lemma_ws_run_add(ws1, ws3);
        lemma_ws_reparse(t, j + 1, ws1 + ws3);
        assert(t.subrange(j + 1, b) == ws1 + ws3);
        assert(seq![0x7bu8] + t.subrange(j + 1, b) + Seq::<u8>::empty() + seq![0x7du8]
            =~= w.out);
    } else {
        assert(w.out =~= seq![0x7bu8] + (ws1 + seq![0x7du8]));
        lemma_occurs_split(t, j, seq![0x7bu8], ws1 + seq![0x7du8]);
        lemma_occurs_split(t, j + 1, ws1, seq![0x7du8]);
        let b = j + 1 + ws1.len();
        lemma_occurs_index(t, b, seq![0x7du8], 0);
        lemma_ws_reparse(t, j + 1, ws1);
        assert(t.subrange(j + 1, b) == ws1);
        assert(seq![0x7bu8] + t.subrange(j + 1, b) + Seq::<u8>::empty() + seq![0x7du8]
            =~= w.out);
    }
}

/// The member-carrying case of `lemma_object_reparse`.
#[verifier::rlimit(100)]
#[verifier::spinoff_prover]
proof fn lemma_object_reparse_members(s: Seq<u8>, i: int, t: Seq<u8>, j: int)
    requires
        0 <= i <= s.len(),
        scan_object(s, i) is Ok,
        occurs_at(t, j, scan_object(s, i)->Ok_0.out),
        0 <= i + 1 <= s.len() && s[ws_end(s, i + 1)] == 0x22,
    ensures
        scan_object(t, j) == Ok::<Walked, SyntaxError>(
            walked(j + scan_object(s, i)->Ok_0.out.len(), scan_object(s, i)->Ok_0.out, false),
        ),
    decreases s.len() - i, 0int,
{
    let w = scan_object(s, i)->Ok_0;
    lemma_object_bounds(s, i);
    lemma_ws_end(s, i + 1);
    let w1 = ws_end(s, i + 1);
    let ws1 = s.subrange(i + 1, w1);
    lemma_ws_subrange(s, i + 1, w1);
    lemma_occurs_index(t, j, w.out, 0);
    lemma_members_bounds(s, w1);
    let m = scan_members(s, w1)->Ok_0;
    assert(w.out =~= seq![0x7bu8] + (ws1 + (m.out + seq![0x7du8])));
    lemma_occurs_split(t, j, seq![0x7bu8], ws1 + (m.out + seq![0x7du8]));
    lemma_occurs_split(t, j + 1, ws1, m.out + seq![0x7du8]);
    let a = j + 1 + ws1.len();
    lemma_occurs_split(t, a, m.out, seq![0x7du8]);
    let p = a + m.out.len();
    lemma_occurs_index(t, p, seq![0x7du8], 0);
    lemma_occurs_index(t, a, m.out, 0);
    lemma_ws_reparse(t, j + 1, ws1);
    assert(m.out + Seq::<u8>::empty() =~= m.out);
    lemma_members_reparse(s, w1, t, a, Seq::empty());
    assert(t.subrange(j + 1, a) == ws1);
    assert(seq![0x7bu8] + t.subrange(j + 1, a) + (m.out + Seq::<u8>::empty()) + seq![0x7du8]
        =~= w.out);
}

/// An array's output reparses as the same array with nothing repaired.
#[verifier::rlimit(100)]
#[verifier::spinoff_prover]
pub proof fn lemma_array_reparse(s: Seq<u8>, i: int, t: Seq<u8>, j: int)
    requires
        0 <= i <= s.len(),
        scan_array(s, i) is Ok,
        occurs_at(t, j, scan_array(s, i)->Ok_0.out),
    ensures
        scan_array(t, j) == Ok::<Walked, SyntaxError>(
            walked(j + scan_array(s, i)->Ok_0.out.len(), scan_array(s, i)->Ok_0.out, false),
        ),
    decreases s.len() - i, 1int,
{
    let w = scan_array(s, i)->Ok_0;
    lemma_array_bounds(s, i);
    lemma_ws_end(s, i + 1);
    let w1 = ws_end(s, i + 1);
    let ws1 = s.subrange(i + 1, w1);
    lemma_ws_subrange(s, i + 1, w1);
    lemma_occurs_index(t, j, w.out, 0);
    if s[w1] != 0x2c && s[w1] != 0x5d {
        lemma_elements_bounds(s, w1);
        let m = scan_elements(s, w1)->Ok_0;
        assert(w.out =~= seq![0x5bu8] + (ws1 + (m.out + seq![0x5du8])));
        lemma_occurs_split(t, j, seq![0x5bu8], ws1 + (m.out + seq![0x5du8]));
        lemma_occurs_split(t, j + 1, ws1, m.out + seq![0x5du8]);
        let a = j + 1 + ws1.len();
        lemma_occurs_split(t, a, m.out, seq![0x5du8]);
        let p = a + m.out.len();
        lemma_occurs_index(t, p, seq![0x5du8], 0);
        lemma_occurs_index(t, a, m.out, 0);
        lemma_ws_reparse(t, j + 1, ws1);
        assert(m.out + Seq::<u8>::empty() =~= m.out);
        lemma_elements_reparse(s, w1, t, a, Seq::empty());
        assert(t.subrange(j + 1, a) == ws1);
        assert(seq![0x5bu8] + t.subrange(j + 1, a) + (m.out + Seq::<u8>::empty())
            + seq![0x5du8] =~= w.out);
    } else if s[w1] == 0x2c {
        lemma_ws_end(s, w1 + 1);
        let w2 = ws_end(s, w1 + 1);
        let ws3 = s.subrange(w1 + 1, w2);
        lemma_ws_subrange(s, w1 + 1, w2);
        assert(w.out =~= seq![0x5bu8] + ((ws1 + ws3) + seq![0x5du8]));
        lemma_occurs_split(t, j, seq![0x5bu8], (ws1 + ws3) + seq![0x5du8]);
        lemma_occurs_split(t, j + 1, ws1 + ws3, seq![0x5du8]);
        let b = j + 1 + ws1.len() + ws3.len();
        lemma_occurs_index(t, b, seq![0x5du8], 0);
        lemma_ws_run_add(ws1, ws3);
        lemma_ws_reparse(t, j + 1, ws1 + ws3);
        assert(t.subrange(j + 1, b) == ws1 + ws3);
        assert(seq![0x5bu8] + t.subrange(j + 1, b) + Seq::<u8>::empty() + seq![0x5du8]
            =~= w.out);
    } else {
        assert(w.out =~= seq![0x5bu8] + (ws1 + seq![0x5du8]));
        lemma_occurs_split(t, j, seq![0x5bu8], ws1 + seq![0x5du8]);
        lemma_occurs_split(t, j + 1, ws1, seq![0x5du8]);
        let b = j + 1 + ws1.len();
        lemma_occurs_index(t, b, seq![0x5du8], 0);
        lemma_ws_reparse(t, j + 1, ws1);
        assert(t.subrange(j + 1, b) == ws1);
        assert(seq![0x5bu8] + t.subrange(j + 1, b) + Seq::<u8>::empty() + seq![0x5du8]
            =~= w.out);
    }
}

/// A member list's output, with any whitespace the object hands it before
/// the closing brace, reparses as the same list with nothing repaired.
#[verifier::rlimit(100)]
#[verifier::spinoff_prover]
pub proof fn lemma_members_reparse(s: Seq<u8>, i: int, t: Seq<u8>, j: int, wsx: Seq<u8>)
    requires
        0 <= i <= s.len(),
        scan_members(s, i) is Ok,
        occurs_at(t, j, scan_members(s, i)->Ok_0.out + wsx),
        ws_run(wsx),
        j + scan_members(s, i)->Ok_0.out.len() + wsx.len() < t.len(),
        t[j + scan_members(s, i)->Ok_0.out.len() + wsx.len()] == 0x7d,
    ensures
        scan_members(t, j) == Ok::<Walked, SyntaxError>(
            walked(
                j + scan_members(s, i)->Ok_0.out.len() + wsx.len(),
                scan_members(s, i)->Ok_0.out + wsx,
                false,
            ),
        ),
    decreases s.len() - i, 5int,
{
    let m = scan_members(s, i)->Ok_0;
    let p = j + m.out.len() + wsx.len();
    lemma_member_bounds(s, i);
    let mw = scan_member(s, i)->Ok_0;
    lemma_ws_end(s, mw.end);
    let we = ws_end(s, mw.end);
    assert(we == mw.end);
    assert(s.subrange(mw.end, we) =~= Seq::<u8>::empty());
    if s[we] == 0x7d {
        assert(m.out =~= mw.out);
        assert(mw.out + wsx =~= m.out + wsx);
        lemma_member_reparse(s, i, t, j, wsx);
        assert((mw.out + wsx) + t.subrange(p, p) =~= m.out + wsx);
    } else if s[we] == 0x2c {
        lemma_ws_end(s, we + 1);
        let w2 = ws_end(s, we + 1);
        let pd2 = s.subrange(we + 1, w2);
        lemma_ws_subrange(s, we + 1, w2);
        if s[w2] == 0x7d {
            assert(m.out =~= mw.out + pd2);
            lemma_ws_run_add(pd2, wsx);
            assert(mw.out + (pd2 + wsx) =~= m.out + wsx);
            lemma_member_reparse(s, i, t, j, pd2 + wsx);
            assert((mw.out + (pd2 + wsx)) + t.subrange(p, p) =~= m.out + wsx);
        } else {
            lemma_members_bounds(s, w2);
            let rw = scan_members(s, w2)->Ok_0;
            assert(m.out + wsx =~= mw.out + (seq![0x2cu8] + (pd2 + (rw.out + wsx))));
            lemma_occurs_split(t, j, mw.out, seq![0x2cu8] + (pd2 + (rw.out + wsx)));
            let b0 = j + mw.out.len();
            lemma_occurs_split(t, b0, seq![0x2cu8], pd2 + (rw.out + wsx));
            lemma_occurs_split(t, b0 + 1, pd2, rw.out + wsx);
            let b1 = b0 + 1 + pd2.len();
            lemma_occurs_index(t, b0, seq![0x2cu8], 0);
            assert(mw.out + Seq::<u8>::empty() =~= mw.out);
            lemma_member_reparse(s, i, t, j, Seq::empty());
            lemma_occurs_index(t, b1, rw.out + wsx, 0);
            lemma_ws_reparse(t, b0 + 1, pd2);
            lemma_members_reparse(s, w2, t, b1, wsx);
            assert(t.subrange(b0 + 1, b1) == pd2);
            assert((mw.out + Seq::<u8>::empty()) + t.subrange(b0, b0) + seq![0x2cu8] + pd2 + (
            rw.out + wsx) =~= m.out + wsx);
        }
    } else {
        lemma_members_bounds(s, we);
        let rw = scan_members(s, we)->Ok_0;
        assert(m.out + wsx =~= mw.out + (seq![0x2cu8] + (rw.out + wsx)));
        lemma_occurs_split(t, j, mw.out, seq![0x2cu8] + (rw.out + wsx));
        let b0 = j + mw.out.len();
        lemma_occurs_split(t, b0, seq![0x2cu8], rw.out + wsx);
        lemma_occurs_index(t, b0, seq![0x2cu8], 0);
        assert(mw.out + Seq::<u8>::empty() =~= mw.out);
        lemma_member_reparse(s, i, t, j, Seq::empty());
        lemma_occurs_index(t, b0 + 1, rw.out + wsx, 0);
        lemma_members_reparse(s, we, t, b0 + 1, wsx);
        assert((mw.out + Seq::<u8>::empty()) + t.subrange(b0, b0) + seq![0x2cu8] + t.subrange(
            b0 + 1,
            b0 + 1,
        ) + (rw.out + wsx) =~= m.out + wsx);
    }
}

/// An element list's output, with any whitespace the array hands it
/// before the closing bracket, reparses as the same list with nothing
/// repaired.
#[verifier::rlimit(100)]
#[verifier::spinoff_prover]
pub proof fn lemma_elements_reparse(s: Seq<u8>, i: int, t: Seq<u8>, j: int, wsx: Seq<u8>)
    requires
        0 <= i <= s.len(),
        scan_elements(s, i) is Ok,
        occurs_at(t, j, scan_elements(s, i)->Ok_0.out + wsx),
        ws_run(wsx),
        j + scan_elements(s, i)->Ok_0.out.len() + wsx.len() < t.len(),
        t[j + scan_elements(s, i)->Ok_0.out.len() + wsx.len()] == 0x5d,
    ensures
        scan_elements(t, j) == Ok::<Walked, SyntaxError>(
            walked(
                j + scan_elements(s, i)->Ok_0.out.len() + wsx.len(),
                scan_elements(s, i)->Ok_0.out + wsx,
                false,
            ),
        ),
    decreases s.len() - i, 5int,
{
    let m = scan_elements(s, i)->Ok_0;
    let p = j + m.out.len() + wsx.len();
    lemma_value_bounds(s, i);
    let vw = scan_value(s, i)->Ok_0;
    lemma_ws_end(s, vw.end);
    let we = ws_end(s, vw.end);
    let pd = s.subrange(vw.end, we);
    lemma_ws_subrange(s, vw.end, we);
    if s[we] == 0x5d {
        assert(m.out + wsx =~= vw.out + (pd + wsx));
        lemma_occurs_split(t, j, vw.out, pd + wsx);
        let b = j + vw.out.len();
        lemma_ws_run_add(pd, wsx);
        if pd.len() + wsx.len() > 0 {
            lemma_occurs_index(t, b, pd + wsx, 0);
        }
        lemma_value_reparse(s, i, t, j);
        lemma_ws_reparse(t, b, pd + wsx);
        assert(t.subrange(b, p) == pd + wsx);
        assert(vw.out + t.subrange(b, p) =~= m.out + wsx);
    } else if s[we] == 0x2c {
        lemma_ws_end(s, we + 1);
        let w2 = ws_end(s, we + 1);
        let pd2 = s.subrange(we + 1, w2);
        lemma_ws_subrange(s, we + 1, w2);
        if s[w2] == 0x5d {
            assert(m.out + wsx =~= vw.out + (pd + (pd2 + wsx)));
            lemma_occurs_split(t, j, vw.out, pd + (pd2 + wsx));
            let b = j + vw.out.len();
            lemma_ws_run_add(pd2, wsx);
            lemma_ws_run_add(pd, pd2 + wsx);
            if pd.len() + pd2.len() + wsx.len() > 0 {
                lemma_occurs_index(t, b, pd + (pd2 + wsx), 0);
            }
            lemma_value_reparse(s, i, t, j);
            lemma_ws_reparse(t, b, pd + (pd2 + wsx));
            assert(t.subrange(b, p) == pd + (pd2 + wsx));
            assert(vw.out + t.subrange(b, p) =~= m.out + wsx);
        } else {
            lemma_elements_bounds(s, w2);
            let rw = scan_elements(s, w2)->Ok_0;
            assert(m.out + wsx =~= vw.out + (pd + (seq![0x2cu8] + (pd2 + (rw.out + wsx)))));
            lemma_occurs_split(t, j, vw.out, pd + (seq![0x2cu8] + (pd2 + (rw.out + wsx))));
            let b = j + vw.out.len();
            lemma_occurs_split(t, b, pd, seq![0x2cu8] + (pd2 + (rw.out + wsx)));
            let b1 = b + pd.len();
            lemma_occurs_split(t, b1, seq![0x2cu8], pd2 + (rw.out + wsx));
            lemma_occurs_split(t, b1 + 1, pd2, rw.out + wsx);
            let b2 = b1 + 1 + pd2.len();
            lemma_occurs_index(t, b1, seq![0x2cu8], 0);
            if pd.len() > 0 {
                lemma_occurs_index(t, b, pd, 0);
            }
            lemma_value_reparse(s, i, t, j);
            lemma_ws_reparse(t, b, pd);
            lemma_occurs_index(t, b2, rw.out + wsx, 0);
            lemma_ws_reparse(t, b1 + 1, pd2);
            lemma_elements_reparse(s, w2, t, b2, wsx);
            assert(t.subrange(b, b1) == pd);
            assert(t.subrange(b1 + 1, b2) == pd2);
            assert(vw.out + pd + seq![0x2cu8] + pd2 + (rw.out + wsx) =~= m.out + wsx);
        }
    } else {
        lemma_elements_bounds(s, we);
        let rw = scan_elements(s, we)->Ok_0;
        assert(m.out + wsx =~= vw.out + (seq![0x2cu8] + (pd + (rw.out + wsx))));
        lemma_occurs_split(t, j, vw.out, seq![0x2cu8] + (pd + (rw.out + wsx)));
        let b = j + vw.out.len();
        lemma_occurs_split(t, b, seq![0x2cu8], pd + (rw.out + wsx));
        lemma_occurs_split(t, b + 1, pd, rw.out + wsx);
        let b2 = b + 1 + pd.len();
        lemma_occurs_index(t, b, seq![0x2cu8], 0);
        lemma_value_reparse(s, i, t, j);
        lemma_occurs_index(t, b2, rw.out + wsx, 0);
        lemma_ws_reparse(t, b + 1, pd);
        lemma_elements_reparse(s, we, t, b2, wsx);
        assert(t.subrange(b + 1, b2) == pd);
        assert(vw.out + t.subrange(b, b) + seq![0x2cu8] + pd + (rw.out + wsx) =~= m.out + wsx);
    }
}

// ---------------------------------------------------------------------------
// The laws, stated of whole documents
// ---------------------------------------------------------------------------

/// Valid-input identity: when a run succeeds without any repair, its
/// output is byte-identical to its input.
pub proof fn lemma_valid_identity(s: Seq<u8>)
    requires
        scan_json(s) is Ok,
        !scan_json(s)->Ok_0.rep,
    ensures
        scan_json(s)->Ok_0.out == s,
{
    lemma_element_shape(s, 0);
    assert(s.subrange(0, s.len() as int) =~= s);
}

/// Repair locality: input and output of any successful run are
/// byte-identical once every comma is dropped from both sides. So no
/// byte other than a comma is ever altered, reordered, or dropped; which
/// commas may move is read off the grammar model itself, where the only
/// comma edits are the trailing comma dropped before a closing bracket
/// and the comma inserted between two siblings.
pub proof fn lemma_comma_locality(s: Seq<u8>)
    requires
        scan_json(s) is Ok,
    ensures
        drop_commas(scan_json(s)->Ok_0.out) == drop_commas(s),
{
    lemma_element_shape(s, 0);
    assert(s.subrange(0, s.len() as int) =~= s);
}

/// Idempotence of repair: the output of any successful run, run again,
/// comes back untouched, with no repair: once corrected, always valid.
pub proof fn lemma_repair_idempotent(s: Seq<u8>)
    requires
        scan_json(s) is Ok,
    ensures
        scan_json(scan_json(s)->Ok_0.out) == Ok::<Walked, SyntaxError>(
            walked(
                scan_json(s)->Ok_0.out.len() as int,
                scan_json(s)->Ok_0.out,
                false,
            ),
        ),
{
    let w = scan_json(s)->Ok_0;
    let t = w.out;
    assert(w.out + Seq::<u8>::empty() =~= w.out);
    assert(t.subrange(0, t.len() as int) =~= t);
    lemma_element_reparse(s, 0, t, 0, Seq::empty());
    assert(scan_element(t, 0) == Ok::<Walked, SyntaxError>(
        walked(t.len() as int, w.out + Seq::<u8>::empty(), false),
    ));
    assert(walked(t.len() as int, w.out + Seq::<u8>::empty(), false) =~= walked(
        t.len() as int,
        t,
        false,
    ));
}

} // verus!
