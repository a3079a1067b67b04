//! Argument-validation helpers offered to command executors: checking the
//! argument count, reading booleans and integers, and picking an optional
//! positional argument.  Every error carries a descriptive message naming
//! what was received.

use vstd::prelude::*;

verus! {

/// True iff `c` is a decimal digit.
pub open spec fn is_digit(c: char) -> bool {
    48 <= (c as u32) <= 57
}

/// The numeric value of a decimal digit.
pub open spec fn digit_val(c: char) -> nat {
    ((c as u32) - 48) as nat
}

/// The decimal digit character for `n < 10`.
pub open spec fn digit_char(n: nat) -> char {
    if n == 0 {
        '0'
    } else if n == 1 {
        '1'
    } else if n == 2 {
        '2'
    } else if n == 3 {
        '3'
    } else if n == 4 {
        '4'
    } else if n == 5 {
        '5'
    } else if n == 6 {
        '6'
    } else if n == 7 {
        '7'
    } else if n == 8 {
        '8'
    } else {
        '9'
    }
}

/// True iff `s` is one or more decimal digits.
pub open spec fn all_digits(s: Seq<char>) -> bool {
    forall|i: int| 0 <= i < s.len() ==> is_digit(#[trigger] s[i])
}

/// The digits of an integer literal: an optional leading `+` sign is not
/// part of the digits.
pub open spec fn int_digits(s: Seq<char>) -> Seq<char> {
    if s.len() > 0 && s[0] == '+' {
        s.drop_first()
    } else {
        s
    }
}

/// True iff `s` is a well-formed unsigned integer literal.
pub open spec fn is_int_literal(s: Seq<char>) -> bool {
    int_digits(s).len() > 0 && all_digits(int_digits(s))
}

/// The value of a digit string, most significant digit first.
pub open spec fn dec_val(s: Seq<char>) -> nat
    decreases s.len(),
{
    if s.len() == 0 {
        0
    } else {
        dec_val(s.drop_last()) * 10 + digit_val(s.last())
    }
}

/// The decimal rendering of `n`, most significant digit first.
pub open spec fn dec_str(n: nat) -> Seq<char>
    decreases n,
{
    if n < 10 {
        seq![digit_char(n)]
    } else {
        dec_str(n / 10) + seq![digit_char(n % 10)]
    }
}

/// A digit string is worth at least its own prefix: appending digits can
/// only grow the value.
proof fn lemma_dec_val_prefix(s: Seq<char>, j: int)
    requires
        0 <= j <= s.len(),
    ensures
        dec_val(s) >= dec_val(s.subrange(0, j)),
    decreases s.len() - j,
{
    if j < s.len() {
        lemma_dec_val_prefix(s, j + 1);
        assert(s.subrange(0, j + 1).drop_last() =~= s.subrange(0, j));
        assert(s.subrange(0, j + 1).last() == s[j]);
        assert(dec_val(s.subrange(0, j + 1)) == dec_val(s.subrange(0, j)) * 10 + digit_val(
            s[j],
        ));
    } else {
        assert(s.subrange(0, j) =~= s);
    }
}

/// Parse an unsigned integer, or describe the text that was not one.
pub fn parse_int(intstr: &str) -> (r: Result<usize, String>)
    ensures
        is_int_literal(intstr@) && dec_val(int_digits(intstr@)) <= usize::MAX ==> r
            == Ok::<usize, String>(dec_val(int_digits(intstr@)) as usize),
        !(is_int_literal(intstr@) && dec_val(int_digits(intstr@)) <= usize::MAX) ==> (r
            matches Err(m) && m@ == "Expected integer, got '"@ + intstr@ + "'"@),
{
    let len = intstr.unicode_len();
    let start: usize = if len > 0 && intstr.get_char(0) == '+' {
        1
    } else {
        0
    };
    let ghost digits = int_digits(intstr@);
    proof {
        assert(digits =~= intstr@.subrange(start as int, len as int));
    }
    if len == start {
        return Err(int_error(intstr));
    }
    let mut acc: usize = 0;
    let mut i: usize = start;
    proof {
        assert(digits.subrange(0, 0) =~= Seq::<char>::empty());
    }
    while i < len
        invariant
            start <= i <= len,
            len as nat == intstr@.len(),
            digits == int_digits(intstr@),
            digits =~= intstr@.subrange(start as int, len as int),
            acc == dec_val(digits.subrange(0, i - start)),
            all_digits(digits.subrange(0, i - start)),
        decreases len - i,
    {
        let c = intstr.get_char(i);
        let code = c as u32;
        if code < 48 || code > 57 {
            proof {
                assert(digits[i - start] == intstr@[i as int]);
            }
            return Err(int_error(intstr));
        }
        let d = (code - 48) as usize;
        let ghost seen = digits.subrange(0, i - start);
        let ghost seen1 = digits.subrange(0, i + 1 - start);
        proof {
            assert(seen1.drop_last() =~= seen);
            assert(seen1.last() == intstr@[i as int]);
            assert(dec_val(seen1) == dec_val(seen) * 10 + digit_val(intstr@[i as int]));
        }
        if acc > (usize::MAX - d) / 10 {
            // The value no longer fits: every longer digit string is
            // worth at least this much.
            proof {
                assert(acc * 10 + d > usize::MAX) by (nonlinear_arith)
                    requires
                        acc > (usize::MAX - d) / 10,
                        d <= 9,
                ;
                lemma_dec_val_prefix(digits, i + 1 - start);
                assert(dec_val(digits) > usize::MAX);
            }
            return Err(int_error(intstr));
        }
        proof {
            assert(acc * 10 + d <= usize::MAX) by (nonlinear_arith)
                requires
                    acc <= (usize::MAX - d) / 10,
                    d <= 9,
            ;
        }
        acc = acc * 10 + d;
        i += 1;
    }
    proof {
        assert(digits.subrange(0, len - start) =~= digits);
    }
    Ok(acc)
}

/// The error text for a rejected integer argument.
fn int_error(intstr: &str) -> (r: String)
    ensures
        r@ == "Expected integer, got '"@ + intstr@ + "'"@,
{
    let mut m = String::from_str("Expected integer, got '");
    m.append(intstr);
    m.append("'");
    m
}

/// Parse a boolean written `on`, `true` or `1` (or `off`, `false` or
/// `0`), or describe the text that was neither.
pub fn parse_bool(boolstr: &str) -> (r: Result<bool, String>)
    ensures
        boolstr@ == "on"@ || boolstr@ == "true"@ || boolstr@ == "1"@ ==> (r matches Ok(b)
            && b == true),
        boolstr@ == "off"@ || boolstr@ == "false"@ || boolstr@ == "0"@ ==> (r matches Ok(b)
            && b == false),
        !(boolstr@ == "on"@ || boolstr@ == "true"@ || boolstr@ == "1"@ || boolstr@ == "off"@
            || boolstr@ == "false"@ || boolstr@ == "0"@) ==> (r matches Err(m) && m@
            == "Expected boolean, got '"@ + boolstr@ + "'"@),
{
    proof {
        reveal_strlit("on");
        reveal_strlit("true");
        reveal_strlit("1");
        reveal_strlit("off");
        reveal_strlit("false");
        reveal_strlit("0");
        assert("on"@.len() == 2 && "true"@.len() == 4 && "1"@.len() == 1);
        assert("off"@.len() == 3 && "false"@.len() == 5 && "0"@.len() == 1);
        assert("1"@[0] == '1' && "0"@[0] == '0');
    }
    if crate::strutil::str_eq(boolstr, "on") || crate::strutil::str_eq(boolstr, "true")
        || crate::strutil::str_eq(boolstr, "1") {
        Ok(true)
    } else if crate::strutil::str_eq(boolstr, "off") || crate::strutil::str_eq(boolstr, "false")
        || crate::strutil::str_eq(boolstr, "0") {
        Ok(false)
    } else {
        let mut m = String::from_str("Expected boolean, got '");
        m.append(boolstr);
        m.append("'");
        Err(m)
    }
}

/// The positional argument at `pos`, if that many were given.
pub fn opt_part<'a>(args: &'a Vec<String>, pos: usize) -> (r: Option<&'a str>)
    ensures
        pos < args@.len() ==> (r matches Some(s) && s@ == args@[pos as int]@),
        pos >= args@.len() ==> r is None,
{
    if args.len() > pos {
        Some(args[pos].as_str())
    } else {
        None
    }
}

/// Render `n` in decimal.
pub fn usize_to_string(n: usize) -> (r: String)
    ensures
        r@ == dec_str(n as nat),
    decreases n,
{
    if n < 10 {
        let r = digit_to_string(n);
        r
    } else {
        let mut r = usize_to_string(n / 10);
        let d = digit_to_string(n % 10);
        r.append(d.as_str());
        r
    }
}

/// The one-character string for a digit.
fn digit_to_string(n: usize) -> (r: String)
    requires
        n < 10,
    ensures
        r@ =~= seq![digit_char(n as nat)],
{
    let r = if n == 0 {
        String::from_str("0")
    } else if n == 1 {
        String::from_str("1")
    } else if n == 2 {
        String::from_str("2")
    } else if n == 3 {
        String::from_str("3")
    } else if n == 4 {
        String::from_str("4")
    } else if n == 5 {
        String::from_str("5")
    } else if n == 6 {
        String::from_str("6")
    } else if n == 7 {
        String::from_str("7")
    } else if n == 8 {
        String::from_str("8")
    } else {
        String::from_str("9")
    };
    proof {
        reveal_strlit("0");
        reveal_strlit("1");
        reveal_strlit("2");
        reveal_strlit("3");
        reveal_strlit("4");
        reveal_strlit("5");
        reveal_strlit("6");
        reveal_strlit("7");
        reveal_strlit("8");
        reveal_strlit("9");
    }
    r
}

/// Check that at least `n` arguments were given, or say how many were
/// expected.
pub fn expects_num_arguments(args: &Vec<String>, n: usize) -> (r: Result<(), String>)
    ensures
        args@.len() >= n ==> r == Ok::<(), String>(()),
        args@.len() < n ==> (r matches Err(m) && m@ == "Expected "@ + dec_str(n as nat)
            + " arguments"@),
{
    if args.len() < n {
        let mut m = String::from_str("Expected ");
        let num = usize_to_string(n);
        m.append(num.as_str());
        m.append(" arguments");
        Err(m)
    } else {
        Ok(())
    }
}

} // verus!
