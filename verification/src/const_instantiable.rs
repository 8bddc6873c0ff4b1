//! Rendering values as constant expressions of the target source text.
//!
//! Every type that can stand in an emitted table implements
//! [`ConstInstantiable`]: its value is printed as an expression that a
//! consumer compiles in constant context. Integers print in decimal,
//! strings print between quotes, and composite values print their
//! constituents recursively.

use vstd::prelude::*;

verus! {

/// The character of a single decimal digit.
pub open spec fn digit_char(d: nat) -> char {
    if d == 0 {
        '0'
    } else if d == 1 {
        '1'
    } else if d == 2 {
        '2'
    } else if d == 3 {
        '3'
    } else if d == 4 {
        '4'
    } else if d == 5 {
        '5'
    } else if d == 6 {
        '6'
    } else if d == 7 {
        '7'
    } else if d == 8 {
        '8'
    } else {
        '9'
    }
}

/// The decimal digits of `n`, most significant first.
pub open spec fn spec_dec_digits(n: nat) -> Seq<char>
    decreases n,
{
    if n < 10 {
        seq![digit_char(n)]
    } else {
        spec_dec_digits(n / 10).push(digit_char(n % 10))
    }
}

/// The single-character string of one decimal digit.
fn digit_str(d: u64) -> (r: &'static str)
    requires
        d < 10,
    ensures
        r@ == seq![digit_char(d as nat)],
{
    if d == 0 {
        let r = "0";
        proof {
            reveal_strlit("0");
            assert(r@ =~= seq![digit_char(0)]);
        }
        r
    } else if d == 1 {
        let r = "1";
        proof {
            reveal_strlit("1");
            assert(r@ =~= seq![digit_char(1)]);
        }
        r
    } else if d == 2 {
        let r = "2";
        proof {
            reveal_strlit("2");
            assert(r@ =~= seq![digit_char(2)]);
        }
        r
    } else if d == 3 {
        let r = "3";
        proof {
            reveal_strlit("3");
            assert(r@ =~= seq![digit_char(3)]);
        }
        r
    } else if d == 4 {
        let r = "4";
        proof {
            reveal_strlit("4");
            assert(r@ =~= seq![digit_char(4)]);
        }
        r
    } else if d == 5 {
        let r = "5";
        proof {
            reveal_strlit("5");
            assert(r@ =~= seq![digit_char(5)]);
        }
        r
    } else if d == 6 {
        let r = "6";
        proof {
            reveal_strlit("6");
            assert(r@ =~= seq![digit_char(6)]);
        }
        r
    } else if d == 7 {
        let r = "7";
        proof {
            reveal_strlit("7");
            assert(r@ =~= seq![digit_char(7)]);
        }
        r
    } else if d == 8 {
        let r = "8";
        proof {
            reveal_strlit("8");
            assert(r@ =~= seq![digit_char(8)]);
        }
        r
    } else {
        let r = "9";
        proof {
            reveal_strlit("9");
            assert(r@ =~= seq![digit_char(9)]);
        }
        r
    }
}

/// Render an unsigned 64-bit integer in decimal.
pub fn u64_to_decimal(n: u64) -> (r: String)
    ensures
        r@ == spec_dec_digits(n as nat),
    decreases n,
{
    if n < 10 {
        String::from_str(digit_str(n))
    } else {
        let mut s = u64_to_decimal(n / 10);
        s.append(digit_str(n % 10));
        s
    }
}

/// Render an unsigned 128-bit integer in decimal.
pub fn u128_to_decimal(n: u128) -> (r: String)
    ensures
        r@ == spec_dec_digits(n as nat),
    decreases n,
{
    if n < 10 {
        String::from_str(digit_str(n as u64))
    } else {
        let mut s = u128_to_decimal(n / 10);
        s.append(digit_str((n % 10) as u64));
        s
    }
}

/// A type whose values can be printed as constant expressions.
pub trait ConstInstantiable {
    /// The source text that instantiates this value in constant context.
    spec fn const_expr(&self) -> Seq<char>;

    /// Print a constant expression that instantiates this value.
    fn fmt_const_new(&self) -> (r: String)
        ensures
            r@ == self.const_expr(),
    ;
}

impl ConstInstantiable for () {
    open spec fn const_expr(&self) -> Seq<char> {
        "()"@
    }

    fn fmt_const_new(&self) -> (r: String)
        ensures
            r@ == self.const_expr(),
    {
        String::from_str("()")
    }
}

impl ConstInstantiable for u8 {
    open spec fn const_expr(&self) -> Seq<char> {
        spec_dec_digits(*self as nat)
    }

    fn fmt_const_new(&self) -> (r: String)
        ensures
            r@ == self.const_expr(),
    {
        u64_to_decimal(*self as u64)
    }
}

impl ConstInstantiable for u16 {
    open spec fn const_expr(&self) -> Seq<char> {
        spec_dec_digits(*self as nat)
    }

    fn fmt_const_new(&self) -> (r: String)
        ensures
            r@ == self.const_expr(),
    {
        u64_to_decimal(*self as u64)
    }
}

impl ConstInstantiable for u32 {
    open spec fn const_expr(&self) -> Seq<char> {
        spec_dec_digits(*self as nat)
    }

    fn fmt_const_new(&self) -> (r: String)
        ensures
            r@ == self.const_expr(),
    {
        u64_to_decimal(*self as u64)
    }
}

impl ConstInstantiable for u64 {
    open spec fn const_expr(&self) -> Seq<char> {
        spec_dec_digits(*self as nat)
    }

    fn fmt_const_new(&self) -> (r: String)
        ensures
            r@ == self.const_expr(),
    {
        u64_to_decimal(*self)
    }
}

impl ConstInstantiable for usize {
    open spec fn const_expr(&self) -> Seq<char> {
        spec_dec_digits(*self as nat)
    }

    fn fmt_const_new(&self) -> (r: String)
        ensures
            r@ == self.const_expr(),
    {
        u64_to_decimal(*self as u64)
    }
}

/// The decimal rendering of a 64-bit signed integer: a minus sign and the
/// magnitude's digits for negative values, the digits alone otherwise.
pub open spec fn spec_signed_decimal(x: int) -> Seq<char> {
    if x < 0 {
        "-"@ + spec_dec_digits((-x) as nat)
    } else {
        spec_dec_digits(x as nat)
    }
}

impl ConstInstantiable for i32 {
    open spec fn const_expr(&self) -> Seq<char> {
        spec_signed_decimal(*self as int)
    }

    fn fmt_const_new(&self) -> (r: String)
        ensures
            r@ == self.const_expr(),
    {
        if *self < 0 {
            let magnitude: u64 = if *self == i32::MIN {
                0x8000_0000u64
            } else {
                (-*self) as u64
            };
            let mut s = String::from_str("-");
            s.append(u64_to_decimal(magnitude).as_str());
            s
        } else {
            u64_to_decimal(*self as u64)
        }
    }
}

impl ConstInstantiable for i64 {
    open spec fn const_expr(&self) -> Seq<char> {
        spec_signed_decimal(*self as int)
    }

    fn fmt_const_new(&self) -> (r: String)
        ensures
            r@ == self.const_expr(),
    {
        if *self < 0 {
            let magnitude: u64 = if *self == i64::MIN {
                0x8000_0000_0000_0000u64
            } else {
                (-*self) as u64
            };
            let mut s = String::from_str("-");
            s.append(u64_to_decimal(magnitude).as_str());
            s
        } else {
            u64_to_decimal(*self as u64)
        }
    }
}

impl ConstInstantiable for u128 {
    open spec fn const_expr(&self) -> Seq<char> {
        spec_dec_digits(*self as nat)
    }

    fn fmt_const_new(&self) -> (r: String)
        ensures
            r@ == self.const_expr(),
    {
        u128_to_decimal(*self)
    }
}

impl ConstInstantiable for i8 {
    open spec fn const_expr(&self) -> Seq<char> {
        spec_signed_decimal(*self as int)
    }

    fn fmt_const_new(&self) -> (r: String)
        ensures
            r@ == self.const_expr(),
    {
        (*self as i64).fmt_const_new()
    }
}

impl ConstInstantiable for i16 {
    open spec fn const_expr(&self) -> Seq<char> {
        spec_signed_decimal(*self as int)
    }

    fn fmt_const_new(&self) -> (r: String)
        ensures
            r@ == self.const_expr(),
    {
        (*self as i64).fmt_const_new()
    }
}

impl ConstInstantiable for isize {
    open spec fn const_expr(&self) -> Seq<char> {
        spec_signed_decimal(*self as int)
    }

    fn fmt_const_new(&self) -> (r: String)
        ensures
            r@ == self.const_expr(),
    {
        (*self as i64).fmt_const_new()
    }
}

impl ConstInstantiable for i128 {
    open spec fn const_expr(&self) -> Seq<char> {
        spec_signed_decimal(*self as int)
    }

    fn fmt_const_new(&self) -> (r: String)
        ensures
            r@ == self.const_expr(),
    {
        if *self < 0 {
            let magnitude: u128 = if *self == i128::MIN {
                0x8000_0000_0000_0000_0000_0000_0000_0000u128
            } else {
                (-*self) as u128
            };
            let mut s = String::from_str("-");
            s.append(u128_to_decimal(magnitude).as_str());
            s
        } else {
            u128_to_decimal(*self as u128)
        }
    }
}

impl ConstInstantiable for bool {
    open spec fn const_expr(&self) -> Seq<char> {
        if *self {
            "true"@
        } else {
            "false"@
        }
    }

    fn fmt_const_new(&self) -> (r: String)
        ensures
            r@ == self.const_expr(),
    {
        if *self {
            String::from_str("true")
        } else {
            String::from_str("false")
        }
    }
}

/// The escaped form of one character inside a string literal: quotes,
/// backslashes and the common control characters take a backslash escape,
/// every other character stands for itself.
pub open spec fn spec_escaped_char(c: char) -> Seq<char> {
    if c == '"' {
        seq!['\\', '"']
    } else if c == '\\' {
        seq!['\\', '\\']
    } else if c == '\n' {
        seq!['\\', 'n']
    } else if c == '\r' {
        seq!['\\', 'r']
    } else if c == '\t' {
        seq!['\\', 't']
    } else if c == '\0' {
        seq!['\\', '0']
    } else {
        seq![c]
    }
}

/// The escaped form of a whole character sequence.
pub open spec fn spec_escaped(s: Seq<char>) -> Seq<char>
    decreases s.len(),
{
    if s.len() == 0 {
        Seq::empty()
    } else {
        spec_escaped_char(s[0]) + spec_escaped(s.drop_first())
    }
}

proof fn lemma_escaped_push(s: Seq<char>, c: char)
    ensures
        spec_escaped(s.push(c)) == spec_escaped(s) + spec_escaped_char(c),
    decreases s.len(),
{
    if s.len() == 0 {
        assert(s.push(c)[0] == c);
        assert(s.push(c).drop_first() =~= Seq::<char>::empty());
        assert(spec_escaped(s.push(c)) == spec_escaped_char(c) + spec_escaped(
            Seq::<char>::empty(),
        ));
        assert(spec_escaped_char(c) + Seq::<char>::empty() =~= spec_escaped_char(c));
        assert(spec_escaped(s) + spec_escaped_char(c) =~= spec_escaped_char(c));
    } else {
        assert(s.push(c)[0] == s[0]);
        assert(s.push(c).drop_first() =~= s.drop_first().push(c));
        lemma_escaped_push(s.drop_first(), c);
        assert(spec_escaped_char(s[0]) + (spec_escaped(s.drop_first()) + spec_escaped_char(c))
            =~= (spec_escaped_char(s[0]) + spec_escaped(s.drop_first())) + spec_escaped_char(c));
    }
}

/// Relies on str::chars: it yields exactly the characters of the string,
/// in order.
#[verifier::external_body]
fn str_chars(s: &str) -> (r: Vec<char>)
    ensures
        r@ == s@,
{
    s.chars().collect()
}

/// Relies on String::push: it appends one character to the string.
#[verifier::external_body]
fn push_char(s: &mut String, c: char)
    ensures
        final(s)@ == old(s)@.push(c),
{
    s.push(c);
}

/// Append the characters of `s` with string-literal escapes.
fn append_escaped(out: &mut String, s: &str)
    ensures
        final(out)@ == old(out)@ + spec_escaped(s@),
{
    let chars = str_chars(s);
    let n = chars.len();
    let mut i: usize = 0;
    while i < n
        invariant
            n == chars@.len(),
            chars@ == s@,
            i <= n,
            out@ == old(out)@ + spec_escaped(s@.take(i as int)),
        decreases n - i,
    {
        let c = chars[i];
        if c == '"' {
            out.append("\\\"");
            proof {
                reveal_strlit("\\\"");
                assert("\\\""@ =~= spec_escaped_char(c));
            }
        } else if c == '\\' {
            out.append("\\\\");
            proof {
                reveal_strlit("\\\\");
                assert("\\\\"@ =~= spec_escaped_char(c));
            }
        } else if c == '\n' {
            out.append("\\n");
            proof {
                reveal_strlit("\\n");
                assert("\\n"@ =~= spec_escaped_char(c));
            }
        } else if c == '\r' {
            out.append("\\r");
            proof {
                reveal_strlit("\\r");
                assert("\\r"@ =~= spec_escaped_char(c));
            }
        } else if c == '\t' {
            out.append("\\t");
            proof {
                reveal_strlit("\\t");
                assert("\\t"@ =~= spec_escaped_char(c));
            }
        } else if c == '\0' {
            out.append("\\0");
            proof {
                reveal_strlit("\\0");
                assert("\\0"@ =~= spec_escaped_char(c));
            }
        } else {
            push_char(out, c);
            proof {
                assert(seq![c] =~= spec_escaped_char(c));
                assert(out@ =~= old(out)@ + spec_escaped(s@.take(i as int))
                    + spec_escaped_char(c));
            }
        }
        proof {
            assert(s@.take(i + 1) =~= s@.take(i as int).push(s@[i as int]));
            lemma_escaped_push(s@.take(i as int), s@[i as int]);
            assert(out@ =~= old(out)@ + spec_escaped(s@.take(i + 1)));
        }
        i += 1;
    }
    proof {
        assert(s@.take(n as int) =~= s@);
    }
}

impl<'s> ConstInstantiable for &'s str {
    open spec fn const_expr(&self) -> Seq<char> {
        "\""@ + spec_escaped((*self)@) + "\""@
    }

    fn fmt_const_new(&self) -> (r: String)
        ensures
            r@ == self.const_expr(),
    {
        let mut s = String::from_str("\"");
        append_escaped(&mut s, *self);
        s.append("\"");
        s
    }
}

/// The escaped form of one character inside a character literal: the
/// apostrophe, the backslash and the common control characters take a
/// backslash escape, every other character stands for itself.
pub open spec fn spec_escaped_char_literal(c: char) -> Seq<char> {
    if c == '\'' {
        seq!['\\', '\'']
    } else if c == '\\' {
        seq!['\\', '\\']
    } else if c == '\n' {
        seq!['\\', 'n']
    } else if c == '\r' {
        seq!['\\', 'r']
    } else if c == '\t' {
        seq!['\\', 't']
    } else if c == '\0' {
        seq!['\\', '0']
    } else {
        seq![c]
    }
}

impl ConstInstantiable for char {
    open spec fn const_expr(&self) -> Seq<char> {
        "'"@ + spec_escaped_char_literal(*self) + "'"@
    }

    fn fmt_const_new(&self) -> (r: String)
        ensures
            r@ == self.const_expr(),
    {
        let mut s = String::from_str("'");
        let c = *self;
        if c == '\'' {
            s.append("\\'");
            proof {
                reveal_strlit("\\'");
                assert("\\'"@ =~= spec_escaped_char_literal(c));
            }
        } else if c == '\\' {
            s.append("\\\\");
            proof {
                reveal_strlit("\\\\");
                assert("\\\\"@ =~= spec_escaped_char_literal(c));
            }
        } else if c == '\n' {
            s.append("\\n");
            proof {
                reveal_strlit("\\n");
                assert("\\n"@ =~= spec_escaped_char_literal(c));
            }
        } else if c == '\r' {
            s.append("\\r");
            proof {
                reveal_strlit("\\r");
                assert("\\r"@ =~= spec_escaped_char_literal(c));
            }
        } else if c == '\t' {
            s.append("\\t");
            proof {
                reveal_strlit("\\t");
                assert("\\t"@ =~= spec_escaped_char_literal(c));
            }
        } else if c == '\0' {
            s.append("\\0");
            proof {
                reveal_strlit("\\0");
                assert("\\0"@ =~= spec_escaped_char_literal(c));
            }
        } else {
            push_char(&mut s, c);
            proof {
                assert(seq![c] =~= spec_escaped_char_literal(c));
            }
        }
        s.append("'");
        s
    }
}

impl<T1: ConstInstantiable, T2: ConstInstantiable> ConstInstantiable for (T1, T2) {
    open spec fn const_expr(&self) -> Seq<char> {
        "("@ + self.0.const_expr() + ", "@ + self.1.const_expr() + ")"@
    }

    fn fmt_const_new(&self) -> (r: String)
        ensures
            r@ == self.const_expr(),
    {
        let mut s = String::from_str("(");
        s.append(self.0.fmt_const_new().as_str());
        s.append(", ");
        s.append(self.1.fmt_const_new().as_str());
        s.append(")");
        s
    }
}

impl<T1: ConstInstantiable, T2: ConstInstantiable, T3: ConstInstantiable> ConstInstantiable for (
    T1,
    T2,
    T3,
) {
    open spec fn const_expr(&self) -> Seq<char> {
        "("@ + self.0.const_expr() + ", "@ + self.1.const_expr() + ", "@ + self.2.const_expr()
            + ")"@
    }

    fn fmt_const_new(&self) -> (r: String)
        ensures
            r@ == self.const_expr(),
    {
        let mut s = String::from_str("(");
        s.append(self.0.fmt_const_new().as_str());
        s.append(", ");
        s.append(self.1.fmt_const_new().as_str());
        s.append(", ");
        s.append(self.2.fmt_const_new().as_str());
        s.append(")");
        s
    }
}

impl<
    T1: ConstInstantiable,
    T2: ConstInstantiable,
    T3: ConstInstantiable,
    T4: ConstInstantiable,
> ConstInstantiable for (T1, T2, T3, T4) {
    open spec fn const_expr(&self) -> Seq<char> {
        "("@ + self.0.const_expr() + ", "@ + self.1.const_expr() + ", "@ + self.2.const_expr()
            + ", "@ + self.3.const_expr() + ")"@
    }

    fn fmt_const_new(&self) -> (r: String)
        ensures
            r@ == self.const_expr(),
    {
        let mut s = String::from_str("(");
        s.append(self.0.fmt_const_new().as_str());
        s.append(", ");
        s.append(self.1.fmt_const_new().as_str());
        s.append(", ");
        s.append(self.2.fmt_const_new().as_str());
        s.append(", ");
        s.append(self.3.fmt_const_new().as_str());
        s.append(")");
        s
    }
}

impl<T: ConstInstantiable> ConstInstantiable for Option<T> {
    open spec fn const_expr(&self) -> Seq<char> {
        match self {
            Some(x) => "Some("@ + x.const_expr() + ")"@,
            None => "None"@,
        }
    }

    fn fmt_const_new(&self) -> (r: String)
        ensures
            r@ == self.const_expr(),
    {
        match self {
            Some(x) => {
                let mut s = String::from_str("Some(");
                s.append(x.fmt_const_new().as_str());
                s.append(")");
                s
            },
            None => String::from_str("None"),
        }
    }
}

impl<T1: ConstInstantiable, T2: ConstInstantiable> ConstInstantiable for Result<T1, T2> {
    open spec fn const_expr(&self) -> Seq<char> {
        match self {
            Ok(x) => "Ok("@ + x.const_expr() + ")"@,
            Err(e) => "Err("@ + e.const_expr() + ")"@,
        }
    }

    fn fmt_const_new(&self) -> (r: String)
        ensures
            r@ == self.const_expr(),
    {
        match self {
            Ok(x) => {
                let mut s = String::from_str("Ok(");
                s.append(x.fmt_const_new().as_str());
                s.append(")");
                s
            },
            Err(e) => {
                let mut s = String::from_str("Err(");
                s.append(e.fmt_const_new().as_str());
                s.append(")");
                s
            },
        }
    }
}

} // verus!
