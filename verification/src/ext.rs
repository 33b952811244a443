use vstd::prelude::*;

verus! {

/// Relies on String::push: appends exactly the given character.
#[verifier::external_body]
pub fn push_char(s: &mut String, c: char)
    ensures
        final(s)@ == old(s)@.push(c),
{
    s.push(c);
}

pub open spec fn digit_char(d: nat) -> char
    recommends
        d < 10,
{
    ((48 + d) as char)
}

/// The decimal digit string of a number, most significant digit first.
pub open spec fn dec_str(n: nat) -> Seq<char>
    decreases n,
{
    if n < 10 {
        seq![digit_char(n)]
    } else {
        dec_str(n / 10) + seq![digit_char(n % 10)]
    }
}

/// A digit string holds at least one character, and at least two from ten up.
pub proof fn lemma_dec_str_len(n: nat)
    ensures
        dec_str(n).len() >= 1,
        n >= 10 ==> dec_str(n).len() >= 2,
    decreases n,
{
    if n >= 10 {
        lemma_dec_str_len(n / 10);
    }
}

/// Distinct numbers have distinct digit strings.
pub proof fn lemma_dec_str_injective(a: nat, b: nat)
    requires
        dec_str(a) == dec_str(b),
    ensures
        a == b,
    decreases a,
{
    lemma_dec_str_len(a);
    lemma_dec_str_len(b);
    if a < 10 && b < 10 {
        assert(dec_str(a)[0] == digit_char(a) && dec_str(b)[0] == digit_char(b));
        assert((digit_char(a) as u32) == 48 + a && (digit_char(b) as u32) == 48 + b);
    } else if a < 10 {
        assert(dec_str(a).len() == 1 && dec_str(b).len() >= 2);
    } else if b < 10 {
        assert(dec_str(a).len() >= 2 && dec_str(b).len() == 1);
    } else {
        let la = dec_str(a).len() as int;
        assert(dec_str(a).last() == digit_char(a % 10) && dec_str(b).last() == digit_char(b % 10));
        assert((digit_char(a % 10) as u32) == 48 + a % 10 && (digit_char(b % 10) as u32) == 48 + b
            % 10);
        assert(a % 10 == b % 10);
        assert(dec_str(a).take(la - 1) =~= dec_str(a / 10));
        assert(dec_str(b).take(la - 1) =~= dec_str(b / 10));
        lemma_dec_str_injective(a / 10, b / 10);
        assert(a == 10 * (a / 10) + a % 10 && b == 10 * (b / 10) + b % 10) by (nonlinear_arith);
    }
}

/// Relies on u64's Display implementation: the decimal digits of the value.
#[verifier::external_body]
pub fn u64_to_string(n: u64) -> (r: String)
    ensures
        r@ == dec_str(n as nat),
{
    n.to_string()
}

} // verus!
