use vstd::prelude::*;

verus! {

use vstd::arithmetic::div_mod::{
    lemma_fundamental_div_mod_converse, lemma_mul_mod_noop_general, lemma_mul_mod_noop_right,
    lemma_small_mod,
};
use vstd::arithmetic::mul::lemma_mul_is_associative;
use vstd::arithmetic::power::{
    lemma_pow0, lemma_pow1, lemma_pow_adds, lemma_pow_mod_noop, lemma_pow_multiplies, pow,
};
use vstd::string::StringExecFns;

/// A residue modulo the fixed prime `Mint::MODULUS`, stored reduced to
/// `[0, MODULUS)`.
#[derive(Clone, Copy, Debug)]
pub struct Mint {
    pub value: u32,
}

impl Mint {
    // to change modulus, rewrite this value
    // (modulus should be a prime number)
    pub const MODULUS: u32 = 1_000_000_007;

    /// The stored value is a reduced residue.
    pub open spec fn wf(self) -> bool {
        self.value < Mint::MODULUS
    }

    pub fn new(n: u32) -> (r: Mint)
        ensures
            r.value == n % Mint::MODULUS,
            r.wf(),
    {
        Mint { value: n % Mint::MODULUS }
    }

    pub fn value(&self) -> (r: u32)
        ensures
            r == self.value,
    {
        self.value
    }

    /// Binary exponentiation: the residue of `self.value` raised to `n`.
    pub fn pow(self, n: u32) -> (r: Mint)
        requires
            self.wf(),
        ensures
            r.wf(),
            r.value == pow(self.value as int, n as nat) % (Mint::MODULUS as int),
    {
        let ghost b0: int = self.value as int;
        let ghost e0: nat = n as nat;
        let mut t = Mint::new(1);
        let mut s = self;
        let mut n = n;
        proof {
            assert(t.value == 1);
            assert((1int * pow(b0, e0)) == pow(b0, e0));
        }
        while n > 0
            invariant
                t.wf(),
                s.wf(),
                ((t.value as int) * pow(s.value as int, n as nat)) % (Mint::MODULUS as int) == pow(
                    b0,
                    e0,
                ) % (Mint::MODULUS as int),
            decreases n,
        {
            let ghost t_old: int = t.value as int;
            let ghost s_old: int = s.value as int;
            let ghost n_old: u32 = n;
            proof {
                assert(n_old & 1 == n_old % 2) by (bit_vector);
                assert(n_old >> 1 == n_old / 2) by (bit_vector);
            }
            if n & 1 == 1 {
                t = t * s;
            }
            s = s * s;
            n = n >> 1;
            proof {
                let m = Mint::MODULUS as int;
                let k = n as nat;
                if n_old % 2 == 1 {
                    assert(n_old as nat == 2 * k + 1);
                    lemma_pow_step_odd(t_old, s_old, k, m);
                } else {
                    assert(n_old as nat == 2 * k);
                    lemma_pow_step_even(t_old, s_old, k, m);
                }
            }
        }
        proof {
            assert(pow(s.value as int, 0) == 1) by {
                lemma_pow0(s.value as int);
            }
            lemma_small_mod(t.value as nat, Mint::MODULUS as nat);
        }
        t
    }

    /// The reduced residue written in decimal, as `Display` would print it.
    pub fn to_string(&self) -> (s: String)
        ensures
            s@ == dec_digits(self.value as nat),
    {
        let mut s = String::new();
        push_dec(self.value, &mut s);
        s
    }

    /// The modular inverse by Fermat's little theorem, computed as
    /// `self.pow(MODULUS - 2)`.
    pub fn inv(self) -> (r: Mint)
        requires
            self.wf(),
            self.value > 0,
        ensures
            r.wf(),
            r.value == pow(self.value as int, (Mint::MODULUS - 2) as nat) % (Mint::MODULUS as int),
    {
        self.pow(Mint::MODULUS - 2)
    }
}

/// The character for a single decimal digit.
pub open spec fn digit_char(d: nat) -> char {
    if d == 0 {
        '0'
    } else if d == 1 {
        '1'
    } else if d == 2 {
        '2'
    } else if d == 3 {
        '3'
    } else if d == 4 {
        '4'
    } else if d == 5 {
        '5'
    } else if d == 6 {
        '6'
    } else if d == 7 {
        '7'
    } else if d == 8 {
        '8'
    } else {
        '9'
    }
}

/// The decimal digits of `n`, most significant first, with no leading zeros
/// except for `n == 0` itself.
pub open spec fn dec_digits(n: nat) -> Seq<char>
    decreases n,
{
    if n < 10 {
        seq![digit_char(n)]
    } else {
        dec_digits(n / 10).push(digit_char(n % 10))
    }
}

/// The one-character string for a single decimal digit.
fn digit_str(d: u32) -> (r: &'static str)
    requires
        d < 10,
    ensures
        r@ == seq![digit_char(d as nat)],
{
    proof {
        reveal_strlit("0");
        reveal_strlit("1");
        reveal_strlit("2");
        reveal_strlit("3");
        reveal_strlit("4");
        reveal_strlit("5");
        reveal_strlit("6");
        reveal_strlit("7");
        reveal_strlit("8");
        reveal_strlit("9");
    }
    match d {
        0 => "0",
        1 => "1",
        2 => "2",
        3 => "3",
        4 => "4",
        5 => "5",
        6 => "6",
        7 => "7",
        8 => "8",
        _ => "9",
    }
}

/// Appends the decimal digits of `n` to `s`, most significant first.
fn push_dec(n: u32, s: &mut String)
    ensures
        final(s)@ == old(s)@ + dec_digits(n as nat),
    decreases n,
{
    let ghost pre: Seq<char> = s@;
    if n >= 10 {
        push_dec(n / 10, s);
    }
    let d = digit_str(n % 10);
    s.append(d);
    proof {
        if n < 10 {
            assert(s@ =~= pre + dec_digits(n as nat));
        } else {
            assert(s@ =~= pre + dec_digits(n as nat));
        }
    }
}

/// Squaring the base under a modulus halves the exponent: folding one factor
/// of the accumulator in keeps the running product congruent.
proof fn lemma_pow_square_mod(s: int, k: nat, m: int)
    requires
        m > 0,
    ensures
        pow((s * s) % m, k) % m == pow(s, 2 * k) % m,
{
    lemma_pow_mod_noop(s * s, k, m);
    lemma_pow_multiplies(s, 2, k);
    assert(pow(s, 2) == s * s) by {
        lemma_pow_adds(s, 1, 1);
        lemma_pow1(s);
    }
}

proof fn lemma_pow_step_odd(t: int, s: int, k: nat, m: int)
    requires
        m > 0,
    ensures
        (((t * s) % m) * pow((s * s) % m, k)) % m == (t * pow(s, 2 * k + 1)) % m,
{
    let p = pow((s * s) % m, k);
    let q = pow(s, 2 * k);
    lemma_pow_square_mod(s, k, m);
    lemma_mul_mod_noop_general(t * s, p, m);
    assert(((t * s) * p) % m == ((t * s) * q) % m) by {
        lemma_mul_mod_noop_right(t * s, p, m);
        lemma_mul_mod_noop_right(t * s, q, m);
    }
    lemma_mul_is_associative(t, s, q);
    lemma_pow_adds(s, 2 * k, 1);
    lemma_pow1(s);
    assert(pow(s, 2 * k + 1) == pow(s, 2 * k) * pow(s, 1));
    assert(pow(s, 2 * k + 1) == q * s);
    assert(q * s == s * q);
    assert(pow(s, 2 * k + 1) == s * q);
}

proof fn lemma_pow_step_even(t: int, s: int, k: nat, m: int)
    requires
        m > 0,
    ensures
        (t * pow((s * s) % m, k)) % m == (t * pow(s, 2 * k)) % m,
{
    let p = pow((s * s) % m, k);
    let q = pow(s, 2 * k);
    lemma_pow_square_mod(s, k, m);
    lemma_mul_mod_noop_right(t, p, m);
    lemma_mul_mod_noop_right(t, q, m);
}

impl core::ops::Add for Mint {
    type Output = Mint;

    fn add(self, rhs: Mint) -> Mint {
        let mut d = self.value + rhs.value;
        if d >= Mint::MODULUS {
            d -= Mint::MODULUS;
            proof {
                lemma_fundamental_div_mod_converse(
                    (self.value + rhs.value) as int,
                    Mint::MODULUS as int,
                    1,
                    d as int,
                );
            }
        }
        Mint { value: d }
    }
}

impl vstd::std_specs::ops::AddSpecImpl for Mint {
    open spec fn obeys_add_spec() -> bool {
        true
    }

    open spec fn add_req(self, rhs: Mint) -> bool {
        self.wf() && rhs.wf()
    }

    open spec fn add_spec(self, rhs: Mint) -> Mint {
        Mint { value: (((self.value + rhs.value) as int % (Mint::MODULUS as int)) as u32) }
    }
}

impl core::ops::Sub for Mint {
    type Output = Mint;

    fn sub(self, rhs: Mint) -> Mint {
        let mut d = self.value + Mint::MODULUS - rhs.value;
        if d >= Mint::MODULUS {
            d -= Mint::MODULUS;
            proof {
                lemma_fundamental_div_mod_converse(
                    (self.value + Mint::MODULUS - rhs.value) as int,
                    Mint::MODULUS as int,
                    1,
                    d as int,
                );
            }
        }
        Mint { value: d }
    }
}

impl vstd::std_specs::ops::SubSpecImpl for Mint {
    open spec fn obeys_sub_spec() -> bool {
        true
    }

    open spec fn sub_req(self, rhs: Mint) -> bool {
        self.wf() && rhs.wf()
    }

    open spec fn sub_spec(self, rhs: Mint) -> Mint {
        Mint {
            value: (((self.value + Mint::MODULUS - rhs.value) as int % (
            Mint::MODULUS as int)) as u32),
        }
    }
}

impl core::ops::Mul for Mint {
    type Output = Mint;

    fn mul(self, rhs: Mint) -> Mint {
        proof {
            assert((self.value as int) * (rhs.value as int) < 0x4000000000000000) by (nonlinear_arith)
                requires
                    self.value < 1000000007,
                    rhs.value < 1000000007,
            ;
        }
        let d = self.value as u64 * rhs.value as u64 % Mint::MODULUS as u64;
        Mint { value: d as u32 }
    }
}

impl vstd::std_specs::ops::MulSpecImpl for Mint {
    open spec fn obeys_mul_spec() -> bool {
        true
    }

    open spec fn mul_req(self, rhs: Mint) -> bool {
        self.wf() && rhs.wf()
    }

    open spec fn mul_spec(self, rhs: Mint) -> Mint {
        Mint { value: (((self.value * rhs.value) as int % (Mint::MODULUS as int)) as u32) }
    }
}

impl core::ops::Neg for Mint {
    type Output = Mint;

    fn neg(self) -> Mint {
        let d = match self.value {
            0 => 0,
            _ => Mint::MODULUS - self.value,
        };
        Mint { value: d }
    }
}

impl vstd::std_specs::ops::NegSpecImpl for Mint {
    open spec fn obeys_neg_spec() -> bool {
        true
    }

    open spec fn neg_req(self) -> bool {
        self.wf()
    }

    open spec fn neg_spec(self) -> Mint {
        Mint { value: (if self.value == 0 { 0u32 } else { (Mint::MODULUS - self.value) as u32 }) }
    }
}

impl PartialEq<Mint> for Mint {
    fn eq(&self, other: &Mint) -> bool {
        self.value == other.value
    }
}

impl vstd::std_specs::cmp::PartialEqSpecImpl<Mint> for Mint {
    open spec fn obeys_eq_spec() -> bool {
        true
    }

    open spec fn eq_spec(&self, other: &Mint) -> bool {
        self.value == other.value
    }
}

impl PartialEq<u32> for Mint {
    fn eq(&self, other: &u32) -> bool {
        self.value == *other
    }
}

impl vstd::std_specs::cmp::PartialEqSpecImpl<u32> for Mint {
    open spec fn obeys_eq_spec() -> bool {
        true
    }

    open spec fn eq_spec(&self, other: &u32) -> bool {
        self.value == *other
    }
}

impl From<usize> for Mint {
    fn from(val: usize) -> Mint {
        let d = (val % Mint::MODULUS as usize) as u32;
        Mint { value: d }
    }
}

impl vstd::std_specs::convert::FromSpecImpl<usize> for Mint {
    open spec fn obeys_from_spec() -> bool {
        true
    }

    open spec fn from_spec(val: usize) -> Mint {
        Mint { value: ((val as int % (Mint::MODULUS as int)) as u32) }
    }
}

} // verus!
