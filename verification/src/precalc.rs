use vstd::prelude::*;

verus! {

use crate::mint::Mint;
use vstd::arithmetic::div_mod::{lemma_mod_bound, lemma_mul_mod_noop_right, lemma_small_mod};
use vstd::arithmetic::power::{lemma1_pow, pow};

/// The residue of `n!` modulo `Mint::MODULUS`, reduced after every factor the
/// way the table is filled.
pub open spec fn fact_spec(n: nat) -> int
    decreases n,
{
    if n == 0 {
        1
    } else {
        (fact_spec((n - 1) as nat) * (n as int)) % (Mint::MODULUS as int)
    }
}

/// The inverse-factorial table entry for `i` in a table of bound `n`: the top
/// entry is `fact(n)` raised to `MODULUS - 2`, and each entry below is the one
/// above multiplied by `i + 1`.
pub open spec fn ifact_spec(i: nat, n: nat) -> int
    decreases n - i,
{
    if i >= n {
        pow(fact_spec(n), (Mint::MODULUS - 2) as nat) % (Mint::MODULUS as int)
    } else {
        (ifact_spec((i + 1) as nat, n) * ((i + 1) as int)) % (Mint::MODULUS as int)
    }
}

/// The inverse table entry for `i >= 1` in a table of bound `n`.
pub open spec fn inv_spec(i: nat, n: nat) -> int {
    (ifact_spec(i, n) * fact_spec((i - 1) as nat)) % (Mint::MODULUS as int)
}

/// What the inverse-factorial table actually stores: the entry for zero is
/// never rewritten after initialisation and stays one.
pub open spec fn ifact_entry(i: nat, n: nat) -> int {
    if i == 0 {
        1
    } else {
        ifact_spec(i, n)
    }
}

proof fn lemma_fact_spec_bound(n: nat)
    ensures
        0 <= fact_spec(n) < Mint::MODULUS as int,
{
    if n == 0 {
    } else {
        lemma_mod_bound(fact_spec((n - 1) as nat) * (n as int), Mint::MODULUS as int);
    }
}

proof fn lemma_ifact_spec_bound(i: nat, n: nat)
    ensures
        0 <= ifact_spec(i, n) < Mint::MODULUS as int,
{
    if i >= n {
        lemma_mod_bound(pow(fact_spec(n), (Mint::MODULUS - 2) as nat), Mint::MODULUS as int);
    } else {
        lemma_mod_bound(ifact_spec((i + 1) as nat, n) * ((i + 1) as int), Mint::MODULUS as int);
    }
}

/// Tables of factorials, inverse factorials and modular inverses for
/// `0 ..= bound`, filled once in linear time so that each lookup and each
/// binomial coefficient costs constant time.
pub struct Precalc {
    inv: Vec<Mint>,
    fact: Vec<Mint>,
    ifact: Vec<Mint>,
}

impl Precalc {
    /// The table bound: entries are stored for arguments `0 ..= bound()`.
    pub closed spec fn bound(self) -> nat {
        (self.fact@.len() - 1) as nat
    }

    /// Every table entry holds the value its defining recurrence gives it.
    pub closed spec fn wf(self) -> bool {
        &&& self.fact@.len() >= 1
        &&& self.inv@.len() == self.fact@.len()
        &&& self.ifact@.len() == self.fact@.len()
        &&& forall|i: int|
            0 <= i < self.fact@.len() ==> (#[trigger] self.fact@[i]).value == fact_spec(i as nat)
        &&& forall|i: int|
            0 <= i < self.fact@.len() ==> (#[trigger] self.ifact@[i]).value == ifact_entry(
                i as nat,
                self.bound(),
            )
        &&& forall|i: int|
            1 <= i < self.fact@.len() ==> (#[trigger] self.inv@[i]).value == inv_spec(
                i as nat,
                self.bound(),
            )
    }

    pub fn new(n: usize) -> (r: Precalc)
        requires
            n < Mint::MODULUS,
        ensures
            r.wf(),
            r.bound() == n,
    {
        let mut inv: Vec<Mint> = ones(n + 1);
        let mut fact: Vec<Mint> = ones(n + 1);
        let mut ifact: Vec<Mint> = ones(n + 1);

        proof {
            lemma_small_mod(1nat, Mint::MODULUS as nat);
            assert(fact_spec(0) == 1);
            assert(fact_spec(1) == 1);
            assert forall|j: int| 0 <= j < 2 implies #[trigger] fact_spec(j as nat) == 1 by {
                if j == 0 {
                    assert(fact_spec(j as nat) == fact_spec(0));
                } else {
                    assert(fact_spec(j as nat) == fact_spec(1));
                }
            }
        }
        let mut i: usize = 2;
        while i <= n
            invariant
                n < Mint::MODULUS,
                2 <= i,
                i <= n + 1 || i == 2,
                fact@.len() == n + 1,
                forall|j: int|
                    0 <= j < i && j <= n ==> (#[trigger] fact@[j]).value == fact_spec(j as nat),
            decreases n + 1 - i,
        {
            proof {
                lemma_fact_spec_bound((i - 1) as nat);
            }
            let f = fact[i - 1] * Mint::new(i as u32);
            proof {
                lemma_mul_mod_noop_right(
                    fact_spec((i - 1) as nat),
                    i as int,
                    Mint::MODULUS as int,
                );
            }
            fact[i] = f;
            i += 1;
        }

        proof {
            lemma_fact_spec_bound(n as nat);
        }
        let top = fact[n].pow(Mint::MODULUS - 2);
        ifact[n] = top;
        proof {
            if n == 0 {
                lemma1_pow((Mint::MODULUS - 2) as nat);
                lemma_small_mod(1nat, Mint::MODULUS as nat);
            }
        }

        if n > 0 {
            proof {
                lemma_ifact_spec_bound(n as nat, n as nat);
                lemma_fact_spec_bound((n - 1) as nat);
            }
            inv[n] = ifact[n] * fact[n - 1];
        }

        let mut i: usize = n;
        while i > 1
            invariant
                n < Mint::MODULUS,
                i <= n || (i == 1 && n == 0),
                fact@.len() == n + 1,
                inv@.len() == n + 1,
                ifact@.len() == n + 1,
                forall|j: int| 0 <= j < n + 1 ==> (#[trigger] fact@[j]).value == fact_spec(j as nat),
                forall|j: int|
                    i <= j < n + 1 ==> (#[trigger] ifact@[j]).value == ifact_entry(
                        j as nat,
                        n as nat,
                    ),
                forall|j: int| 0 <= j < i ==> (#[trigger] ifact@[j]).value == 1,
                forall|j: int|
                    i <= j < n + 1 && j >= 1 ==> (#[trigger] inv@[j]).value == inv_spec(
                        j as nat,
                        n as nat,
                    ),
            decreases i,
        {
            i -= 1;
            proof {
                lemma_ifact_spec_bound((i + 1) as nat, n as nat);
                lemma_fact_spec_bound((i - 1) as nat);
            }
            let f = ifact[i + 1] * Mint::new((i + 1) as u32);
            proof {
                lemma_mul_mod_noop_right(
                    ifact_spec((i + 1) as nat, n as nat),
                    (i + 1) as int,
                    Mint::MODULUS as int,
                );
            }
            ifact[i] = f;
            proof {
                lemma_ifact_spec_bound(i as nat, n as nat);
            }
            inv[i] = ifact[i] * fact[i - 1];
        }

        Precalc { inv, fact, ifact }
    }

    /// The modular inverse of `n`, read from the table.
    pub fn inv(&self, n: usize) -> (r: Mint)
        requires
            self.wf(),
            1 <= n <= self.bound(),
        ensures
            r.value == inv_spec(n as nat, self.bound()),
    {
        self.inv[n]
    }

    /// The residue of `n!`, read from the table.
    pub fn fact(&self, n: usize) -> (r: Mint)
        requires
            self.wf(),
            n <= self.bound(),
        ensures
            r.value == fact_spec(n as nat),
    {
        self.fact[n]
    }

    /// The inverse factorial of `n`, read from the table.
    pub fn ifact(&self, n: usize) -> (r: Mint)
        requires
            self.wf(),
            n <= self.bound(),
        ensures
            r.value == ifact_entry(n as nat, self.bound()),
    {
        self.ifact[n]
    }

    /// The binomial coefficient `C(n, k)` modulo `Mint::MODULUS`, computed as
    /// `fact(n) * ifact(k) * ifact(n - k)`; zero when `k > n`.
    pub fn comb(&self, n: usize, k: usize) -> (r: Mint)
        requires
            self.wf(),
            n <= self.bound(),
        ensures
            k > n ==> r.value == 0,
            k <= n ==> r.value == ((fact_spec(n as nat) * ifact_entry(k as nat, self.bound())) % (
            Mint::MODULUS as int) * ifact_entry((n - k) as nat, self.bound())) % (
            Mint::MODULUS as int),
    {
        if k > n {
            return Mint::new(0);
        }
        proof {
            lemma_fact_spec_bound(n as nat);
            lemma_ifact_spec_bound(k as nat, self.bound());
            lemma_ifact_spec_bound((n - k) as nat, self.bound());
            lemma_mod_bound(
                fact_spec(n as nat) * ifact_entry(k as nat, self.bound()),
                Mint::MODULUS as int,
            );
        }
        self.fact[n] * self.ifact[k] * self.ifact[n - k]
    }
}

/// A table of the given length, every entry one.
fn ones(len: usize) -> (r: Vec<Mint>)
    ensures
        r@.len() == len,
        forall|j: int| 0 <= j < len ==> (#[trigger] r@[j]).value == 1,
{
    let mut v: Vec<Mint> = Vec::new();
    let mut i: usize = 0;
    while i < len
        invariant
            i <= len,
            v@.len() == i,
            forall|j: int| 0 <= j < i ==> (#[trigger] v@[j]).value == 1,
        decreases len - i,
    {
        v.push(Mint::new(1));
        i += 1;
    }
    v
}

} // verus!
