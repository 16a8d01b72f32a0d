use rand::seq::SliceRandom;
use rand::Rng;
use rand_chacha::ChaCha8Rng;
use vstd::prelude::*;

verus! {

/// The seeded generator that drives every random choice of the simulation.
#[verifier::external_type_specification]
#[verifier::external_body]
pub struct ExChaCha8Rng(ChaCha8Rng);

/// Relies on rand::Rng::gen_range (rand 0.7): a value drawn from `low..high`;
/// it panics when that range is empty, so `n` must be positive.
#[verifier::external_body]
pub(crate) fn random_index(rng: &mut ChaCha8Rng, n: usize) -> (r: usize)
    requires
        n > 0,
    ensures
        r < n,
{
    rng.gen_range(0, n)
}

/// Relies on rand::seq::SliceRandom::shuffle: it only swaps items, so the
/// result is a permutation of the input.
#[verifier::external_body]
fn shuffle<T>(v: &mut Vec<T>, rng: &mut ChaCha8Rng)
    ensures
        final(v)@.to_multiset() == old(v)@.to_multiset(),
{
    v.shuffle(rng)
}

/// `n` items: `num_a` copies of `a`, then `num_b` copies of `b`, then
/// `default` for the rest.
pub open spec fn arranged<T>(n: nat, a: T, num_a: nat, b: T, num_b: nat, default: T) -> Seq<T> {
    Seq::new(n, |i: int| if i < num_a { a } else if i < num_a + num_b { b } else { default })
}

/// A vector of `n` items holding `num_a` copies of `val_a`, then `num_b`
/// copies of `val_b`, the rest `val_default`, shuffled.
pub fn random_vec<T: Copy>(
    n: usize,
    val_a: T,
    num_a: usize,
    val_b: T,
    num_b: usize,
    val_default: T,
    rng: &mut ChaCha8Rng,
) -> (r: Vec<T>)
    ensures
        r@.len() == n,
        r@.to_multiset() == arranged(
            n as nat,
            val_a,
            num_a as nat,
            val_b,
            num_b as nat,
            val_default,
        ).to_multiset(),
{
    let ghost target = arranged(n as nat, val_a, num_a as nat, val_b, num_b as nat, val_default);
    let mut result: Vec<T> = Vec::new();
    let mut idx: usize = 0;
    while idx < n
        invariant
            idx <= n,
            target == arranged(n as nat, val_a, num_a as nat, val_b, num_b as nat, val_default),
            result@ =~= target.subrange(0, idx as int),
        decreases n - idx,
    {
        if idx < num_a {
            result.push(val_a);
        } else if idx - num_a < num_b {
            result.push(val_b);
        } else {
            result.push(val_default);
        }
        idx += 1;
    }
    assert(result@ =~= target);
    shuffle(&mut result, rng);
    proof {
        result@.to_multiset_ensures();
        target.to_multiset_ensures();
    }
    result
}

/// A vector of `n` booleans of which `num_true` (at most `n`) are true,
/// shuffled.
pub fn random_bool_vec(n: usize, num_true: usize, rng: &mut ChaCha8Rng) -> (r: Vec<bool>)
    ensures
        r@.len() == n,
        r@.to_multiset() == arranged(n as nat, true, num_true as nat, false, 0, false).to_multiset(),
{
    random_vec(n, true, num_true, false, 0, false, rng)
}

proof fn lemma_arranged_counts<T>(n: nat, a: T, num_a: nat, b: T, num_b: nat, d: T)
    requires
        a != b,
        a != d,
        b != d,
        num_a + num_b <= n,
    ensures
        arranged(n, a, num_a, b, num_b, d).to_multiset().count(a) == num_a,
        arranged(n, a, num_a, b, num_b, d).to_multiset().count(b) == num_b,
        arranged(n, a, num_a, b, num_b, d).to_multiset().count(d) == n - num_a - num_b,
    decreases n,
{
    let s = arranged(n, a, num_a, b, num_b, d);
    s.to_multiset_ensures();
    if n == 0 {
    } else {
        let x = s[n - 1];
        if num_a + num_b == n {
            if num_b > 0 {
                lemma_arranged_counts(
                    (n - 1) as nat,
                    a,
                    num_a,
                    b,
                    (num_b - 1) as nat,
                    d,
                );
                let p = arranged((n - 1) as nat, a, num_a, b, (num_b - 1) as nat, d);
                assert(s =~= p.push(x));
                p.to_multiset_ensures();
            } else {
                lemma_arranged_counts((n - 1) as nat, a, (num_a - 1) as nat, b, num_b, d);
                let p = arranged((n - 1) as nat, a, (num_a - 1) as nat, b, num_b, d);
                assert(s =~= p.push(x));
                p.to_multiset_ensures();
            }
        } else {
            lemma_arranged_counts((n - 1) as nat, a, num_a, b, num_b, d);
            let p = arranged((n - 1) as nat, a, num_a, b, num_b, d);
            assert(s =~= p.push(x));
            p.to_multiset_ensures();
        }
    }
}

/// A vector from `random_vec` with distinct values holds exactly `num_a`
/// copies of `a` and `num_b` copies of `b`, whenever `num_a + num_b <= n`.
pub proof fn lemma_random_vec_counts<T>(
    n: nat,
    a: T,
    num_a: nat,
    b: T,
    num_b: nat,
    d: T,
    r: Seq<T>,
)
    requires
        r.len() == n,
        r.to_multiset() == arranged(n, a, num_a, b, num_b, d).to_multiset(),
        a != b,
        a != d,
        b != d,
        num_a + num_b <= n,
    ensures
        r.to_multiset().count(a) == num_a,
        r.to_multiset().count(b) == num_b,
        r.to_multiset().count(d) == n - num_a - num_b,
{
    lemma_arranged_counts(n, a, num_a, b, num_b, d);
}

/// A vector from `random_bool_vec` with `num_true <= n` holds exactly
/// `num_true` true values.
pub proof fn lemma_random_bool_vec_count(n: nat, num_true: nat, r: Seq<bool>)
    requires
        r.len() == n,
        r.to_multiset() == arranged(n, true, num_true, false, 0, false).to_multiset(),
        num_true <= n,
    ensures
        r.to_multiset().count(true) == num_true,
        r.to_multiset().count(false) == n - num_true,
{
    lemma_arranged_counts_bool(n, num_true);
}

proof fn lemma_arranged_counts_bool(n: nat, num_true: nat)
    requires
        num_true <= n,
    ensures
        arranged(n, true, num_true, false, 0, false).to_multiset().count(true) == num_true,
        arranged(n, true, num_true, false, 0, false).to_multiset().count(false) == n - num_true,
    decreases n,
{
    let s = arranged(n, true, num_true, false, 0, false);
    s.to_multiset_ensures();
    if n > 0 {
        let x = s[n - 1];
        if num_true == n {
            lemma_arranged_counts_bool((n - 1) as nat, (num_true - 1) as nat);
            let p = arranged((n - 1) as nat, true, (num_true - 1) as nat, false, 0, false);
            assert(s =~= p.push(x));
            p.to_multiset_ensures();
        } else {
            lemma_arranged_counts_bool((n - 1) as nat, num_true);
            let p = arranged((n - 1) as nat, true, num_true, false, 0, false);
            assert(s =~= p.push(x));
            p.to_multiset_ensures();
        }
    }
}

} // verus!
