//! Reed-Solomon error correction over GF(256) as QR Code uses it: the
//! generator of degree n has the roots alpha^0 .. alpha^(n-1), and the
//! error correction bytes are the remainder of the data, shifted up by n
//! places, divided by the generator.
use vstd::prelude::*;
use crate::gf256::{alpha_pow, gf_mul, multiply, mul_low_bits, xtime, xtime_pow, lemma_xor_zero};

verus! {

/// The polynomial `g * (x + r)`; coefficients run from the highest degree down.
pub open spec fn mul_by_linear(g: Seq<u8>, r: u8) -> Seq<u8> {
    Seq::new(
        g.len() + 1,
        |k: int|
            {
                let high: u8 = if k < g.len() { g[k] } else { 0u8 };
                let low: u8 = if k >= 1 { gf_mul(g[k - 1], r) } else { 0u8 };
                high ^ low
            },
    )
}

/// The generator polynomial `(x + alpha^0) * .. * (x + alpha^(n-1))`,
/// highest degree first.
pub open spec fn generator(n: nat) -> Seq<u8>
    decreases n,
{
    if n == 0 {
        seq![1u8]
    } else {
        mul_by_linear(generator((n - 1) as nat), alpha_pow((n - 1) as nat))
    }
}

/// One step of long division by the monic polynomial `g`: subtract
/// `w[0] * x^(len w - len g) * g` from `w` and drop the cancelled leading term.
pub open spec fn division_step(w: Seq<u8>, g: Seq<u8>) -> Seq<u8> {
    Seq::new(
        (w.len() - 1) as nat,
        |k: int|
            if k + 1 < g.len() {
                w[k + 1] ^ gf_mul(w[0], g[k + 1])
            } else {
                w[k + 1]
            },
    )
}

/// The remainder of `w` divided by the monic polynomial `g`.
pub open spec fn poly_rem(w: Seq<u8>, g: Seq<u8>) -> Seq<u8>
    decreases w.len(),
{
    if g.len() == 0 || w.len() < g.len() {
        w
    } else {
        poly_rem(division_step(w, g), g)
    }
}

/// The `n` error correction bytes of `data`: the remainder of
/// `data * x^n` divided by the generator of degree `n`.
pub open spec fn ec_bytes(data: Seq<u8>, n: nat) -> Seq<u8> {
    poly_rem(data + Seq::new(n, |i: int| 0u8), generator(n))
}

/// The generator has `n + 1` coefficients and is monic.
pub proof fn lemma_generator_shape(n: nat)
    ensures
        generator(n).len() == n + 1,
        generator(n)[0] == 1u8,
    decreases n,
{
    if n > 0 {
        lemma_generator_shape((n - 1) as nat);
        let g = generator((n - 1) as nat);
        assert(mul_by_linear(g, alpha_pow((n - 1) as nat))[0] == g[0] ^ 0u8);
        lemma_xor_zero(g[0]);
    }
}

/// Dividing a polynomial at least as long as `g` leaves `len g - 1` coefficients.
pub proof fn lemma_poly_rem_len(w: Seq<u8>, g: Seq<u8>)
    requires
        g.len() >= 1,
        w.len() >= g.len() - 1,
    ensures
        poly_rem(w, g).len() == g.len() - 1,
    decreases w.len(),
{
    if w.len() >= g.len() {
        lemma_poly_rem_len(division_step(w, g), g);
    }
}

/// The generator polynomial of degree `n`, highest degree first.
pub fn build_generator(n: usize) -> (r: Vec<u8>)
    requires
        n < usize::MAX,
    ensures
        r@ == generator(n as nat),
{
    let mut g: Vec<u8> = Vec::new();
    g.push(1u8);
    let mut d: usize = 0;
    let mut root: u8 = 1;
    while d < n
        invariant
            d <= n,
            n < usize::MAX,
            g@ == generator(d as nat),
            root == alpha_pow(d as nat),
        decreases n - d,
    {
        proof {
            lemma_generator_shape(d as nat);
        }
        let len = g.len();
        let mut next: Vec<u8> = Vec::new();
        let mut k: usize = 0;
        while k <= len
            invariant
                len == g@.len(),
                len == d + 1,
                d < n,
                n < usize::MAX,
                k <= len + 1,
                next@.len() == k,
                forall|i: int|
                    0 <= i < k ==> #[trigger] next@[i] == mul_by_linear(g@, root)[i],
            decreases len + 1 - k,
        {
            let high: u8 = if k < len { g[k] } else { 0u8 };
            let low: u8 = if k >= 1 { multiply(g[k - 1], root) } else { 0u8 };
            next.push(high ^ low);
            k = k + 1;
        }
        assert(next@ =~= mul_by_linear(g@, root));
        g = next;
        root = multiply(root, 2u8);
        proof {
            assert(gf_mul(alpha_pow(d as nat), 2u8) == xtime(alpha_pow(d as nat))) by {
                lemma_mul_by_two(alpha_pow(d as nat));
            }
        }
        d = d + 1;
    }
    g
}

/// Multiplying by the element 2 (the polynomial x) is `xtime`.
pub proof fn lemma_mul_by_two(a: u8)
    ensures
        gf_mul(a, 2u8) == xtime(a),
{
    assert((2u8 >> 0u8) & 1u8 == 0u8) by (bit_vector);
    assert((2u8 >> 1u8) & 1u8 == 1u8) by (bit_vector);
    assert((2u8 >> 2u8) & 1u8 == 0u8) by (bit_vector);
    assert((2u8 >> 3u8) & 1u8 == 0u8) by (bit_vector);
    assert((2u8 >> 4u8) & 1u8 == 0u8) by (bit_vector);
    assert((2u8 >> 5u8) & 1u8 == 0u8) by (bit_vector);
    assert((2u8 >> 6u8) & 1u8 == 0u8) by (bit_vector);
    assert((2u8 >> 7u8) & 1u8 == 0u8) by (bit_vector);
    reveal_with_fuel(xtime_pow, 2);
    reveal_with_fuel(mul_low_bits, 2);
    assert(xtime_pow(a, 0) == a);
    assert(xtime_pow(a, 1) == xtime(a));
    lemma_xor_zero(xtime(a));
    assert(mul_low_bits(a, 2u8, 1) == 0u8);
    assert(mul_low_bits(a, 2u8, 2) == xtime(a));
    assert(mul_low_bits(a, 2u8, 3) == xtime(a));
    assert(mul_low_bits(a, 2u8, 4) == xtime(a));
    assert(mul_low_bits(a, 2u8, 5) == xtime(a));
    assert(mul_low_bits(a, 2u8, 6) == xtime(a));
    assert(mul_low_bits(a, 2u8, 7) == xtime(a));
    assert(mul_low_bits(a, 2u8, 8) == xtime(a));
}

/// The `num_ec_bytes` Reed-Solomon error correction bytes of `data_bytes`.
pub fn generateECBytes(data_bytes: &Vec<u8>, num_ec_bytes: usize) -> (r: Vec<u8>)
    requires
        data_bytes@.len() >= 1,
        num_ec_bytes >= 1,
        data_bytes@.len() + num_ec_bytes < usize::MAX,
    ensures
        r@ == ec_bytes(data_bytes@, num_ec_bytes as nat),
        r@.len() == num_ec_bytes,
{
    let g = build_generator(num_ec_bytes);
    proof {
        lemma_generator_shape(num_ec_bytes as nat);
    }
    let num_data = data_bytes.len();
    let mut work: Vec<u8> = Vec::new();
    let mut k: usize = 0;
    while k < num_data
        invariant
            num_data == data_bytes@.len(),
            k <= num_data,
            work@ == data_bytes@.take(k as int),
        decreases num_data - k,
    {
        work.push(data_bytes[k]);
        k = k + 1;
        assert(data_bytes@.take(k as int) =~= data_bytes@.take((k - 1) as int).push(
            data_bytes@[k - 1],
        ));
    }
    let mut z: usize = 0;
    while z < num_ec_bytes
        invariant
            num_data == data_bytes@.len(),
            z <= num_ec_bytes,
            work@ == data_bytes@ + Seq::new(z as nat, |i: int| 0u8),
        decreases num_ec_bytes - z,
    {
        work.push(0u8);
        z = z + 1;
        assert(data_bytes@ + Seq::new(z as nat, |i: int| 0u8) =~= (data_bytes@ + Seq::new(
            (z - 1) as nat,
            |i: int| 0u8,
        )).push(0u8));
    }
    assert(data_bytes@.take(num_data as int) =~= data_bytes@);
    let ghost full = work@;
    let total = work.len();
    let mut i: usize = 0;
    assert(work@.skip(0) =~= work@);
    while i < num_data
        invariant
            total == work@.len(),
            total == num_data + num_ec_bytes,
            g@ == generator(num_ec_bytes as nat),
            g@.len() == num_ec_bytes + 1,
            i <= num_data,
            poly_rem(work@.skip(i as int), g@) == poly_rem(full, g@),
        decreases num_data - i,
    {
        let lead = work[i];
        let ghost before = work@;
        let mut j: usize = 1;
        while j <= num_ec_bytes
            invariant
                total == work@.len(),
                total == num_data + num_ec_bytes,
                g@.len() == num_ec_bytes + 1,
                i < num_data,
                1 <= j <= num_ec_bytes + 1,
                lead == before[i as int],
                work@.len() == before.len(),
                forall|t: int|
                    0 <= t < total ==> #[trigger] work@[t] == if i + 1 <= t < i + j {
                        before[t] ^ gf_mul(lead, g@[t - i])
                    } else {
                        before[t]
                    },
            decreases num_ec_bytes + 1 - j,
        {
            let m = multiply(lead, g[j]);
            let v = work[i + j] ^ m;
            work.set(i + j, v);
            j = j + 1;
        }
        proof {
            let w = before.skip(i as int);
            assert(w.len() >= g@.len());
            assert(work@.skip(i + 1) =~= division_step(w, g@));
        }
        i = i + 1;
    }
    proof {
        lemma_poly_rem_len(full, g@);
        assert(work@.skip(num_data as int).len() < g@.len());
    }
    let mut out: Vec<u8> = Vec::new();
    let mut e: usize = 0;
    while e < num_ec_bytes
        invariant
            total == work@.len(),
            total == num_data + num_ec_bytes,
            e <= num_ec_bytes,
            out@ == work@.skip(num_data as int).take(e as int),
        decreases num_ec_bytes - e,
    {
        out.push(work[num_data + e]);
        e = e + 1;
        assert(work@.skip(num_data as int).take(e as int) =~= work@.skip(num_data as int).take(
            (e - 1) as int,
        ).push(work@[num_data + e - 1]));
    }
    assert(work@.skip(num_data as int).take(num_ec_bytes as int) =~= work@.skip(
        num_data as int,
    ));
    out
}

/// `w` with `e` added (exclusive-or) into its last `e.len()` coefficients.
pub open spec fn add_to_tail(w: Seq<u8>, e: Seq<u8>) -> Seq<u8> {
    Seq::new(
        w.len(),
        |k: int|
            if k >= w.len() - e.len() {
                w[k] ^ e[k - (w.len() - e.len())]
            } else {
                w[k]
            },
    )
}

/// Adding a polynomial of degree below that of `g` to `w` adds it to the
/// remainder: division by `g` is linear in the low coefficients.
pub proof fn lemma_poly_rem_add_tail(w: Seq<u8>, e: Seq<u8>, g: Seq<u8>)
    requires
        g.len() == e.len() + 1,
        w.len() >= e.len(),
    ensures
        poly_rem(add_to_tail(w, e), g) == add_to_tail(poly_rem(w, g), e),
    decreases w.len(),
{
    let t = add_to_tail(w, e);
    if w.len() >= g.len() {
        let n = e.len();
        let dw = division_step(w, g);
        let dt = division_step(t, g);
        assert(t[0] == w[0]);
        assert forall|k: int| 0 <= k < dt.len() implies #[trigger] dt[k] == add_to_tail(dw, e)[k] by {
            if k + 1 < g.len() {
                let a = w[k + 1];
                let m = gf_mul(w[0], g[k + 1]);
                if k + 1 >= w.len() - n {
                    let x = e[k + 1 - (w.len() - n)];
                    assert((a ^ x) ^ m == (a ^ m) ^ x) by (bit_vector);
                }
            }
        }
        assert(dt =~= add_to_tail(dw, e));
        lemma_poly_rem_add_tail(dw, e, g);
    }
}

/// The error correction bytes complete a codeword: the data followed by
/// its `n` error correction bytes leaves no remainder when divided by the
/// generator, that is, it vanishes at alpha^0 .. alpha^(n-1).
pub proof fn lemma_codeword_divisible(data: Seq<u8>, n: nat)
    ensures
        poly_rem(data + ec_bytes(data, n), generator(n)) == Seq::new(n, |i: int| 0u8),
{
    let g = generator(n);
    lemma_generator_shape(n);
    let w = data + Seq::new(n, |i: int| 0u8);
    let e = ec_bytes(data, n);
    lemma_poly_rem_len(w, g);
    assert forall|k: int| 0 <= k < w.len() implies #[trigger] add_to_tail(w, e)[k] == (data + e)[k] by {
        if k >= data.len() {
            lemma_xor_zero(e[k - data.len()]);
        }
    }
    assert(add_to_tail(w, e) =~= data + e);
    lemma_poly_rem_add_tail(w, e, g);
    lemma_poly_rem_len(e, g);
    assert forall|k: int| 0 <= k < n implies #[trigger] add_to_tail(e, e)[k] == 0u8 by {
        lemma_xor_zero(e[k]);
    }
    assert(add_to_tail(e, e) =~= Seq::new(n, |i: int| 0u8));
}

} // verus!
