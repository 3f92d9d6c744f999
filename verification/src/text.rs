use vstd::prelude::*;

verus! {

broadcast use vstd::array::group_array_axioms;

/// The decimal digits of `n`, most significant first, as ASCII; `0` is "0".
pub open spec fn decimal(n: nat) -> Seq<u8>
    decreases n,
{
    if n < 10 {
        seq![(48 + n) as u8]
    } else {
        decimal(n / 10).push((48 + n % 10) as u8)
    }
}

/// `10` to the power `k`.
pub open spec fn pow10(k: nat) -> nat
    decreases k,
{
    if k == 0 {
        1
    } else {
        10 * pow10((k - 1) as nat)
    }
}

/// Writes `n` in decimal, as the ASCII digits of `decimal(n)`.
pub fn format_decimal(n: usize) -> (digits: Vec<u8>)
    ensures
        digits@ == decimal(n as nat),
{
    let mut buf = [0u8; 20];
    let mut i: usize = 20;
    if n == 0 {
        let mut out: Vec<u8> = Vec::new();
        out.push(0x30);
        proof {
            assert(out@ =~= decimal(0));
        }
        return out;
    }
    let ghost n0 = n;
    let mut n = n;
    proof {
        lemma_usize_digits();
        assert(buf@.subrange(20, 20) =~= Seq::<u8>::empty());
    }
    while n > 0
        invariant
            i <= 20,
            n < pow10(i as nat),
            n0 > 0,
            buf@.len() == 20,
            decimal(n0 as nat) == (if n > 0 {
                decimal(n as nat)
            } else {
                Seq::empty()
            }) + buf@.subrange(i as int, 20),
        decreases n,
    {
        proof {
            if i == 0 {
                assert(pow10(0) == 1);
            }
            lemma_div10_bound(n as nat, (i - 1) as nat);
        }
        i -= 1;
        let ghost rest = buf@.subrange(i + 1, 20);
        buf[i] = 0x30 + (n % 10) as u8;
        proof {
            assert(buf@.subrange(i as int, 20) =~= seq![buf@[i as int]] + rest);
            if n / 10 > 0 {
                assert(decimal(n as nat) == decimal((n / 10) as nat).push((48 + n % 10) as u8));
            }
            assert((if n / 10 > 0 {
                decimal((n / 10) as nat)
            } else {
                Seq::empty()
            }) + buf@.subrange(i as int, 20) =~= (if n / 10 > 0 {
                decimal((n / 10) as nat)
            } else {
                Seq::empty()
            }).push((48 + n % 10) as u8) + rest);
        }
        n /= 10;
    }
    let mut out: Vec<u8> = Vec::new();
    let mut j = i;
    while j < 20
        invariant
            i <= j <= 20,
            buf@.len() == 20,
            out@ == buf@.subrange(i as int, j as int),
        decreases 20 - j,
    {
        out.push(buf[j]);
        proof {
            assert(buf@.subrange(i as int, j + 1) =~= buf@.subrange(i as int, j as int).push(buf@[j as int]));
        }
        j += 1;
    }
    proof {
        assert(Seq::<u8>::empty() + buf@.subrange(i as int, 20) =~= buf@.subrange(i as int, 20));
    }
    out
}

proof fn lemma_usize_digits()
    ensures
        usize::MAX < pow10(20),
{
    reveal_with_fuel(pow10, 21);
    assert(pow10(20) == 100000000000000000000);
    assert(usize::MAX <= 0xffff_ffff_ffff_ffff);
}

proof fn lemma_div10_bound(n: nat, k: nat)
    requires
        n < pow10(k + 1),
        n > 0,
    ensures
        n / 10 < pow10(k),
{
    assert(pow10(k + 1) == 10 * pow10(k));
    assert(n / 10 < pow10(k)) by (nonlinear_arith)
        requires
            n < 10 * pow10(k),
    ;
}

/// The lowercase hexadecimal digit for `n` as ASCII (`n` past 15 continues
/// the alphabet).
pub open spec fn hex_char(n: int) -> u8 {
    if n <= 9 {
        (48 + n) as u8
    } else {
        (97 + n - 10) as u8
    }
}

/// Returns the hexadecimal digit for `n`.
pub fn nibble(n: u8) -> (c: u8)
    requires
        n <= 168,
    ensures
        c == hex_char(n as int),
{
    if n <= 9 {
        0x30 + n
    } else {
        0x61 + (n - 10)
    }
}

/// Writes a byte as two lowercase hexadecimal digits.
pub fn hex2(v: u8) -> (digits: [u8; 2])
    ensures
        digits@ == seq![hex_char(v as int / 16), hex_char(v as int % 16)],
{
    proof {
        assert((v >> 4u8) & 0x0f == v / 16 && v & 0x0f == v % 16) by (bit_vector);
    }
    let d = [nibble((v >> 4) & 0x0f), nibble(v & 0x0f)];
    proof {
        assert(d@ =~= seq![hex_char(v as int / 16), hex_char(v as int % 16)]);
    }
    d
}

} // verus!
