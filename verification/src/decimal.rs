//! Decimal numerals: their value, and their correctly rounded IEEE-754
//! binary64 encoding (round to nearest, ties to even), computed with integer
//! arithmetic on decimal digit vectors.

use vstd::prelude::*;
use vstd::arithmetic::div_mod::lemma_fundamental_div_mod_converse;

verus! {

/// 2^52 and 2^53.
pub open spec fn p52() -> nat {
    0x10_0000_0000_0000
}

pub open spec fn p53() -> nat {
    0x20_0000_0000_0000
}

pub open spec fn two_pow(e: nat) -> nat
    decreases e,
{
    if e == 0 {
        1
    } else {
        2 * two_pow((e - 1) as nat)
    }
}

pub open spec fn ten_pow(e: nat) -> nat
    decreases e,
{
    if e == 0 {
        1
    } else {
        10 * ten_pow((e - 1) as nat)
    }
}

/// All entries are decimal digit values.
pub open spec fn all_digits(s: Seq<u8>) -> bool {
    forall|i: int| 0 <= i < s.len() ==> s[i] < 10
}

/// The value of a sequence of decimal digit values, most significant first.
pub open spec fn dval(s: Seq<u8>) -> nat
    decreases s.len(),
{
    if s.len() == 0 {
        0
    } else {
        dval(s.drop_last()) * 10 + s.last() as nat
    }
}

/// Numerator and denominator of `n / 10^k` scaled by `2^-e`.
pub open spec fn scaled_num(n: nat, e: int) -> nat {
    if e >= 0 {
        n
    } else {
        n * two_pow((-e) as nat)
    }
}

pub open spec fn scaled_den(k: nat, e: int) -> nat {
    if e >= 0 {
        ten_pow(k) * two_pow(e as nat)
    } else {
        ten_pow(k)
    }
}

/// `e` is the exponent of the last significand bit of the binary64 number
/// nearest to `n / 10^k`: the significand `n / 10^k / 2^e` is below 2^53, and at
/// least 2^52 unless the number is subnormal (`e == -1074`).
pub open spec fn exponent_fits(n: nat, k: nat, e: int) -> bool {
    &&& -1074 <= e
    &&& scaled_num(n, e) < p53() * scaled_den(k, e)
    &&& (p52() * scaled_den(k, e) <= scaled_num(n, e) || e == -1074)
}

/// Significand and exponent after rounding `q + r / den` to an integer,
/// half to even, renormalised when rounding carries into bit 53.
pub open spec fn round_sig(q: nat, r: nat, den: nat, e: int) -> (nat, int) {
    let up = 2 * r > den || (2 * r == den && q % 2 == 1);
    let q1 = if up {
        q + 1
    } else {
        q
    };
    if q1 == p53() {
        (p52(), e + 1)
    } else {
        (q1, e)
    }
}

/// The encoding of `m * 2^e` (or +infinity when `e` is above the range).
pub open spec fn encode(m: nat, e: int) -> u64 {
    if e > 971 {
        0x7FF0_0000_0000_0000u64
    } else if m < p52() {
        m as u64
    } else {
        ((e + 1075) * p52() + (m - p52())) as u64
    }
}

/// The binary64 encoding of `n / 10^k` when `e` fits.
pub open spec fn encode_at(n: nat, k: nat, e: int) -> u64 {
    let num = scaled_num(n, e);
    let den = scaled_den(k, e);
    let (m, e1) = round_sig(num / den, num % den, den, e);
    encode(m, e1)
}

/// `bits` is the binary64 number nearest to `n / 10^k`, ties to even.
pub open spec fn is_binary64_of(n: nat, k: nat, bits: u64) -> bool {
    if n == 0 {
        bits == 0
    } else {
        exists|e: int| exponent_fits(n, k, e) && bits == encode_at(n, k, e)
    }
}

// ---------------------------------------------------------------------------
// Lemmas on digit values

pub proof fn lemma_dval_push(s: Seq<u8>, d: u8)
    ensures
        dval(s.push(d)) == dval(s) * 10 + d,
{
    assert(s.push(d).drop_last() =~= s);
}

pub proof fn lemma_ten_pow_pos(k: nat)
    ensures
        ten_pow(k) >= 1,
    decreases k,
{
    if k > 0 {
        lemma_ten_pow_pos((k - 1) as nat);
    }
}

pub proof fn lemma_two_pow_pos(k: nat)
    ensures
        two_pow(k) >= 1,
    decreases k,
{
    if k > 0 {
        lemma_two_pow_pos((k - 1) as nat);
    }
}

pub proof fn lemma_two_pow_add(a: nat, b: nat)
    ensures
        two_pow(a + b) == two_pow(a) * two_pow(b),
    decreases a,
{
    if a > 0 {
        lemma_two_pow_add((a - 1) as nat, b);
        assert(two_pow(a + b) == 2 * two_pow((a + b - 1) as nat));
        assert(((a + b - 1) as nat) == ((a - 1) as nat) + b);
        let x = two_pow((a - 1) as nat);
        let y = two_pow(b);
        assert(2 * (x * y) == (2 * x) * y) by (nonlinear_arith);
    } else {
        assert(two_pow(0) == 1);
        assert(1 * two_pow(b) == two_pow(b));
    }
}

pub proof fn lemma_dval_bound(s: Seq<u8>)
    requires
        all_digits(s),
    ensures
        dval(s) < ten_pow(s.len()),
    decreases s.len(),
{
    if s.len() > 0 {
        let t = s.drop_last();
        lemma_dval_bound(t);
        assert(dval(t) + 1 <= ten_pow(t.len()));
        assert(dval(t) * 10 + 10 <= ten_pow(t.len()) * 10) by (nonlinear_arith)
            requires dval(t) + 1 <= ten_pow(t.len());
    }
}

/// Splitting a digit sequence: value of the prefix shifted, plus value of the suffix.
pub proof fn lemma_dval_split(s: Seq<u8>, i: int)
    requires
        0 <= i <= s.len(),
    ensures
        dval(s) == dval(s.take(i)) * ten_pow((s.len() - i) as nat) + dval(s.skip(i)),
    decreases s.len(),
{
    if i == s.len() {
        assert(s.take(i) =~= s);
        assert(s.skip(i).len() == 0);
        assert(dval(s.skip(i)) == 0);
        assert(ten_pow(0) == 1);
        assert(dval(s) * 1 == dval(s));
    } else {
        let t = s.drop_last();
        lemma_dval_split(t, i);
        assert(t.take(i) =~= s.take(i));
        assert(s.skip(i) =~= t.skip(i).push(s.last()));
        lemma_dval_push(t.skip(i), s.last());
        let a = dval(s.take(i));
        let p = ten_pow((t.len() - i) as nat);
        let b = dval(t.skip(i));
        assert(ten_pow((s.len() - i) as nat) == 10 * p);
        assert((a * p + b) * 10 + s.last() == a * (10 * p) + (b * 10 + s.last())) by (nonlinear_arith);
    }
}

pub proof fn lemma_dval_zero(s: Seq<u8>)
    ensures
        dval(s) == 0 <==> (forall|i: int| 0 <= i < s.len() ==> s[i] == 0),
    decreases s.len(),
{
    if s.len() > 0 {
        let t = s.drop_last();
        lemma_dval_zero(t);
        if dval(s) == 0 {
            assert forall|i: int| 0 <= i < s.len() implies s[i] == 0 by {
                if i < t.len() {
                    assert(s[i] == t[i]);
                }
            }
        }
        if forall|i: int| 0 <= i < s.len() ==> s[i] == 0 {
            assert forall|i: int| 0 <= i < t.len() implies t[i] == 0 by {
                assert(t[i] == s[i]);
            }
        }
    }
}

// ---------------------------------------------------------------------------
// Operations on digit vectors

/// Whether the value of a digit vector is zero.
pub fn digits_are_zero(d: &Vec<u8>) -> (b: bool)
    ensures
        b == (dval(d@) == 0),
{
    proof {
        lemma_dval_zero(d@);
    }
    let mut i: usize = 0;
    while i < d.len()
        invariant
            i <= d.len(),
            forall|j: int| 0 <= j < i ==> d@[j] == 0,
        decreases d.len() - i,
    {
        if d[i] != 0 {
            assert(d@[i as int] != 0);
            proof {
                lemma_dval_zero(d@);
            }
            return false;
        }
        i = i + 1;
    }
    proof {
        lemma_dval_zero(d@);
    }
    true
}

/// The value of a digit vector when it is below `bound` (at most 2^63).
pub fn digits_value_below(d: &Vec<u8>, bound: u64) -> (r: Option<u64>)
    requires
        all_digits(d@),
        10 <= bound <= 0x8000_0000_0000_0000u64,
    ensures
        match r {
            Some(v) => v == dval(d@) && v < bound,
            None => dval(d@) >= bound,
        },
{
    let mut acc: u64 = 0;
    let mut i: usize = 0;
    while i < d.len()
        invariant
            i <= d.len(),
            all_digits(d@),
            10 <= bound <= 0x8000_0000_0000_0000u64,
            acc == dval(d@.take(i as int)),
            acc < bound,
        decreases d.len() - i,
    {
        let dig = d[i];
        proof {
            assert(d@.take(i + 1).drop_last() =~= d@.take(i as int));
        }
        if acc > (bound - 1 - dig as u64) / 10 {
            proof {
                // acc * 10 + dig >= bound, and the prefix value only grows
                assert(acc * 10 + dig >= bound);
                lemma_dval_split(d@, i + 1);
                lemma_ten_pow_pos((d@.len() - (i + 1)) as nat);
                let p = ten_pow((d@.len() - (i + 1)) as nat);
                let v = dval(d@.take(i + 1));
                assert(v * p >= v) by (nonlinear_arith) requires p >= 1;
            }
            return None;
        }
        acc = acc * 10 + dig as u64;
        i = i + 1;
    }
    proof {
        assert(d@.take(d@.len() as int) =~= d@);
    }
    Some(acc)
}

/// Halve a digit vector: `dval(d) == 2 * dval(q) + bit`.
pub fn halve_digits(d: &Vec<u8>) -> (res: (Vec<u8>, u8))
    requires
        all_digits(d@),
    ensures
        all_digits(res.0@),
        res.0@.len() == d@.len(),
        res.1 < 2,
        dval(d@) == 2 * dval(res.0@) + res.1,
{
    let mut q: Vec<u8> = Vec::new();
    let mut rem: u8 = 0;
    let mut i: usize = 0;
    while i < d.len()
        invariant
            i <= d.len(),
            all_digits(d@),
            all_digits(q@),
            q@.len() == i,
            rem < 2,
            dval(d@.take(i as int)) == 2 * dval(q@) + rem,
        decreases d.len() - i,
    {
        let cur: u8 = rem * 10 + d[i];
        proof {
            assert(d@.take(i + 1).drop_last() =~= d@.take(i as int));
            lemma_dval_push(q@, cur / 2);
        }
        q.push(cur / 2);
        rem = cur % 2;
        i = i + 1;
    }
    proof {
        assert(d@.take(d@.len() as int) =~= d@);
    }
    (q, rem)
}

/// Double a fixed-length digit vector: `2 * dval(old) == dval(new) + carry * 10^len`.
pub fn double_digits(d: &mut Vec<u8>) -> (carry: u8)
    requires
        all_digits(old(d)@),
    ensures
        all_digits(final(d)@),
        final(d)@.len() == old(d)@.len(),
        carry < 2,
        2 * dval(old(d)@) == dval(final(d)@) + carry * ten_pow(old(d)@.len()),
{
    let ghost orig = d@;
    let len = d.len();
    let mut c: u8 = 0;
    let mut i: usize = len;
    while i > 0
        invariant
            i <= len,
            len == orig.len(),
            d@.len() == len,
            all_digits(d@),
            all_digits(orig),
            c < 2,
            d@.take(i as int) =~= orig.take(i as int),
            2 * dval(orig.skip(i as int)) == dval(d@.skip(i as int)) + c * ten_pow((len - i) as nat),
        decreases i,
    {
        let j = i - 1;
        let cur: u8 = d[j] * 2 + c;
        let ghost before = d@;
        d.set(j, cur % 10);
        proof {
            let so = orig.skip(j as int);
            let sn = d@.skip(j as int);
            lemma_dval_split(so, 1);
            lemma_dval_split(sn, 1);
            assert(so.skip(1) =~= orig.skip(i as int));
            assert(sn.skip(1) =~= before.skip(i as int));
            assert(so.take(1) =~= seq![orig[j as int]]);
            assert(sn.take(1) =~= seq![(cur % 10) as u8]);
            assert(seq![orig[j as int]].drop_last() =~= Seq::<u8>::empty());
            assert(seq![(cur % 10) as u8].drop_last() =~= Seq::<u8>::empty());
            assert(dval(Seq::<u8>::empty()) == 0);
            assert(dval(seq![orig[j as int]]) == orig[j as int]);
            assert(dval(seq![(cur % 10) as u8]) == cur % 10);
            let p = ten_pow((len - i) as nat);
            assert(ten_pow((len - j) as nat) == 10 * p);
            assert(orig.take(i as int)[j as int] == orig[j as int]);
            assert(before.take(i as int)[j as int] == before[j as int]);
            assert(orig[j as int] == before[j as int]);
            assert(2 * (orig[j as int] * p + dval(orig.skip(i as int)))
                == (cur % 10) * p + dval(before.skip(i as int)) + (cur / 10) * (10 * p))
                by (nonlinear_arith)
                requires
                    2 * dval(orig.skip(i as int)) == dval(before.skip(i as int)) + c * p,
                    cur == orig[j as int] * 2 + c;
        }
        c = cur / 10;
        i = j;
    }
    proof {
        assert(orig.skip(0) =~= orig);
        assert(d@.skip(0) =~= d@);
    }
    c
}

/// Copy `d[from..to]` into a new vector.
fn digits_slice(d: &Vec<u8>, from: usize, to: usize) -> (r: Vec<u8>)
    requires
        from <= to <= d@.len(),
    ensures
        r@ =~= d@.subrange(from as int, to as int),
{
    let mut r: Vec<u8> = Vec::new();
    let mut i = from;
    while i < to
        invariant
            from <= i <= to <= d@.len(),
            r@ =~= d@.subrange(from as int, i as int),
        decreases to - i,
    {
        r.push(d[i]);
        i = i + 1;
    }
    r
}

proof fn lemma_exponent_from_division(n: nat, k: nat, e: int, q: nat, r: nat)
    requires
        -1074 <= e,
        scaled_den(k, e) > 0,
        scaled_num(n, e) == q * scaled_den(k, e) + r,
        r < scaled_den(k, e),
        q < p53(),
        q >= p52() || e == -1074,
    ensures
        exponent_fits(n, k, e),
        scaled_num(n, e) / scaled_den(k, e) == q,
        scaled_num(n, e) % scaled_den(k, e) == r,
{
    let num = scaled_num(n, e);
    let den = scaled_den(k, e);
    lemma_fundamental_div_mod_converse(num as int, den as int, q as int, r as int);
    assert(num < p53() * den) by (nonlinear_arith)
        requires num == q * den + r, r < den, q < p53();
    if q >= p52() {
        assert(p52() * den <= num) by (nonlinear_arith)
            requires num == q * den + r, q >= p52();
    }
}

/// The binary64 number nearest to the decimal `dval(digits) / 10^frac`,
/// ties to even, as its bit pattern.
pub fn binary64_bits(digits: &Vec<u8>, frac: usize) -> (bits: u64)
    requires
        all_digits(digits@),
        frac <= digits@.len(),
    ensures
        is_binary64_of(dval(digits@), frac as nat, bits),
{
    let len = digits.len();
    let ilen = len - frac;
    let ip = digits_slice(digits, 0, ilen);
    let mut fp = digits_slice(digits, ilen, len);
    let ghost n = dval(digits@);
    let ghost k = frac as nat;
    let ghost big_i = dval(ip@);
    let ghost big_f = dval(fp@);
    proof {
        lemma_dval_split(digits@, ilen as int);
        assert(digits@.take(ilen as int) =~= ip@);
        assert(digits@.skip(ilen as int) =~= fp@);
        lemma_dval_bound(fp@);
        lemma_ten_pow_pos(k);
    }
    let ghost tk = ten_pow(k);
    // n == I * 10^k + F with F < 10^k
    assert(n == big_i * tk + big_f);
    assert(big_f < tk);

    // Integer phase: halve the integer part until it is below 2^53.
    let mut cur = ip;
    let mut jc: u32 = 0;
    let mut sticky = false;
    let mut round: u8 = 0;
    let ghost mut j: nat = 0;
    let ghost mut low: nat = 0;
    let ghost mut low_prev: nat = 0;
    let q0: u64;
    assert(two_pow(0) == 1);
    assert(big_i == dval(cur@) * two_pow(0) + 0);
    loop
        invariant
            all_digits(cur@),
            big_i == dval(cur@) * two_pow(j) + low,
            low < two_pow(j),
            round < 2,
            j == 0 ==> low == 0 && round == 0 && !sticky,
            j >= 1 ==> low == round * two_pow((j - 1) as nat) + low_prev
                && low_prev < two_pow((j - 1) as nat)
                && sticky == (low_prev != 0)
                && dval(cur@) >= p52(),
            jc == (if j <= 2000 { j } else { 2000 }),
        ensures
            q0 == dval(cur@),
            q0 < p53(),
            big_i == dval(cur@) * two_pow(j) + low,
            low < two_pow(j),
            round < 2,
            j == 0 ==> low == 0 && round == 0 && !sticky,
            j >= 1 ==> low == round * two_pow((j - 1) as nat) + low_prev
                && low_prev < two_pow((j - 1) as nat)
                && sticky == (low_prev != 0)
                && dval(cur@) >= p52(),
            jc == (if j <= 2000 { j } else { 2000 }),
        decreases dval(cur@),
    {
        match digits_value_below(&cur, 0x20_0000_0000_0000u64) {
            Some(v) => {
                q0 = v;
                break;
            },
            None => {
                let (h, b) = halve_digits(&cur);
                proof {
                    let pj = two_pow(j);
                    assert(two_pow(j + 1) == 2 * pj);
                    assert(big_i == dval(h@) * two_pow(j + 1) + (b * pj + low)) by (nonlinear_arith)
                        requires
                            big_i == dval(cur@) * pj + low,
                            dval(cur@) == 2 * dval(h@) + b,
                            two_pow(j + 1) == 2 * pj;
                    assert(b * pj + low < two_pow(j + 1)) by (nonlinear_arith)
                        requires b < 2, low < pj, two_pow(j + 1) == 2 * pj;
                    if j >= 1 {
                        assert(two_pow(j) == 2 * two_pow((j - 1) as nat));
                        assert((low != 0) == (round == 1 || low_prev != 0)) by (nonlinear_arith)
                            requires
                                low == round * two_pow((j - 1) as nat) + low_prev,
                                two_pow((j - 1) as nat) >= 1,
                                round < 2;
                        lemma_two_pow_pos((j - 1) as nat);
                    }
                    low_prev = low;
                    low = (b * pj + low) as nat;
                    j = (j + 1) as nat;
                }
                sticky = sticky || round == 1;
                round = b;
                if jc < 2000 {
                    jc = jc + 1;
                }
                cur = h;
            },
        }
    }

    let mut q: u64 = q0;
    let mut up: bool;
    let mut exp: i64;
    let ghost mut e: int;
    let ghost mut rr: nat;
    if jc > 0 {
        // The integer part alone fixes the significand: e == j > 0.
        let f_zero = digits_are_zero(&fp);
        up = round == 1 && (sticky || !f_zero || q % 2 == 1);
        exp = jc as i64;
        proof {
            e = j as int;
            let pj1 = two_pow((j - 1) as nat);
            let den = tk * two_pow(j);
            assert(two_pow(j) == 2 * pj1);
            lemma_two_pow_pos((j - 1) as nat);
            rr = (low * tk + big_f) as nat;
            assert(n == q * den + rr) by (nonlinear_arith)
                requires
                    n == big_i * tk + big_f,
                    big_i == q * two_pow(j) + low,
                    den == tk * two_pow(j),
                    rr == low * tk + big_f;
            assert(rr < den) by (nonlinear_arith)
                requires rr == low * tk + big_f, low < two_pow(j), big_f < tk, den == tk * two_pow(j);
            assert(scaled_den(k, e) == den);
            assert(scaled_num(n, e) == n);
            lemma_exponent_from_division(n, k, e, q as nat, rr);
            // the rounding decision
            if round == 1 {
                assert(2 * rr == den + 2 * (low_prev * tk) + 2 * big_f) by (nonlinear_arith)
                    requires rr == low * tk + big_f, low == pj1 + low_prev, den == tk * (2 * pj1);
                assert(low_prev * tk >= 0) by (nonlinear_arith);
                if low_prev != 0 {
                    assert(low_prev * tk >= 1) by (nonlinear_arith) requires low_prev >= 1, tk >= 1;
                }
                assert(j >= 1);
                assert(sticky == (low_prev != 0));
                assert(f_zero == (big_f == 0));
                assert((2 * rr > den) == (low_prev != 0 || big_f != 0));
                assert(up == (2 * rr > den || (2 * rr == den && q % 2 == 1)));
            } else {
                assert(2 * rr < den) by (nonlinear_arith)
                    requires
                        rr == low * tk + big_f,
                        low == low_prev,
                        low_prev < pj1,
                        big_f < tk,
                        den == tk * (2 * pj1);
                assert(up == (2 * rr > den || (2 * rr == den && q % 2 == 1)));
            }
        }
    } else {
        // The significand needs fraction bits: double the fraction part.
        let mut tc: u32 = 0;
        proof {
            assert(two_pow(0) == 1);
            assert(j == 0);
            assert(low == 0);
            assert(dval(cur@) * 1 == dval(cur@));
            assert(big_i == dval(cur@));
            assert(big_i == q);
            assert(q * tk + big_f == n * two_pow(0));
        }
        while q < 0x10_0000_0000_0000u64 && tc < 1074
            invariant
                all_digits(fp@),
                fp@.len() == k,
                q < p53(),
                tc <= 1074,
                q * tk + dval(fp@) == n * two_pow(tc as nat),
                tk == ten_pow(k),
            decreases 1074 - tc,
        {
            let ghost fold = dval(fp@);
            let c = double_digits(&mut fp);
            proof {
                assert(two_pow((tc + 1) as nat) == 2 * two_pow(tc as nat));
                assert((2 * q + c) * tk + dval(fp@) == n * two_pow((tc + 1) as nat)) by (nonlinear_arith)
                    requires
                        q * tk + fold == n * two_pow(tc as nat),
                        2 * fold == dval(fp@) + c * tk,
                        two_pow((tc + 1) as nat) == 2 * two_pow(tc as nat);
            }
            q = 2 * q + c as u64;
            tc = tc + 1;
        }
        let ghost r_at = dval(fp@);
        proof {
            lemma_dval_bound(fp@);
            lemma_two_pow_pos(tc as nat);
        }
        let c1 = double_digits(&mut fp);
        let r_zero = digits_are_zero(&fp);
        up = c1 == 1 && (!r_zero || q % 2 == 1);
        exp = -(tc as i64);
        proof {
            e = -(tc as int);
            rr = r_at;
            if tc == 0 {
                assert(scaled_num(n, e) == n);
                assert(two_pow(0) == 1);
                assert(n * two_pow(0) == n);
                assert(tk * two_pow(0) == tk);
            } else {
                assert(scaled_num(n, e) == n * two_pow(tc as nat));
            }
            assert(scaled_den(k, e) == tk);
            lemma_exponent_from_division(n, k, e, q as nat, rr);
            // 2 * rr == c1 * tk + r1 with r1 < tk
            lemma_dval_bound(fp@);
            assert(up == (2 * rr > tk || (2 * rr == tk && q % 2 == 1)));
        }
    }
    // Round and renormalise.
    let ghost num = scaled_num(n, e);
    let ghost den = scaled_den(k, e);
    assert(num / den == q && num % den == rr);
    if up {
        q = q + 1;
    }
    if q == 0x20_0000_0000_0000u64 {
        q = 0x10_0000_0000_0000u64;
        exp = exp + 1;
    }
    let ghost (m, e1) = round_sig(num / den, num % den, den, e);
    assert(m == q);
    assert(exp > 971 ==> e1 > 971);
    assert(exp <= 971 ==> e1 == exp);
    let bits: u64 = if exp > 971 {
        0x7FF0_0000_0000_0000u64
    } else if q < 0x10_0000_0000_0000u64 {
        q
    } else {
        ((exp + 1075) as u64) * 0x10_0000_0000_0000u64 + (q - 0x10_0000_0000_0000u64)
    };
    assert(bits == encode(m, e1));
    assert(bits == encode_at(n, k, e));
    proof {
        if n == 0 {
            if jc > 0 {
                assert(false) by (nonlinear_arith)
                    requires n == big_i * tk + big_f, big_i == q0 * two_pow(j) + low, q0 >= p52(),
                        two_pow(j) >= 1, tk >= 1, n == 0;
            }
        }
    }
    bits
}

} // verus!
