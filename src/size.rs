use vstd::prelude::*;

verus! {

/// The character of a decimal digit.
pub open spec fn digit(d: nat) -> char {
    seq!['0', '1', '2', '3', '4', '5', '6', '7', '8', '9'][d as int]
}

/// The decimal numeral of `n`, without leading zeros.
pub open spec fn decimal(n: nat) -> Seq<char>
    decreases n,
{
    if n < 10 {
        seq![digit(n)]
    } else {
        decimal(n / 10).push(digit(n % 10))
    }
}

/// The labels of the units, smallest first.
pub open spec fn unit_label(k: nat) -> Seq<char> {
    seq![
        seq!['B'],
        seq!['k', 'B'],
        seq!['M', 'B'],
        seq!['G', 'B'],
        seq!['T', 'B'],
        seq!['P', 'B'],
        seq!['E', 'B'],
        seq!['Z', 'B'],
        seq!['Y', 'B'],
    ][k as int]
}

/// The index of the last unit label.
pub const LARGEST_UNIT: usize = 8;

pub open spec fn power(b: nat, e: nat) -> nat
    decreases e,
{
    if e == 0 {
        1
    } else {
        b * power(b, (e - 1) as nat)
    }
}

/// How many times `base` divides into `q` with a quotient of at least one,
/// at most `limit` times: the largest `k <= limit` with `base^k <= q`
/// (zero for `q == 0`).
pub open spec fn unit_steps(q: nat, base: nat, limit: nat) -> nat
    decreases limit,
{
    if limit == 0 || base < 2 || q < base {
        0
    } else {
        1 + unit_steps(q / base, base, (limit - 1) as nat)
    }
}

/// The unit that `bytes` is shown in.
pub open spec fn unit_index(bytes: nat, base: nat) -> nat {
    unit_steps(bytes, base, LARGEST_UNIT as nat)
}

/// `100 * bytes / unit`, rounded to the nearest integer, halves up.
pub open spec fn hundredths(bytes: nat, unit: nat) -> nat {
    ((200 * bytes + unit) / (2 * unit)) as nat
}

/// A size in its unit with two decimals: `"4.14 kB"`.
pub open spec fn human_size(bytes: nat, base: nat) -> Seq<char> {
    let k = unit_index(bytes, base);
    let h = hundredths(bytes, power(base, k));
    decimal(h / 100) + seq!['.', digit((h % 100) / 10), digit(h % 10), ' '] + unit_label(k)
}

/// The size annotation of an entry of `bytes` bytes.
pub open spec fn size_text(bytes: nat, human_readable: bool, base: nat) -> Seq<char> {
    if human_readable {
        human_size(bytes, base)
    } else {
        decimal(bytes) + seq![' ', 'B']
    }
}

proof fn lemma_unit_steps(q: nat, base: nat, limit: nat)
    requires
        base >= 2,
    ensures
        unit_steps(q, base, limit) <= limit,
        unit_steps(q, base, limit) > 0 ==> power(base, unit_steps(q, base, limit)) <= q,
        unit_steps(q, base, limit) < limit ==> q < power(base, unit_steps(q, base, limit) + 1),
    decreases limit,
{
    let k = unit_steps(q, base, limit);
    if limit == 0 || q < base {
        assert(power(base, 0) == 1);
        assert(power(base, 1) == base * power(base, 0));
    } else {
        let r = q / base;
        let l1 = (limit - 1) as nat;
        lemma_unit_steps(r, base, l1);
        let k1 = unit_steps(r, base, l1);
        let p1 = power(base, k1);
        assert(power(base, k1 + 1) == base * p1);
        assert(power(base, k1 + 2) == base * power(base, k1 + 1));
        vstd::arithmetic::div_mod::lemma_fundamental_div_mod(q as int, base as int);
        assert(p1 >= 1) by {
            lemma_power_positive(base, k1);
        }
        assert(base * p1 <= q) by (nonlinear_arith)
            requires
                k1 > 0 ==> p1 <= r,
                k1 == 0 ==> p1 == 1,
                q >= base,
                q == base * r + q % base,
                q % base >= 0,
        ;
        assert(k == k1 + 1);
        if k < limit {
            assert(k1 < l1);
            assert(r < power(base, k1 + 1));
            assert(q < base * power(base, k1 + 1)) by (nonlinear_arith)
                requires
                    r < power(base, k1 + 1),
                    q == base * r + q % base,
                    q % base < base,
            ;
            assert(power(base, k + 1) == base * power(base, k1 + 1));
        }
    }
}

proof fn lemma_power_positive(b: nat, e: nat)
    requires
        b >= 1,
    ensures
        power(b, e) >= 1,
    decreases e,
{
    if e > 0 {
        lemma_power_positive(b, (e - 1) as nat);
        assert(b * power(b, (e - 1) as nat) >= 1) by (nonlinear_arith)
            requires
                b >= 1,
                power(b, (e - 1) as nat) >= 1,
        ;
    }
}

/// The unit a size is shown in is the largest of the nine whose size does
/// not exceed it: `base^k <= bytes` (bytes below one unit show in `B`), and
/// below the last unit `bytes < base^(k+1)`.
pub proof fn lemma_unit_index(bytes: nat, base: nat)
    requires
        base == 1000 || base == 1024,
    ensures
        unit_index(bytes, base) <= LARGEST_UNIT,
        unit_index(bytes, base) > 0 ==> power(base, unit_index(bytes, base)) <= bytes,
        unit_index(bytes, base) < LARGEST_UNIT ==> bytes < power(base, unit_index(bytes, base) + 1),
{
    lemma_unit_steps(bytes, base, LARGEST_UNIT as nat);
}

/// Appends the digit `d`.
fn push_digit(s: &mut String, d: u128)
    requires
        d < 10,
    ensures
        final(s)@ == old(s)@.push(digit(d as nat)),
{
    let digits = "0123456789";
    proof {
        reveal_strlit("0123456789");
    }
    let i = d as usize;
    s.append(digits.substring_char(i, i + 1));
    assert(digits@.subrange(i as int, i + 1) =~= seq![digit(d as nat)]);
}

/// The decimal numeral of `n`.
pub fn decimal_string(n: u128) -> (r: String)
    ensures
        r@ == decimal(n as nat),
    decreases n,
{
    if n < 10 {
        let mut s = String::new();
        push_digit(&mut s, n);
        assert(s@ =~= decimal(n as nat));
        s
    } else {
        let mut s = decimal_string(n / 10);
        push_digit(&mut s, n % 10);
        s
    }
}

fn unit_name(k: usize) -> (r: &'static str)
    requires
        k <= LARGEST_UNIT,
    ensures
        r@ == unit_label(k as nat),
{
    proof {
        reveal_strlit("B");
        reveal_strlit("kB");
        reveal_strlit("MB");
        reveal_strlit("GB");
        reveal_strlit("TB");
        reveal_strlit("PB");
        reveal_strlit("EB");
        reveal_strlit("ZB");
        reveal_strlit("YB");
    }
    let r = match k {
        0 => "B",
        1 => "kB",
        2 => "MB",
        3 => "GB",
        4 => "TB",
        5 => "PB",
        6 => "EB",
        7 => "ZB",
        _ => "YB",
    };
    assert(r@ =~= unit_label(k as nat));
    r
}

/// The size annotation of `bytes`: the exact count, `"<bytes> B"`, or, when
/// `human_readable`, the size in the largest unit (of `B`, `kB`, ... `YB`,
/// each `base` times the one before) in which it is at least one, rounded to
/// two decimals. Zero bytes read `"0.00 B"`.
pub fn format_size(bytes: u64, human_readable: bool, base: u64) -> (r: String)
    requires
        base == 1000 || base == 1024,
    ensures
        r@ == size_text(bytes as nat, human_readable, base as nat),
{
    if !human_readable {
        let mut s = decimal_string(bytes as u128);
        proof {
            reveal_strlit(" B");
        }
        s.append(" B");
        return s;
    }
    let mut k: usize = 0;
    let mut unit: u64 = 1;
    let mut q: u64 = bytes;
    while k < LARGEST_UNIT && q >= base
        invariant
            base == 1000 || base == 1024,
            k <= LARGEST_UNIT,
            unit as nat == power(base as nat, k as nat),
            1 <= unit <= bytes || k == 0,
            unit >= 1,
            q == bytes / unit,
            unit_index(bytes as nat, base as nat) == k + unit_steps(
                q as nat,
                base as nat,
                (LARGEST_UNIT - k) as nat,
            ),
        decreases LARGEST_UNIT - k,
    {
        proof {
            let b = bytes as int;
            let u = unit as int;
            let bs = base as int;
            vstd::arithmetic::div_mod::lemma_fundamental_div_mod(b, u);
            assert(b % u >= 0);
            assert(u * (b / u) >= u * bs) by (nonlinear_arith)
                requires
                    b / u >= bs,
                    u >= 1,
            ;
            vstd::arithmetic::div_mod::lemma_div_denominator(b, u, bs);
            assert(u * bs == bs * u) by (nonlinear_arith);
        }
        q = q / base;
        unit = unit * base;
        k = k + 1;
    }
    assert(unit_steps(q as nat, base as nat, (LARGEST_UNIT - k) as nat) == 0);
    let h: u128 = (200 * (bytes as u128) + unit as u128) / (2 * unit as u128);
    let mut s = decimal_string(h / 100);
    proof {
        reveal_strlit(".");
        reveal_strlit(" ");
    }
    s.append(".");
    push_digit(&mut s, (h % 100) / 10);
    push_digit(&mut s, h % 10);
    s.append(" ");
    s.append(unit_name(k));
    let ghost hh = hundredths(bytes as nat, unit as nat);
    assert(h == hh);
    assert(s@ =~= size_text(bytes as nat, human_readable, base as nat));
    s
}

/// The human-readable size of `num` bytes, in steps of 1000 when
/// `base_1000`, else of 1024.
pub fn human_readable_filesize(num: u64, base_1000: bool) -> (r: String)
    ensures
        r@ == human_size(num as nat, if base_1000 {
            1000
        } else {
            1024
        }),
{
    format_size(num, true, if base_1000 { 1000 } else { 1024 })
}

} // verus!
