use vstd::prelude::*;

verus! {

/// The character of a decimal digit.
pub open spec fn digit_char(d: nat) -> char {
    if d == 0 { '0' }
    else if d == 1 { '1' }
    else if d == 2 { '2' }
    else if d == 3 { '3' }
    else if d == 4 { '4' }
    else if d == 5 { '5' }
    else if d == 6 { '6' }
    else if d == 7 { '7' }
    else if d == 8 { '8' }
    else { '9' }
}

/// Decimal digits of a natural number, most significant first, no leading zeros.
pub open spec fn dec_digits(n: nat) -> Seq<char>
    decreases n,
{
    if n < 10 {
        seq![digit_char(n)]
    } else {
        dec_digits(n / 10) + seq![digit_char(n % 10)]
    }
}

fn digit_str(d: u64) -> (s: &'static str)
    requires
        d < 10,
    ensures
        s@ == seq![digit_char(d as nat)],
{
    proof {
        reveal_strlit("0");
        reveal_strlit("1");
        reveal_strlit("2");
        reveal_strlit("3");
        reveal_strlit("4");
        reveal_strlit("5");
        reveal_strlit("6");
        reveal_strlit("7");
        reveal_strlit("8");
        reveal_strlit("9");
    }
    if d == 0 { "0" }
    else if d == 1 { "1" }
    else if d == 2 { "2" }
    else if d == 3 { "3" }
    else if d == 4 { "4" }
    else if d == 5 { "5" }
    else if d == 6 { "6" }
    else if d == 7 { "7" }
    else if d == 8 { "8" }
    else { "9" }
}

/// Appends the decimal rendering of `n`.
pub fn push_u64(out: &mut String, n: u64)
    ensures
        final(out)@ == old(out)@ + dec_digits(n as nat),
    decreases n,
{
    if n >= 10 {
        push_u64(out, n / 10);
    }
    out.append(digit_str(n % 10));
}

/// Decimal rendering of an integer with a leading minus sign when negative.
pub open spec fn dec_int(n: int) -> Seq<char> {
    if n < 0 {
        seq!['-'] + dec_digits((-n) as nat)
    } else {
        dec_digits(n as nat)
    }
}

/// `k` zero characters.
pub open spec fn zeros(k: nat) -> Seq<char> {
    Seq::new(k, |i: int| '0')
}

/// Decimal rendering zero-padded to at least `width` characters, the sign counting
/// towards the width and the zeros standing between sign and digits.
pub open spec fn padded_int(n: int, width: nat) -> Seq<char> {
    let digits = dec_digits(if n < 0 { (-n) as nat } else { n as nat });
    let sign: Seq<char> = if n < 0 { seq!['-'] } else { Seq::empty() };
    let used = sign.len() + digits.len();
    let fill: nat = if used < width { (width - used) as nat } else { 0 };
    sign + zeros(fill) + digits
}

pub proof fn lemma_dec_digits_len(n: nat)
    ensures
        dec_digits(n).len() >= 1,
        n < 10 ==> dec_digits(n).len() == 1,
        10 <= n < 100 ==> dec_digits(n).len() == 2,
    decreases n,
{
    if n >= 10 {
        lemma_dec_digits_len(n / 10);
    }
}

/// Every character of a decimal rendering is a digit.
pub proof fn lemma_dec_digits_chars(n: nat)
    ensures
        forall|i: int| 0 <= i < dec_digits(n).len() ==> exists|d: nat| d < 10 && #[trigger] dec_digits(n)[i] == digit_char(d),
    decreases n,
{
    if n < 10 {
        assert(dec_digits(n)[0] == digit_char(n));
    } else {
        lemma_dec_digits_chars(n / 10);
        let p = dec_digits(n / 10);
        assert forall|i: int| 0 <= i < dec_digits(n).len() implies exists|d: nat| d < 10 && #[trigger] dec_digits(n)[i] == digit_char(d) by {
            if i < p.len() {
                assert(dec_digits(n)[i] == p[i]);
            } else {
                assert(dec_digits(n)[i] == digit_char(n % 10));
            }
        }
    }
}

/// Distinct numbers have distinct decimal renderings.
pub proof fn lemma_dec_digits_injective(a: nat, b: nat)
    ensures
        dec_digits(a) == dec_digits(b) ==> a == b,
    decreases a,
{
    lemma_dec_digits_len(a);
    lemma_dec_digits_len(b);
    if dec_digits(a) == dec_digits(b) {
        if a >= 10 {
            lemma_dec_digits_len(a / 10);
        }
        if b >= 10 {
            lemma_dec_digits_len(b / 10);
        }
        if a < 10 || b < 10 {
            assert(a < 10 && b < 10);
            assert(dec_digits(a)[0] == digit_char(a));
            assert(dec_digits(b)[0] == digit_char(b));
        } else {
            let pa = dec_digits(a / 10);
            let pb = dec_digits(b / 10);
            assert(dec_digits(a).last() == digit_char(a % 10));
            assert(dec_digits(b).last() == digit_char(b % 10));
            assert(dec_digits(a).drop_last() =~= pa);
            assert(dec_digits(b).drop_last() =~= pb);
            lemma_dec_digits_injective(a / 10, b / 10);
            assert(a % 10 == b % 10);
        }
    }
}

/// Distinct integers have distinct signed decimal renderings, and none holds a letter.
pub proof fn lemma_dec_int_injective(a: int, b: int)
    ensures
        dec_int(a) == dec_int(b) ==> a == b,
        dec_int(a).len() >= 1,
        forall|i: int| 0 <= i < dec_int(a).len() ==> (#[trigger] dec_int(a)[i]) != 'h' && dec_int(a)[i] != 'm' && dec_int(a)[i] != 's',
{
    let ma: nat = if a < 0 { (-a) as nat } else { a as nat };
    let mb: nat = if b < 0 { (-b) as nat } else { b as nat };
    lemma_dec_digits_chars(ma);
    lemma_dec_digits_chars(mb);
    lemma_dec_digits_len(ma);
    lemma_dec_digits_len(mb);
    assert forall|i: int| 0 <= i < dec_int(a).len() implies (#[trigger] dec_int(a)[i]) != 'h' && dec_int(a)[i] != 'm' && dec_int(a)[i] != 's' by {
        if a < 0 {
            if i > 0 {
                assert(dec_int(a)[i] == dec_digits(ma)[i - 1]);
                assert(exists|d: nat| d < 10 && #[trigger] dec_digits(ma)[i - 1] == digit_char(d));
            }
        } else {
            assert(exists|d: nat| d < 10 && #[trigger] dec_digits(ma)[i] == digit_char(d));
        }
    }
    if dec_int(a) == dec_int(b) {
        if a < 0 && b < 0 {
            assert(dec_int(a).drop_first() =~= dec_digits(ma));
            assert(dec_int(b).drop_first() =~= dec_digits(mb));
            lemma_dec_digits_injective(ma, mb);
        } else if a >= 0 && b >= 0 {
            lemma_dec_digits_injective(ma, mb);
        } else if a < 0 {
            assert(dec_int(a)[0] == '-');
            assert(exists|d: nat| d < 10 && #[trigger] dec_digits(mb)[0] == digit_char(d));
        } else {
            assert(dec_int(b)[0] == '-');
            assert(exists|d: nat| d < 10 && #[trigger] dec_digits(ma)[0] == digit_char(d));
        }
    }
}

/// Magnitude of a signed integer as an unsigned one.
fn magnitude(n: i64) -> (m: u64)
    ensures
        m as int == if n < 0 { -n } else { n as int },
{
    if n < 0 {
        ((-(n + 1)) as u64) + 1
    } else {
        n as u64
    }
}

/// Appends the decimal rendering of `n`, with a minus sign when negative.
pub fn push_i64(out: &mut String, n: i64)
    ensures
        final(out)@ == old(out)@ + dec_int(n as int),
{
    let m = magnitude(n);
    if n < 0 {
        proof { reveal_strlit("-"); }
        out.append("-");
    }
    push_u64(out, m);
    assert(final(out)@ =~= old(out)@ + dec_int(n as int)) by {
        if n < 0 {
            assert(dec_int(n as int) =~= seq!['-'] + dec_digits(m as nat));
        }
    }
}

/// Count of decimal digits of `n`.
fn digit_count(n: u64) -> (c: usize)
    ensures
        c as nat == dec_digits(n as nat).len(),
        c <= 20,
    decreases n,
{
    if n >= 10 {
        let c = digit_count(n / 10);
        assert(dec_digits(n as nat).len() == dec_digits((n / 10) as nat).len() + 1);
        if c >= 20 {
            // a u64 has at most twenty digits
            proof { lemma_digit_bound(n); }
        }
        c + 1
    } else {
        1
    }
}

proof fn lemma_digit_bound(n: u64)
    ensures
        dec_digits(n as nat).len() <= 20,
{
    reveal_with_fuel(pow10, 21);
    assert(pow10(20) == 100000000000000000000nat);
    lemma_digits_below(n as nat, 20);
}

proof fn lemma_digits_below(n: nat, k: nat)
    requires
        n < pow10(k),
        k >= 1,
    ensures
        dec_digits(n).len() <= k,
    decreases k,
{
    if n >= 10 {
        assert(n / 10 < pow10((k - 1) as nat)) by {
            assert(pow10(k) == 10 * pow10((k - 1) as nat));
        }
        if k == 1 {
            assert(pow10(1) == 10 * pow10(0));
        } else {
            lemma_digits_below(n / 10, (k - 1) as nat);
        }
    }
}

pub open spec fn pow10(k: nat) -> nat
    decreases k,
{
    if k == 0 { 1 } else { 10 * pow10((k - 1) as nat) }
}

/// Appends `k` zero characters.
fn push_zeros(out: &mut String, k: usize)
    ensures
        final(out)@ == old(out)@ + zeros(k as nat),
{
    proof { reveal_strlit("0"); }
    let mut i: usize = 0;
    while i < k
        invariant
            i <= k,
            out@ == old(out)@ + zeros(i as nat),
        decreases k - i,
    {
        proof { reveal_strlit("0"); }
        out.append("0");
        assert("0"@ =~= seq!['0']);
        assert(zeros((i + 1) as nat) =~= zeros(i as nat) + seq!['0']);
        assert(out@ =~= old(out)@ + zeros((i + 1) as nat));
        i += 1;
    }
}

/// Appends `n` zero-padded to at least `width` characters, as the `{:0width}` format does.
pub fn push_padded(out: &mut String, n: i64, width: usize)
    ensures
        final(out)@ == old(out)@ + padded_int(n as int, width as nat),
{
    let m = magnitude(n);
    let digits = digit_count(m);
    let sign: usize = if n < 0 { 1 } else { 0 };
    let used = sign + digits;
    let fill: usize = if used < width { width - used } else { 0 };
    if n < 0 {
        proof { reveal_strlit("-"); }
        out.append("-");
    }
    push_zeros(out, fill);
    push_u64(out, m);
    assert(final(out)@ =~= old(out)@ + padded_int(n as int, width as nat));
}

/// Parts joined by a separator, which stands only between two parts.
pub open spec fn join_text(parts: Seq<Seq<char>>, sep: Seq<char>) -> Seq<char>
    decreases parts.len(),
{
    if parts.len() == 0 {
        Seq::empty()
    } else if parts.len() == 1 {
        parts[0]
    } else {
        join_text(parts.drop_last(), sep) + sep + parts.last()
    }
}

/// Appending one more part to a join.
pub proof fn lemma_join_push(parts: Seq<Seq<char>>, sep: Seq<char>, p: Seq<char>)
    ensures
        join_text(parts.push(p), sep) == if parts.len() == 0 { p } else { join_text(parts, sep) + sep + p },
{
    assert(parts.push(p).drop_last() =~= parts);
}

/// Appends the decimal rendering of a count.
pub fn push_usize(out: &mut String, n: usize)
    ensures
        final(out)@ == old(out)@ + dec_digits(n as nat),
{
    push_u64(out, n as u64);
}

} // verus!
