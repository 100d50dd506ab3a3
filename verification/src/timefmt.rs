//! Decimal rendering of numbers and time labels.

use vstd::prelude::*;
use crate::text::string_of;

verus! {

/// The characters `'0'..='9'`.
pub open spec fn digit_chars() -> Seq<char> {
    seq!['0', '1', '2', '3', '4', '5', '6', '7', '8', '9']
}

/// The decimal digits of `n`, most significant first, without leading zeros.
pub open spec fn decimal(n: nat) -> Seq<char>
    decreases n,
{
    if n < 10 {
        seq![digit_chars()[n as int]]
    } else {
        decimal(n / 10).push(digit_chars()[(n % 10) as int])
    }
}

/// The decimal digits of `n`, left-padded with `'0'` to at least `width`.
pub open spec fn zero_padded(n: nat, width: nat) -> Seq<char> {
    let d = decimal(n);
    if d.len() >= width {
        d
    } else {
        Seq::new((width - d.len()) as nat, |i: int| '0') + d
    }
}

fn push_decimal(out: &mut Vec<char>, n: u64)
    ensures
        final(out)@ == old(out)@ + decimal(n as nat),
    decreases n,
{
    let digits = ['0', '1', '2', '3', '4', '5', '6', '7', '8', '9'];
    proof {
        assert(digits@ == digit_chars());
    }
    if n >= 10 {
        push_decimal(out, n / 10);
    }
    let d = (n % 10) as usize;
    out.push(digits[d]);
    proof {
        if n >= 10 {
            assert(final(out)@ =~= old(out)@ + decimal(n as nat));
        } else {
            assert(final(out)@ =~= old(out)@ + decimal(n as nat));
        }
    }
}

fn push_zero_padded(out: &mut Vec<char>, n: u64, width: usize)
    ensures
        final(out)@ == old(out)@ + zero_padded(n as nat, width as nat),
{
    let mut digits: Vec<char> = Vec::new();
    push_decimal(&mut digits, n);
    assert(digits@ =~= decimal(n as nat));
    let ghost start = out@;
    if digits.len() < width {
        let pad = width - digits.len();
        let mut k: usize = 0;
        while k < pad
            invariant
                0 <= k <= pad,
                out@ == start + Seq::new(k as nat, |i: int| '0'),
            decreases pad - k,
        {
            out.push('0');
            proof {
                assert(Seq::new((k + 1) as nat, |i: int| '0') =~= Seq::new(k as nat, |i: int| '0').push('0'));
            }
            k = k + 1;
        }
    }
    let ghost mid = out@;
    let mut j: usize = 0;
    while j < digits.len()
        invariant
            0 <= j <= digits@.len(),
            out@ == mid + digits@.take(j as int),
        decreases digits@.len() - j,
    {
        out.push(digits[j]);
        proof {
            assert(digits@.take(j + 1) =~= digits@.take(j as int).push(digits@[j as int]));
        }
        j = j + 1;
    }
    proof {
        assert(digits@.take(j as int) =~= digits@);
        assert(final(out)@ =~= old(out)@ + zero_padded(n as nat, width as nat));
    }
}

/// The decimal rendering of `n`.
pub fn decimal_string(n: u64) -> (s: String)
    ensures
        s@ == decimal(n as nat),
{
    let mut out: Vec<char> = Vec::new();
    push_decimal(&mut out, n);
    assert(out@ =~= decimal(n as nat));
    string_of(&out)
}

/// `MM:SS.mmm` for a time given in whole milliseconds: minutes (at least two
/// digits), seconds within the minute and milliseconds within the second.
pub open spec fn spec_format_time_ms(total_ms: nat) -> Seq<char> {
    zero_padded(total_ms / 60000, 2) + seq![':'] + zero_padded((total_ms % 60000) / 1000, 2) + seq![
        '.',
    ] + zero_padded(total_ms % 1000, 3)
}

/// Formats a time given in whole milliseconds as `MM:SS.mmm`.
pub fn format_time_ms(total_ms: u64) -> (s: String)
    ensures
        s@ == spec_format_time_ms(total_ms as nat),
{
    let minutes = total_ms / 60000;
    let secs = (total_ms % 60000) / 1000;
    let ms = total_ms % 1000;
    let mut out: Vec<char> = Vec::new();
    push_zero_padded(&mut out, minutes, 2);
    out.push(':');
    push_zero_padded(&mut out, secs, 2);
    out.push('.');
    push_zero_padded(&mut out, ms, 3);
    proof {
        assert(out@ =~= spec_format_time_ms(total_ms as nat));
    }
    string_of(&out)
}

/// A short time label for whole seconds: `M:SS` from one minute on, `Ss`
/// below.
pub open spec fn spec_seconds_label(total_secs: nat) -> Seq<char> {
    let minutes = total_secs / 60;
    let secs = total_secs % 60;
    if minutes > 0 {
        decimal(minutes) + seq![':'] + zero_padded(secs, 2)
    } else {
        decimal(secs) + seq!['s']
    }
}

/// Formats whole seconds as a short time label.
pub fn seconds_label(total_secs: u64) -> (s: String)
    ensures
        s@ == spec_seconds_label(total_secs as nat),
{
    let minutes = total_secs / 60;
    let secs = total_secs % 60;
    let mut out: Vec<char> = Vec::new();
    if minutes > 0 {
        push_decimal(&mut out, minutes);
        out.push(':');
        push_zero_padded(&mut out, secs, 2);
    } else {
        push_decimal(&mut out, secs);
        out.push('s');
    }
    proof {
        assert(out@ =~= spec_seconds_label(total_secs as nat));
    }
    string_of(&out)
}


// ---------------------------------------------------------------------------
// Reading numbers back
// ---------------------------------------------------------------------------

/// Whether every character of `s` is one of `'0'..='9'`.
pub open spec fn all_digits(s: Seq<char>) -> bool {
    forall|i: int| 0 <= i < s.len() ==> '0' <= #[trigger] s[i] && s[i] <= '9'
}

/// The number that a string of decimal digits denotes, most significant
/// digit first.
pub open spec fn read_decimal(s: Seq<char>) -> int
    decreases s.len(),
{
    if s.len() == 0 {
        0
    } else {
        read_decimal(s.drop_last()) * 10 + (s.last() as int - '0' as int)
    }
}

/// `10^k`.
pub open spec fn pow10(k: nat) -> int
    decreases k,
{
    if k == 0 {
        1
    } else {
        10 * pow10((k - 1) as nat)
    }
}

proof fn lemma_digit_char(k: int)
    requires
        0 <= k < 10,
    ensures
        '0' <= digit_chars()[k] <= '9',
        digit_chars()[k] as int - '0' as int == k,
{
    if k == 0 {
    } else if k == 1 {
    } else if k == 2 {
    } else if k == 3 {
    } else if k == 4 {
    } else if k == 5 {
    } else if k == 6 {
    } else if k == 7 {
    } else if k == 8 {
    } else {
    }
}

/// The decimal rendering of `n` is a non-empty string of digits without a
/// leading zero (except `0` itself) that reads back as `n`.
pub proof fn law_decimal_reads_back(n: nat)
    ensures
        decimal(n).len() >= 1,
        all_digits(decimal(n)),
        read_decimal(decimal(n)) == n,
        decimal(n).len() > 1 ==> decimal(n)[0] != '0',
        n < 10 ==> decimal(n).len() == 1,
        n >= 10 ==> decimal(n).len() >= 2,
        10 <= n < 100 ==> decimal(n).len() == 2,
        100 <= n < 1000 ==> decimal(n).len() == 3,
    decreases n,
{
    if n < 10 {
        lemma_digit_char(n as int);
        let d = decimal(n);
        assert(d.drop_last() =~= Seq::<char>::empty());
        assert(d.last() == digit_chars()[n as int]);
        assert(read_decimal(d) == read_decimal(d.drop_last()) * 10 + (d.last() as int - '0' as int));
    } else {
        law_decimal_reads_back(n / 10);
        lemma_digit_char((n % 10) as int);
        let d = decimal(n);
        let head = decimal(n / 10);
        assert(d.drop_last() =~= head);
        assert(d.last() == digit_chars()[(n % 10) as int]);
        assert((n / 10) * 10 + n % 10 == n);
        assert(read_decimal(d) == read_decimal(head) * 10 + (d.last() as int - '0' as int));
        assert(d[0] == head[0]);
        if n / 10 < 10 {
            assert(n / 10 >= 1);
            lemma_digit_char((n / 10) as int);
            assert(head[0] != '0');
        }
        assert forall|i: int| 0 <= i < d.len() implies '0' <= #[trigger] d[i] && d[i] <= '9' by {
            if i < d.len() - 1 {
                assert(d[i] == head[i]);
            }
        }
    }
}

proof fn lemma_read_concat(a: Seq<char>, b: Seq<char>)
    ensures
        read_decimal(a + b) == read_decimal(a) * pow10(b.len()) + read_decimal(b),
    decreases b.len(),
{
    if b.len() == 0 {
        assert(a + b =~= a);
    } else {
        lemma_read_concat(a, b.drop_last());
        assert((a + b).drop_last() =~= a + b.drop_last());
        assert((a + b).last() == b.last());
        let ra = read_decimal(a);
        let p = pow10((b.len() - 1) as nat);
        let rb = read_decimal(b.drop_last());
        assert((ra * p + rb) * 10 == ra * (10 * p) + rb * 10) by (nonlinear_arith);
    }
}

proof fn lemma_read_zeros(k: nat)
    ensures
        read_decimal(Seq::new(k, |i: int| '0')) == 0,
        all_digits(Seq::new(k, |i: int| '0')),
    decreases k,
{
    if k > 0 {
        lemma_read_zeros((k - 1) as nat);
        assert(Seq::new(k, |i: int| '0').drop_last() =~= Seq::new((k - 1) as nat, |i: int| '0'));
    }
}

/// `n` padded to `width` digits is a string of `width` digits (or more, when
/// `n` needs more) that reads back as `n`.
pub proof fn law_zero_padded_reads_back(n: nat, width: nat)
    ensures
        all_digits(zero_padded(n, width)),
        read_decimal(zero_padded(n, width)) == n,
        zero_padded(n, width).len() >= width,
        zero_padded(n, width).len() >= 1,
        n < pow10(width) ==> zero_padded(n, width).len() == width || (width == 0 && zero_padded(n, width).len() == 1),
    decreases width,
{
    law_decimal_reads_back(n);
    lemma_decimal_short(n, width);
    let d = decimal(n);
    if d.len() < width {
        let z = Seq::new((width - d.len()) as nat, |i: int| '0');
        lemma_read_zeros((width - d.len()) as nat);
        lemma_read_concat(z, d);
        assert forall|i: int| 0 <= i < (z + d).len() implies '0' <= #[trigger] (z + d)[i] && (z
            + d)[i] <= '9' by {
            if i < z.len() {
                assert((z + d)[i] == z[i]);
            } else {
                assert((z + d)[i] == d[i - z.len()]);
            }
        }
    }
}

proof fn lemma_decimal_short(n: nat, width: nat)
    ensures
        n < pow10(width) && width >= 1 ==> decimal(n).len() <= width,
    decreases width,
{
    if width >= 2 && n >= 10 && n < pow10(width) {
        assert(pow10(width) == 10 * pow10((width - 1) as nat));
        assert(n / 10 < pow10((width - 1) as nat));
        lemma_decimal_short(n / 10, (width - 1) as nat);
    } else if width == 1 && n < pow10(width) {
        assert(pow10(1) == 10 * pow10(0));
    }
}

/// A ruler label reads back as the number of seconds it was made from: from
/// one minute on, whole minutes (not reduced to an hour), `:` and two digits of
/// seconds below 60; below a minute, the seconds followed by `s`.
pub proof fn law_seconds_label_reads_back(total_secs: nat)
    ensures
        ({
            let label = spec_seconds_label(total_secs);
            let k = label.len() - 3;
            &&& total_secs >= 60 ==> {
                &&& k >= 1
                &&& label[k] == ':'
                &&& all_digits(label.take(k))
                &&& label[0] != '0'
                &&& all_digits(label.skip(k + 1))
                &&& read_decimal(label.skip(k + 1)) < 60
                &&& read_decimal(label.take(k)) * 60 + read_decimal(label.skip(k + 1))
                    == total_secs
            }
            &&& total_secs < 60 ==> {
                &&& label.len() >= 2
                &&& label.last() == 's'
                &&& all_digits(label.drop_last())
                &&& read_decimal(label.drop_last()) == total_secs
            }
        }),
{
    let minutes = total_secs / 60;
    let secs = total_secs % 60;
    let label = spec_seconds_label(total_secs);
    law_decimal_reads_back(minutes);
    law_decimal_reads_back(secs);
    if minutes > 0 {
        law_zero_padded_reads_back(secs, 2);
        assert(pow10(2) == 100) by {
            assert(pow10(1) == 10 * pow10(0));
            assert(pow10(2) == 10 * pow10(1));
        }
        let m = decimal(minutes);
        let z = zero_padded(secs, 2);
        assert(z.len() == 2);
        let k = label.len() - 3;
        assert(label == m + seq![':'] + z);
        assert(k == m.len());
        assert(label.take(k) =~= m);
        assert(label.skip(k + 1) =~= z);
        assert(label[k] == ':');
        if m.len() == 1 {
            assert(minutes < 10);
            lemma_digit_char(minutes as int);
        }
        assert(label[0] == m[0]);
    } else {
        assert(label.drop_last() =~= decimal(secs));
    }
}


/// A `MM:SS.mmm` label reads back as the milliseconds it was made from: at
/// least two digits of whole minutes (not reduced to an hour), `:`, two digits
/// of seconds below 60, `.` and three digits of milliseconds below 1000.
pub proof fn law_format_time_reads_back(total_ms: nat)
    ensures
        ({
            let label = spec_format_time_ms(total_ms);
            let k = label.len() - 7;
            let minutes = label.take(k);
            let secs = label.subrange(k + 1, k + 3);
            let millis = label.skip(k + 4);
            &&& k >= 2
            &&& label[k] == ':'
            &&& label[k + 3] == '.'
            &&& all_digits(minutes)
            &&& all_digits(secs)
            &&& all_digits(millis)
            &&& millis.len() == 3
            &&& read_decimal(secs) < 60
            &&& read_decimal(millis) < 1000
            &&& read_decimal(minutes) * 60000 + read_decimal(secs) * 1000 + read_decimal(millis)
                == total_ms
        }),
{
    let m = total_ms / 60000;
    let sec = (total_ms % 60000) / 1000;
    let ms = total_ms % 1000;
    assert(pow10(1) == 10 * pow10(0));
    assert(pow10(2) == 10 * pow10(1));
    assert(pow10(3) == 10 * pow10(2));
    law_zero_padded_reads_back(m, 2);
    law_zero_padded_reads_back(sec, 2);
    law_zero_padded_reads_back(ms, 3);
    let zm = zero_padded(m, 2);
    let zs = zero_padded(sec, 2);
    let zms = zero_padded(ms, 3);
    assert(zs.len() == 2);
    assert(zms.len() == 3);
    let label = spec_format_time_ms(total_ms);
    assert(label == zm + seq![':'] + zs + seq!['.'] + zms);
    let k = label.len() - 7;
    assert(k == zm.len());
    assert(label.take(k) =~= zm);
    assert(label.subrange(k + 1, k + 3) =~= zs);
    assert(label.skip(k + 4) =~= zms);
    assert(label[k] == ':');
    assert(label[k + 3] == '.');
    assert(m * 60000 + sec * 1000 + ms == total_ms);
}

} // verus!
