//! Text for the command line: clock times, progress bars, track labels, and
//! the number and clock parsers of the commands.
use vstd::prelude::*;
use vstd::string::*;

verus! {

/// The decimal digit character for `d < 10`.
pub open spec fn digit(d: nat) -> char {
    (48 + d) as char
}

/// The decimal digits of `n`, without leading zeros.
pub open spec fn dec(n: nat) -> Seq<char>
    decreases n,
{
    if n < 10 {
        seq![digit(n)]
    } else {
        dec(n / 10).push(digit(n % 10))
    }
}

fn digit_str(d: u64) -> (r: &'static str)
    requires
        d < 10,
    ensures
        r@ == seq![digit(d as nat)],
{
    if d == 0 {
        proof { reveal_strlit("0"); }
        "0"
    } else if d == 1 {
        proof { reveal_strlit("1"); }
        "1"
    } else if d == 2 {
        proof { reveal_strlit("2"); }
        "2"
    } else if d == 3 {
        proof { reveal_strlit("3"); }
        "3"
    } else if d == 4 {
        proof { reveal_strlit("4"); }
        "4"
    } else if d == 5 {
        proof { reveal_strlit("5"); }
        "5"
    } else if d == 6 {
        proof { reveal_strlit("6"); }
        "6"
    } else if d == 7 {
        proof { reveal_strlit("7"); }
        "7"
    } else if d == 8 {
        proof { reveal_strlit("8"); }
        "8"
    } else {
        proof { reveal_strlit("9"); }
        "9"
    }
}

/// `n` in decimal.
pub fn dec_string(n: u64) -> (r: String)
    ensures
        r@ == dec(n as nat),
    decreases n,
{
    if n < 10 {
        String::from_str(digit_str(n))
    } else {
        let mut s = dec_string(n / 10);
        s.append(digit_str(n % 10));
        s
    }
}

/// The clock text of `secs`: whole minutes, `:`, and two digits of seconds.
pub open spec fn clock(secs: nat) -> Seq<char> {
    dec(secs / 60) + seq![':', digit(secs % 60 / 10), digit(secs % 10)]
}

/// Minutes and seconds: `m:ss`.
pub fn fmt_time(secs: u64) -> (r: String)
    ensures
        r@ == clock(secs as nat),
{
    let mut s = dec_string(secs / 60);
    proof { reveal_strlit(":"); }
    s.append(":");
    s.append(digit_str(secs % 60 / 10));
    s.append(digit_str(secs % 10));
    proof {
        assert(secs % 60 % 10 == secs % 10);
    }
    s
}

/// Cells of a progress bar of `width` cells that are filled.
pub open spec fn bar_filled(pos: nat, total: nat, width: nat) -> nat {
    if total == 0 {
        0
    } else if pos * width / total > width {
        width
    } else {
        pos * width / total
    }
}

/// A progress bar: `[`, `#` for each filled cell, `-` for the rest, `]`.
pub fn fmt_bar(pos: u64, total: u64, width: usize) -> (r: String)
    requires
        pos * width <= u64::MAX,
    ensures
        r@ == seq!['['] + Seq::new(width as nat, |i: int| if i < bar_filled(pos as nat, total as nat, width as nat) {
            '#'
        } else {
            '-'
        }) + seq![']'],
{
    let filled: usize = if total == 0 {
        0
    } else {
        let f = pos * width as u64 / total;
        proof {
            vstd::arithmetic::div_mod::lemma_div_is_ordered_by_denominator((pos * width) as int, 1, total as int);
        }
        if f > width as u64 {
            width
        } else {
            f as usize
        }
    };
    let ghost cells = Seq::new(width as nat, |i: int| if i < filled { '#' } else { '-' });
    proof {
        reveal_strlit("[");
        reveal_strlit("]");
        reveal_strlit("#");
        reveal_strlit("-");
    }
    let mut s = String::from_str("[");
    let mut i: usize = 0;
    while i < width
        invariant
            i <= width,
            s@ =~= seq!['['] + cells.take(i as int),
            cells == Seq::new(width as nat, |i: int| if i < filled { '#' } else { '-' }),
        decreases width - i,
    {
        proof {
            reveal_strlit("#");
            reveal_strlit("-");
        }
        if i < filled {
            s.append("#");
        } else {
            s.append("-");
        }
        proof {
            assert(cells.take(i + 1) =~= cells.take(i as int).push(cells[i as int]));
        }
        i = i + 1;
    }
    s.append("]");
    proof {
        assert(cells.take(width as int) =~= cells);
    }
    s
}

/// The label of a track: its name, and its extension after a dot where it
/// has one.
pub fn fmt_label(name: &str, ext: &str) -> (r: String)
    ensures
        r@ == if ext@.len() == 0 { name@ } else { name@ + seq!['.'] + ext@ },
{
    if ext.unicode_len() == 0 {
        String::from_str(name)
    } else {
        let mut s = String::from_str(name);
        proof { reveal_strlit("."); }
        s.append(".");
        s.append(ext);
        s
    }
}

/// The first `n` characters of `s`.
pub fn truncate(s: &str, n: usize) -> (r: String)
    ensures
        r@ == s@.take(if n < s@.len() { n as int } else { s@.len() as int }),
{
    let len = s.unicode_len();
    let k = if n < len { n } else { len };
    String::from_str(s.substring_char(0, k))
}

/// The value of decimal digits.
pub open spec fn digits_value(s: Seq<char>) -> nat
    decreases s.len(),
{
    if s.len() == 0 {
        0
    } else {
        digits_value(s.drop_last()) * 10 + (s.last() as nat - 48) as nat
    }
}

pub open spec fn is_digit(c: char) -> bool {
    '0' <= c <= '9'
}

pub open spec fn all_digits(t: Seq<char>) -> bool {
    forall|i: int| 0 <= i < t.len() ==> is_digit(#[trigger] t[i])
}

/// The characters after an optional leading `+`.
pub open spec fn unsigned_digits(s: Seq<char>) -> Seq<char> {
    if s.len() > 0 && s[0] == '+' {
        s.drop_first()
    } else {
        s
    }
}

/// What parsing `s` as a `u64` gives: an optional `+`, then one or more
/// decimal digits whose value fits.
pub open spec fn parse_u64_spec(s: Seq<char>) -> Option<u64> {
    let t = unsigned_digits(s);
    if t.len() == 0 || !all_digits(t) || digits_value(t) > u64::MAX {
        None
    } else {
        Some(digits_value(t) as u64)
    }
}

proof fn lemma_digits_grow(t: Seq<char>, k: int)
    requires
        0 <= k < t.len(),
        forall|i: int| 0 <= i < t.len() ==> is_digit(#[trigger] t[i]),
    ensures
        digits_value(t.take(k)) <= digits_value(t),
    decreases t.len() - k,
{
    if k < t.len() - 1 {
        lemma_digits_grow(t.drop_last(), k);
        assert(t.drop_last().take(k) =~= t.take(k));
    } else {
        assert(t.take(k) =~= t.drop_last());
    }
}

/// Parses a decimal `u64`, as `str::parse` does.
pub fn parse_u64(s: &str) -> (r: Option<u64>)
    ensures
        r == parse_u64_spec(s@),
{
    let len = s.unicode_len();
    let start: usize = if len > 0 && s.get_char(0) == '+' { 1 } else { 0 };
    let ghost t = unsigned_digits(s@);
    proof {
        assert(t =~= s@.subrange(start as int, len as int));
    }
    if start == len {
        return None;
    }
    let mut v: u64 = 0;
    let mut i = start;
    while i < len
        invariant
            start <= i <= len,
            len == s@.len(),
            start == 0 || start == 1,
            t == s@.subrange(start as int, len as int),
            t == unsigned_digits(s@),
            forall|k: int| 0 <= k < i - start ==> is_digit(#[trigger] t[k]),
            v == digits_value(t.take(i - start)),
        decreases len - i,
    {
        let c = s.get_char(i);
        if !('0' <= c && c <= '9') {
            proof {
                assert(t[i - start] == c);
                assert(!is_digit(t[i - start]));
                assert(!all_digits(t));
            }
            return None;
        }
        let d = (c as u32 - 48) as u64;
        proof {
            assert(t.take(i + 1 - start).drop_last() =~= t.take(i - start));
            assert(t[i - start] == c);
        }
        if v > (u64::MAX - d) / 10 {
            proof {
                assert(digits_value(t.take(i + 1 - start)) > u64::MAX);
                if all_digits(t) {
                    if i + 1 - start < t.len() {
                        lemma_digits_grow(t, i + 1 - start);
                    } else {
                        assert(t.take(i + 1 - start) =~= t);
                    }
                }
            }
            return None;
        }
        v = v * 10 + d;
        i = i + 1;
    }
    proof {
        assert(t.take(len - start) =~= t);
    }
    Some(v)
}

/// The index of the first `:` in `s`.
pub open spec fn first_colon(s: Seq<char>) -> Option<int> {
    if exists|i: int| 0 <= i < s.len() && s[i] == ':' {
        Some(choose|i: int| 0 <= i < s.len() && s[i] == ':' && forall|j: int| 0 <= j < i ==> s[j] != ':')
    } else {
        None
    }
}

/// A clock time in seconds: `m:s`, or plain seconds; `None` where a part
/// does not parse or the total does not fit.
pub open spec fn parse_clock_spec(s: Seq<char>) -> Option<u64> {
    match first_colon(s) {
        Some(k) => match (parse_u64_spec(s.take(k)), parse_u64_spec(s.skip(k + 1))) {
            (Some(m), Some(sec)) => if m * 60 + sec <= u64::MAX {
                Some((m * 60 + sec) as u64)
            } else {
                None
            },
            _ => None,
        },
        None => parse_u64_spec(s),
    }
}

/// Parses `m:s` or plain seconds.
pub fn parse_clock(s: &str) -> (r: Option<u64>)
    ensures
        r == parse_clock_spec(s@),
{
    let len = s.unicode_len();
    let mut k: usize = 0;
    loop
        invariant
            k <= len == s@.len(),
            forall|j: int| 0 <= j < k ==> s@[j] != ':',
        ensures
            k <= len == s@.len(),
            forall|j: int| 0 <= j < k ==> s@[j] != ':',
            k < len ==> s@[k as int] == ':',
        decreases len - k,
    {
        if k == len {
            break;
        }
        if s.get_char(k) == ':' {
            break;
        }
        k = k + 1;
    }
    if k == len {
        proof {
            assert(!(exists|i: int| 0 <= i < s@.len() && s@[i] == ':'));
        }
        return parse_u64(s);
    }
    proof {
        assert(s@[k as int] == ':');
        let c = choose|i: int| 0 <= i < s@.len() && s@[i] == ':' && forall|j: int| 0 <= j < i ==> s@[j] != ':';
        assert(0 <= k < s@.len() && s@[k as int] == ':' && forall|j: int| 0 <= j < k ==> s@[j] != ':');
        if c < k {
            assert(s@[c] != ':');
        }
        if c > k {
        }
        assert(c == k);
    }
    let m = parse_u64(s.substring_char(0, k));
    let sec = parse_u64(s.substring_char(k + 1, len));
    proof {
        assert(s@.subrange(0, k as int) =~= s@.take(k as int));
        assert(s@.subrange(k + 1, len as int) =~= s@.skip(k + 1));
    }
    match (m, sec) {
        (Some(m), Some(sec)) => {
            if m > (u64::MAX - sec) / 60 {
                None
            } else {
                Some(m * 60 + sec)
            }
        },
        _ => None,
    }
}

/// The scale `s` with `2^52 <= rate * 2^s / 1000 < 2^53`: the nearest
/// double to `rate / 1000` is `round(rate * 2^s / 1000) * 2^-s`.
pub open spec fn rate_scale(rate: nat, s: nat) -> nat
    decreases 64 - s,
{
    if s >= 64 || rate * vstd::arithmetic::power2::pow2(s) >= 1000 * vstd::arithmetic::power2::pow2(52) {
        s
    } else {
        rate_scale(rate, s + 1)
    }
}

/// Where the nearest double to `rate / 1000` lies against it, as the
/// remainder of the scaled quotient: above 500 it was rounded up, 0 it is
/// exact.
pub open spec fn double_rem(rate: nat) -> nat {
    (rate * vstd::arithmetic::power2::pow2(rate_scale(rate, 0))) % 1000
}

/// `rate / 1000` rounded to tenths as the nearest double to it prints with
/// one decimal: below `.x5` down, above up, and on `.x5` as the double
/// falls; an exact `.x5` goes to the even tenth.
pub open spec fn rate_tenths(rate: nat) -> nat {
    let up = rate % 100 > 50 || (rate % 100 == 50 && (double_rem(rate) > 500 || (double_rem(rate) == 0
        && (rate / 100) % 2 == 1)));
    rate / 100 + if up { 1nat } else { 0nat }
}

/// A sample rate in kHz: whole kilohertz bare, else to one decimal.
pub open spec fn spec_fmt_rate(rate: nat) -> Seq<char> {
    if rate % 1000 == 0 {
        dec(rate / 1000) + seq!['k']
    } else {
        let t = rate_tenths(rate);
        dec(t / 10) + seq!['.', digit(t % 10), 'k']
    }
}

fn rate_rem(rate: u32) -> (r: u32)
    requires
        rate >= 1,
    ensures
        r == double_rem(rate as nat),
{
    let target: u128 = 1000u128 * 0x10_0000_0000_0000u128;
    let mut s: u32 = 0;
    let mut v: u128 = rate as u128;
    proof {
        vstd::arithmetic::power2::lemma2_to64();
        vstd::arithmetic::power2::lemma2_to64_rest();
    }
    while s < 64 && v < target
        invariant
            s <= 64,
            rate >= 1,
            target == 1000 * vstd::arithmetic::power2::pow2(52),
            target == 4503599627370496000,
            v == rate * vstd::arithmetic::power2::pow2(s as nat),
            v < 2 * target,
            rate_scale(rate as nat, 0) == rate_scale(rate as nat, s as nat),
        decreases 64 - s,
    {
        proof {
            vstd::arithmetic::power2::lemma_pow2_unfold((s + 1) as nat);
            assert(rate * vstd::arithmetic::power2::pow2((s + 1) as nat) == 2 * (rate * vstd::arithmetic::power2::pow2(s as nat))) by (nonlinear_arith)
                requires vstd::arithmetic::power2::pow2((s + 1) as nat) == 2 * vstd::arithmetic::power2::pow2(s as nat);
        }
        v = v * 2;
        s = s + 1;
    }
    (v % 1000) as u32
}

/// A sample rate in kHz, as `48k` or `44.1k`.
pub fn fmt_rate(rate: u32) -> (r: String)
    ensures
        r@ == spec_fmt_rate(rate as nat),
{
    proof {
        reveal_strlit("k");
        reveal_strlit(".");
    }
    if rate % 1000 == 0 {
        let mut s = dec_string((rate / 1000) as u64);
        s.append("k");
        return s;
    }
    let r2 = rate % 100;
    let up = r2 > 50 || (r2 == 50 && {
        let m = rate_rem(rate);
        m > 500 || (m == 0 && (rate / 100) % 2 == 1)
    });
    let t: u64 = (rate / 100) as u64 + if up { 1 } else { 0 };
    let mut s = dec_string(t / 10);
    s.append(".");
    s.append(digit_str(t % 10));
    s.append("k");
    s
}

proof fn lemma_digit_value(d: nat)
    requires
        d < 10,
    ensures
        digit(d) as nat == 48 + d,
{
    let c = digit(d);
    assert(c as u32 == 48 + d);
}

/// The digits of `n` are digits, none of them a sign, and read back as `n`.
proof fn lemma_dec_value(n: nat)
    ensures
        dec(n).len() >= 1,
        all_digits(dec(n)),
        dec(n)[0] != '+',
        digits_value(dec(n)) == n,
        forall|i: int| 0 <= i < dec(n).len() ==> #[trigger] dec(n)[i] != ':',
    decreases n,
{
    lemma_digit_value(n % 10);
    if n < 10 {
        assert(dec(n).drop_last() =~= Seq::<char>::empty());
        assert(digits_value(Seq::<char>::empty()) == 0);
    } else {
        lemma_dec_value(n / 10);
        let s = dec(n);
        assert(s.drop_last() =~= dec(n / 10));
        assert forall|i: int| 0 <= i < s.len() implies is_digit(#[trigger] s[i]) by {
            if i < s.len() - 1 {
                assert(s[i] == dec(n / 10)[i]);
            }
        }
    }
}

/// Clock text read back gives the seconds it was made from.
pub proof fn lemma_clock_round_trip(secs: u64)
    ensures
        parse_clock_spec(clock(secs as nat)) == Some(secs),
{
    let m = (secs / 60) as nat;
    let x = (secs % 60) as nat;
    let s = clock(secs as nat);
    let l = dec(m).len() as int;
    lemma_dec_value(m);
    assert(s[l] == ':');
    assert forall|j: int| 0 <= j < l implies s[j] != ':' by {
        assert(s[j] == dec(m)[j]);
    }
    let c = choose|i: int| 0 <= i < s.len() && s[i] == ':' && forall|j: int| 0 <= j < i ==> s[j] != ':';
    if c < l {
        assert(s[c] != ':');
    }
    assert(c == l);
    assert(first_colon(s) == Some(l));
    assert(s.take(l) =~= dec(m));
    let t = s.skip(l + 1);
    assert(t =~= seq![digit(x / 10), digit(secs as nat % 10)]);
    assert(secs as nat % 10 == x % 10);
    assert(unsigned_digits(t) =~= t);
    assert(t.drop_last() =~= seq![digit(x / 10)]);
    assert(seq![digit(x / 10)].drop_last() =~= Seq::<char>::empty());
    lemma_digit_value(x / 10);
    lemma_digit_value(x % 10);
    assert(digits_value(Seq::<char>::empty()) == 0);
    assert(digits_value(seq![digit(x / 10)]) == x / 10);
    assert(digits_value(t) == x);
    assert(unsigned_digits(dec(m)) =~= dec(m));
    assert(parse_u64_spec(s.take(l)) == Some(m as u64));
    assert(parse_u64_spec(t) == Some(x as u64));
}

proof fn lemma_digit(d: nat)
    requires
        d < 10,
    ensures
        digit(d) as nat == 48 + d,
        is_digit(digit(d)),
        digit(d) != ':',
        digit(d) != '+',
{
}

/// The decimal digits of `n` are digits, at least one, with no sign or
/// colon, and read back as `n`.
pub proof fn lemma_dec_reads_back(n: nat)
    ensures
        dec(n).len() >= 1,
        all_digits(dec(n)),
        digits_value(dec(n)) == n,
        forall|i: int| 0 <= i < dec(n).len() ==> #[trigger] dec(n)[i] != ':' && dec(n)[i] != '+',
    decreases n,
{
    if n < 10 {
        lemma_digit(n);
        assert(seq![digit(n)].drop_last() =~= Seq::<char>::empty());
        assert(digits_value(Seq::<char>::empty()) == 0);
        assert(dec(n).last() == digit(n));
        assert(digits_value(dec(n)) == digits_value(Seq::<char>::empty()) * 10 + (digit(n) as nat - 48) as nat);
    } else {
        lemma_dec_reads_back(n / 10);
        lemma_digit(n % 10);
        let t = dec(n / 10);
        assert(dec(n).drop_last() =~= t);
        assert(dec(n).last() == digit(n % 10));
        assert(digits_value(dec(n)) == digits_value(t) * 10 + (digit(n % 10) as nat - 48) as nat);
        assert forall|i: int| 0 <= i < dec(n).len() implies is_digit(#[trigger] dec(n)[i]) by {
            if i < t.len() {
                assert(dec(n)[i] == t[i]);
            }
        }
        assert forall|i: int| 0 <= i < dec(n).len() implies #[trigger] dec(n)[i] != ':' && dec(n)[i] != '+' by {
            if i < t.len() {
                assert(dec(n)[i] == t[i]);
            }
        }
    }
}

/// Whatever number is printed in decimal parses back to that number.
pub proof fn lemma_print_parse_u64(n: u64)
    ensures
        parse_u64_spec(dec(n as nat)) == Some(n),
{
    lemma_dec_reads_back(n as nat);
}

/// A clock time that `fmt_time` prints, `m:ss`, parses back to the same
/// number of seconds.
pub proof fn lemma_print_parse_clock(secs: u64)
    ensures
        parse_clock_spec(clock(secs as nat)) == Some(secs),
{
    let m = secs as nat / 60;
    let t = dec(m);
    lemma_dec_reads_back(m);
    let c = clock(secs as nat);
    let k = t.len() as int;
    lemma_digit(secs as nat % 60 / 10);
    lemma_digit(secs as nat % 10);
    assert(c[k] == ':');
    assert forall|j: int| 0 <= j < k implies c[j] != ':' by {
        assert(c[j] == t[j]);
    }
    let f = choose|i: int| 0 <= i < c.len() && c[i] == ':' && forall|j: int| 0 <= j < i ==> c[j] != ':';
    assert(f == k) by {
        if f < k {
            assert(c[f] == t[f]);
        }
        if f > k {
            assert(c[k] != ':');
        }
    }
    assert(first_colon(c) == Some(k));
    assert(c.take(k) =~= t);
    let u = seq![digit(secs as nat % 60 / 10), digit(secs as nat % 10)];
    assert(c.skip(k + 1) =~= u);
    assert(unsigned_digits(u) == u);
    assert(u.drop_last() =~= seq![digit(secs as nat % 60 / 10)]);
    assert(seq![digit(secs as nat % 60 / 10)].drop_last() =~= Seq::<char>::empty());
    assert(digits_value(Seq::<char>::empty()) == 0);
    assert(digits_value(seq![digit(secs as nat % 60 / 10)]) == secs as nat % 60 / 10);
    assert(u.last() == digit(secs as nat % 10));
    assert(digits_value(u) == (secs as nat % 60 / 10) * 10 + secs as nat % 10);
    assert(all_digits(u));
    assert(digits_value(u) == secs as nat % 60);
    assert(m * 60 + secs as nat % 60 == secs as nat);
    assert(unsigned_digits(t) == t);
}

/// The progress bar fills in proportion: of `width` cells, the largest
/// count whose share of the bar does not pass `pos / total`; all of it
/// once `pos` reaches `total`, none for an empty track.
pub proof fn lemma_bar_proportion(pos: nat, total: nat, width: nat)
    ensures
        bar_filled(pos, total, width) <= width,
        total == 0 ==> bar_filled(pos, total, width) == 0,
        (total > 0 && pos <= total) ==> bar_filled(pos, total, width) * total <= pos * width
            && pos * width < (bar_filled(pos, total, width) + 1) * total,
        (total > 0 && pos >= total) ==> bar_filled(pos, total, width) == width,
{
    if total > 0 {
        let f = pos * width / total;
        vstd::arithmetic::div_mod::lemma_fundamental_div_mod((pos * width) as int, total as int);
        vstd::arithmetic::div_mod::lemma_mod_bound((pos * width) as int, total as int);
        if pos <= total {
            assert(pos * width <= total * width) by (nonlinear_arith)
                requires pos <= total;
            vstd::arithmetic::div_mod::lemma_div_is_ordered((pos * width) as int, (total * width) as int, total as int);
            vstd::arithmetic::div_mod::lemma_div_multiples_vanish(width as int, total as int);
            assert(f * total <= pos * width && pos * width < (f + 1) * total) by (nonlinear_arith)
                requires pos * width == total * f + (pos * width) % total, 0 <= (pos * width) % total < total;
        }
        if pos >= total {
            assert(pos * width >= total * width) by (nonlinear_arith)
                requires pos >= total;
            vstd::arithmetic::div_mod::lemma_div_is_ordered((total * width) as int, (pos * width) as int, total as int);
            vstd::arithmetic::div_mod::lemma_div_multiples_vanish(width as int, total as int);
        }
    }
}

} // verus!
