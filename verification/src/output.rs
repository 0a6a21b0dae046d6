//! Text rendering for summary reports: byte sizes, thousands separators and
//! frequency bars.
use vstd::prelude::*;
use vstd::arithmetic::div_mod::lemma_div_denominator;
use vstd::arithmetic::div_mod::lemma_fundamental_div_mod;

use crate::text::push_char;

verus! {

/// The ASCII digit for `d` (`d < 10`).
pub open spec fn digit_char(d: nat) -> char {
    (48 + d) as char
}

/// The decimal representation of `n`, most significant digit first, without
/// leading zeros (`0` is written as a single `'0'`).
pub open spec fn decimal(n: nat) -> Seq<char>
    decreases n,
{
    if n < 10 {
        seq![digit_char(n)]
    } else {
        decimal(n / 10).push(digit_char(n % 10))
    }
}

/// `digits` with a `','` inserted before every group of three characters,
/// counted from the right.
pub open spec fn group_thousands(digits: Seq<char>) -> Seq<char>
    decreases digits.len(),
{
    if digits.len() <= 3 {
        digits
    } else {
        group_thousands(digits.take(digits.len() - 3)) + seq![','] + digits.skip(
            digits.len() - 3,
        )
    }
}

fn digit(d: u128) -> (c: char)
    requires
        d < 10,
    ensures
        c == digit_char(d as nat),
{
    let b: u8 = d as u8;
    (48u8 + b) as char
}

/// Appends the decimal digits of `n` to `out`.
fn push_decimal(out: &mut String, n: u128)
    ensures
        final(out)@ == old(out)@ + decimal(n as nat),
    decreases n,
{
    if n >= 10 {
        push_decimal(out, n / 10);
    }
    let c = digit(n % 10);
    push_char(out, c);
    proof {
        if n < 10 {
            assert(old(out)@ + decimal(n as nat) =~= old(out)@.push(c));
        } else {
            assert(old(out)@ + decimal(n as nat) =~= (old(out)@ + decimal((n / 10) as nat)).push(c));
        }
    }
}

/// The decimal digits of `n`.
fn decimal_chars(n: u128) -> (res: Vec<char>)
    ensures
        res@ == decimal(n as nat),
    decreases n,
{
    let mut v = if n >= 10 {
        decimal_chars(n / 10)
    } else {
        Vec::new()
    };
    v.push(digit(n % 10));
    proof {
        if n < 10 {
            assert(v@ =~= decimal(n as nat));
        }
    }
    v
}

/// Appends `group_thousands(digits[..end])` to `out`.
fn push_grouped(out: &mut String, digits: &Vec<char>, end: usize)
    requires
        end <= digits.len(),
    ensures
        final(out)@ == old(out)@ + group_thousands(digits@.take(end as int)),
    decreases end,
{
    let ghost d = digits@.take(end as int);
    if end <= 3 {
        let mut i: usize = 0;
        while i < end
            invariant
                i <= end <= digits.len(),
                d == digits@.take(end as int),
                out@ == old(out)@ + d.take(i as int),
            decreases end - i,
        {
            push_char(out, digits[i]);
            i = i + 1;
            assert(d.take(i as int) =~= d.take(i - 1).push(digits@[i - 1]));
        }
        assert(d.take(end as int) =~= d);
    } else {
        push_grouped(out, digits, end - 3);
        push_char(out, ',');
        push_char(out, digits[end - 3]);
        push_char(out, digits[end - 2]);
        push_char(out, digits[end - 1]);
        assert(d.take(d.len() - 3) =~= digits@.take(end - 3));
        assert(d.skip(d.len() - 3) =~= seq![digits@[end - 3], digits@[end - 2], digits@[end - 1]]);
        assert(final(out)@ =~= old(out)@ + group_thousands(d));
    }
}

/// Formats `n` with thousands separators, e.g. 1234567 as "1,234,567".
pub fn format_number(n: u64) -> (res: String)
    ensures
        res@ == group_thousands(decimal(n as nat)),
{
    let digits = decimal_chars(n as u128);
    let mut out = String::new();
    push_grouped(&mut out, &digits, digits.len());
    assert(digits@.take(digits.len() as int) =~= digits@);
    assert(out@ =~= group_thousands(decimal(n as nat)));
    out
}

/// The spacing of `f64` values around the integer `n`: 1 below 2^53, doubling
/// with each further bit of `n`.
pub open spec fn f64_spacing(n: nat) -> nat
    decreases n,
{
    if n < 0x20_0000_0000_0000 {
        1
    } else {
        2 * f64_spacing(n / 2)
    }
}

/// `n` rounded to the nearest `f64` value, ties to even: the value of
/// `n as f64` for an integer `n`.
pub open spec fn nearest_f64(n: nat) -> nat {
    let u = f64_spacing(n);
    let q = n / u;
    let r = n % u;
    let q2 = if 2 * r > u || (2 * r == u && q % 2 == 1) {
        q + 1
    } else {
        q
    };
    q2 * u
}

/// `v / den` rounded to hundredths, ties to even, counted in hundredths.
pub open spec fn hundredths(v: nat, den: nat) -> nat {
    let q = (v * 100) / den;
    let r = (v * 100) % den;
    if 2 * r > den || (2 * r == den && q % 2 == 1) {
        q + 1
    } else {
        q
    }
}

/// A count of hundredths written with two decimals, e.g. 233 as "2.33".
pub open spec fn two_decimals(h: nat) -> Seq<char> {
    decimal(h / 100) + seq!['.', digit_char((h % 100) / 10), digit_char(h % 10)]
}

pub open spec fn kib() -> nat {
    1024
}

pub open spec fn mib() -> nat {
    1024 * 1024
}

pub open spec fn gib() -> nat {
    1024 * 1024 * 1024
}

/// The human-readable size of `bytes`: below 1 KiB the exact count with " B",
/// otherwise the value of `bytes as f64` divided by the largest of KiB, MiB
/// and GiB that does not exceed it, with two decimals and " KB", " MB" or
/// " GB".
pub open spec fn byte_size_text(bytes: nat) -> Seq<char> {
    let v = nearest_f64(bytes);
    if v >= gib() {
        two_decimals(hundredths(v, gib())) + seq![' ', 'G', 'B']
    } else if v >= mib() {
        two_decimals(hundredths(v, mib())) + seq![' ', 'M', 'B']
    } else if v >= kib() {
        two_decimals(hundredths(v, kib())) + seq![' ', 'K', 'B']
    } else {
        decimal(bytes) + seq![' ', 'B']
    }
}

/// `text` is the count of hundredths `h` written with exactly two decimals,
/// followed by `unit`.
pub open spec fn written_in_hundredths(text: Seq<char>, h: nat, unit: Seq<char>) -> bool {
    text == decimal(h / 100) + seq!['.', digit_char((h % 100) / 10), digit_char(h % 10)] + unit
}

/// `h` hundredths are within half a hundredth of `n / den`.
pub open spec fn near_hundredths(h: nat, n: nat, den: nat) -> bool {
    2 * h * den <= 200 * n + den && 200 * n <= 2 * h * den + den
}

proof fn lemma_nearest_exact(n: nat)
    requires
        n < 0x20_0000_0000_0000,
    ensures
        nearest_f64(n) == n,
{
    assert(f64_spacing(n) == 1);
}

proof fn lemma_hundredths_near(v: nat, den: nat)
    requires
        den >= 1,
    ensures
        near_hundredths(hundredths(v, den), v, den),
{
    let num = (v * 100) as int;
    let d = den as int;
    let q = num / d;
    let r = num % d;
    lemma_fundamental_div_mod(num, d);
    let h = hundredths(v, den) as int;
    if 2 * r > d || (2 * r == d && q % 2 == 1) {
        assert(h == q + 1);
        assert(2 * h * d <= 2 * num + d && 2 * num <= 2 * h * d + d) by (nonlinear_arith)
            requires
                h == q + 1,
                num == d * q + r,
                2 * r >= d,
                0 <= r < d,
        ;
    } else {
        assert(h == q);
        assert(2 * h * d <= 2 * num + d && 2 * num <= 2 * h * d + d) by (nonlinear_arith)
            requires
                h == q,
                num == d * q + r,
                2 * r <= d,
                0 <= r < d,
        ;
    }
}

proof fn lemma_spacing_positive(n: nat)
    ensures
        f64_spacing(n) >= 1,
    decreases n,
{
    if n >= 0x20_0000_0000_0000 {
        lemma_spacing_positive(n / 2);
    }
}

/// `nearest_f64(n)` is a multiple of the spacing of `f64` values at `n` and
/// lies within half a spacing of `n`; below 2^53 it is `n` itself.
pub proof fn lemma_nearest_f64_close(n: nat)
    ensures
        nearest_f64(n) % f64_spacing(n) == 0,
        2 * nearest_f64(n) <= 2 * n + f64_spacing(n),
        2 * n <= 2 * nearest_f64(n) + f64_spacing(n),
        n < 0x20_0000_0000_0000 ==> nearest_f64(n) == n,
{
    lemma_spacing_positive(n);
    let u = f64_spacing(n) as int;
    let q = (n as int) / u;
    let r = (n as int) % u;
    lemma_fundamental_div_mod(n as int, u);
    let v = nearest_f64(n) as int;
    let q2 = if 2 * r > u || (2 * r == u && q % 2 == 1) { q + 1 } else { q };
    assert(v == q2 * u);
    vstd::arithmetic::div_mod::lemma_mod_multiples_basic(q2, u);
    assert(2 * v <= 2 * n + u && 2 * n <= 2 * v + u) by (nonlinear_arith)
        requires
            v == q2 * u,
            n == u * q + r,
            0 <= r < u,
            q2 == q + 1 ==> 2 * r >= u,
            q2 == q ==> 2 * r <= u,
            q2 == q || q2 == q + 1,
    ;
    if n < 0x20_0000_0000_0000 {
        lemma_nearest_exact(n);
    }
}

/// For any byte count, with `v` the value of `bytes as f64`: at or above
/// 1 KiB the text is a number with exactly two decimals, within half a
/// hundredth of `v` divided by the largest of KiB, MiB and GiB not above `v`,
/// followed by that unit; below it, the exact count with " B".
pub proof fn lemma_byte_size_text_any(bytes: nat)
    ensures
        nearest_f64(bytes) < 1024 ==> byte_size_text(bytes) == decimal(bytes) + seq![' ', 'B'],
        1024 <= nearest_f64(bytes) < 0x10_0000 ==> exists|h: nat|
            written_in_hundredths(byte_size_text(bytes), h, seq![' ', 'K', 'B']) && near_hundredths(
                h,
                nearest_f64(bytes),
                1024,
            ),
        0x10_0000 <= nearest_f64(bytes) < 0x4000_0000 ==> exists|h: nat|
            written_in_hundredths(byte_size_text(bytes), h, seq![' ', 'M', 'B']) && near_hundredths(
                h,
                nearest_f64(bytes),
                0x10_0000,
            ),
        0x4000_0000 <= nearest_f64(bytes) ==> exists|h: nat|
            written_in_hundredths(byte_size_text(bytes), h, seq![' ', 'G', 'B']) && near_hundredths(
                h,
                nearest_f64(bytes),
                0x4000_0000,
            ),
{
    let v = nearest_f64(bytes);
    if v >= 0x4000_0000 {
        let h = hundredths(v, gib());
        lemma_hundredths_near(v, gib());
        assert(written_in_hundredths(byte_size_text(bytes), h, seq![' ', 'G', 'B']));
    } else if v >= 0x10_0000 {
        let h = hundredths(v, mib());
        lemma_hundredths_near(v, mib());
        assert(written_in_hundredths(byte_size_text(bytes), h, seq![' ', 'M', 'B']));
    } else if v >= 1024 {
        let h = hundredths(v, kib());
        lemma_hundredths_near(v, kib());
        assert(written_in_hundredths(byte_size_text(bytes), h, seq![' ', 'K', 'B']));
    }
}

/// Below 2^53 bytes (where `bytes as f64` is exact), a size under 1 KiB is
/// the exact count with " B", and a larger one is a number with exactly two
/// decimals, within half a hundredth of `bytes` divided by the largest of
/// KiB, MiB and GiB not above it, followed by that unit.
pub proof fn lemma_byte_size_text_value(bytes: nat)
    requires
        bytes < 0x20_0000_0000_0000,
    ensures
        bytes < 1024 ==> byte_size_text(bytes) == decimal(bytes) + seq![' ', 'B'],
        1024 <= bytes < 0x10_0000 ==> exists|h: nat|
            written_in_hundredths(byte_size_text(bytes), h, seq![' ', 'K', 'B']) && near_hundredths(h, bytes, 1024),
        0x10_0000 <= bytes < 0x4000_0000 ==> exists|h: nat|
            written_in_hundredths(byte_size_text(bytes), h, seq![' ', 'M', 'B']) && near_hundredths(
                h,
                bytes,
                0x10_0000,
            ),
        0x4000_0000 <= bytes ==> exists|h: nat|
            written_in_hundredths(byte_size_text(bytes), h, seq![' ', 'G', 'B']) && near_hundredths(
                h,
                bytes,
                0x4000_0000,
            ),
{
    lemma_nearest_exact(bytes);
    if bytes >= 0x4000_0000 {
        let h = hundredths(bytes, gib());
        lemma_hundredths_near(bytes, gib());
        assert(written_in_hundredths(byte_size_text(bytes), h, seq![' ', 'G', 'B']));
    } else if bytes >= 0x10_0000 {
        let h = hundredths(bytes, mib());
        lemma_hundredths_near(bytes, mib());
        assert(written_in_hundredths(byte_size_text(bytes), h, seq![' ', 'M', 'B']));
    } else if bytes >= 1024 {
        let h = hundredths(bytes, kib());
        lemma_hundredths_near(bytes, kib());
        assert(written_in_hundredths(byte_size_text(bytes), h, seq![' ', 'K', 'B']));
    }
}

/// The number that a sequence of decimal digits denotes.
pub open spec fn digits_value(s: Seq<char>) -> int
    decreases s.len(),
{
    if s.len() == 0 {
        0
    } else {
        10 * digits_value(s.drop_last()) + (s.last() as int - 48)
    }
}

/// `decimal(n)` denotes `n` and has no leading zero (only `0` itself starts
/// with `'0'`).
pub proof fn lemma_decimal_value(n: nat)
    ensures
        digits_value(decimal(n)) == n,
        decimal(n)[0] == '0' ==> n == 0,
        decimal(n).len() >= 1,
    decreases n,
{
    assert(digit_char(n % 10) as int == 48 + n % 10);
    if n >= 10 {
        lemma_decimal_value(n / 10);
        assert(decimal(n).drop_last() == decimal(n / 10));
        assert(decimal(n)[0] == decimal(n / 10)[0]);
        assert(decimal(n).last() == digit_char(n % 10));
        assert(digits_value(decimal(n)) == 10 * digits_value(decimal(n / 10)) + (n % 10));
    } else {
        assert(decimal(n).last() == digit_char(n));
        assert(digits_value(decimal(n)) == 10 * digits_value(decimal(n).drop_last()) + n);
        assert(decimal(n).drop_last() =~= Seq::<char>::empty());
        assert(digit_char(n) as int == 48 + n);
    }
}

/// In a grouped number the commas stand exactly every four places from the
/// right, never first: position `j` holds a comma exactly when `j > 0` and
/// the number of places from `j` to the end is a multiple of four.
pub proof fn lemma_group_thousands_commas(digits: Seq<char>)
    requires
        digits.len() >= 1,
        forall|i: int| 0 <= i < digits.len() ==> #[trigger] digits[i] != ',',
    ensures
        group_thousands(digits).len() == digits.len() + (digits.len() - 1) / 3,
        forall|j: int|
            0 <= j < group_thousands(digits).len() ==> (#[trigger] group_thousands(digits)[j] == ','
                <==> (j > 0 && (group_thousands(digits).len() - j) % 4 == 0)),
    decreases digits.len(),
{
    if digits.len() > 3 {
        let head = digits.take(digits.len() - 3);
        let tail = digits.skip(digits.len() - 3);
        lemma_group_thousands_commas(head);
        let g = group_thousands(head);
        let r = group_thousands(digits);
        assert(r == g + seq![','] + tail);
        assert forall|j: int| 0 <= j < r.len() implies (#[trigger] r[j] == ',' <==> (j > 0 && (r.len() - j) % 4 == 0)) by {
            if j < g.len() {
                assert(r[j] == g[j]);
            } else if j > g.len() {
                assert(r[j] == tail[j - g.len() - 1]);
            }
        }
    }
}

/// The value of `n as f64`, as an integer.
fn to_f64_value(n: u64) -> (v: u128)
    ensures
        v == nearest_f64(n as nat),
        v <= 0x2_0000_0000_0000_0000,
{
    let ghost nn = n as nat;
    let mut p: u128 = 1;
    let mut m: u128 = n as u128;
    while m >= 0x20_0000_0000_0000
        invariant
            1 <= p,
            m == nn / (p as nat),
            m * p <= nn,
            f64_spacing(nn) == p * f64_spacing(m as nat),
            nn < 0x1_0000_0000_0000_0000,
            p <= 4096,
        decreases m,
    {
        proof {
            lemma_div_denominator(nn as int, p as int, 2);
            assert(m * p >= 0x20_0000_0000_0000 * p) by (nonlinear_arith)
                requires
                    m >= 0x20_0000_0000_0000,
                    p >= 1,
            ;
            assert(p < 2048) by (nonlinear_arith)
                requires
                    0x20_0000_0000_0000 * p <= nn,
                    nn < 0x1_0000_0000_0000_0000,
            ;
            lemma_fundamental_div_mod(nn as int, (p * 2) as int);
            let ghost ni = nn as int;
            let ghost d = (p * 2) as int;
            assert((m / 2) * d <= ni) by (nonlinear_arith)
                requires
                    (m / 2) == ni / d,
                    ni == d * (ni / d) + ni % d,
                    ni % d >= 0,
            ;
        }
        proof {
            let s2 = f64_spacing((m / 2) as nat);
            assert(p * (2 * s2) == (p * 2) * s2) by (nonlinear_arith);
        }
        m = m / 2;
        p = p * 2;
    }
    assert(f64_spacing(m as nat) == 1);
    let u = p;
    let q = (n as u128) / u;
    let r = (n as u128) % u;
    let q2 = if 2 * r > u || (2 * r == u && q % 2 == 1) {
        q + 1
    } else {
        q
    };
    assert(f64_spacing(nn) == u) by (nonlinear_arith)
        requires
            f64_spacing(nn) == p * f64_spacing(m as nat),
            f64_spacing(m as nat) == 1,
            u == p,
    ;
    assert(q2 * u <= 0x2_0000_0000_0000_0000) by (nonlinear_arith)
        requires
            q2 <= 0x20_0000_0000_0000,
            u <= 4096,
    ;
    q2 * u
}

/// Appends `two_decimals(h)` to `out`.
fn push_two_decimals(out: &mut String, h: u128)
    ensures
        final(out)@ == old(out)@ + two_decimals(h as nat),
{
    push_decimal(out, h / 100);
    push_char(out, '.');
    let tens = digit((h % 100) / 10);
    let units = digit(h % 10);
    push_char(out, tens);
    push_char(out, units);
    assert(final(out)@ =~= old(out)@ + two_decimals(h as nat));
}

/// `v / den` in hundredths, rounded half to even.
fn scaled_hundredths(v: u128, den: u128) -> (h: u128)
    requires
        v <= 0x2_0000_0000_0000_0000,
        1 <= den <= 0x4000_0000,
    ensures
        h == hundredths(v as nat, den as nat),
{
    let num = v * 100;
    let q = num / den;
    let r = num % den;
    assert(q <= num) by {
        vstd::arithmetic::div_mod::lemma_div_is_ordered_by_denominator(num as int, 1, den as int);
    }
    if 2 * r > den || (2 * r == den && q % 2 == 1) {
        q + 1
    } else {
        q
    }
}

/// Formats a byte count as a human-readable size, e.g. 1024 as "1.00 KB".
pub fn format_bytes(bytes: u64) -> (res: String)
    ensures
        res@ == byte_size_text(bytes as nat),
{
    let v = to_f64_value(bytes);
    let mut out = String::new();
    if v >= 1073741824 {
        let h = scaled_hundredths(v, 1073741824);
        push_two_decimals(&mut out, h);
        push_char(&mut out, ' ');
        push_char(&mut out, 'G');
        push_char(&mut out, 'B');
    } else if v >= 1048576 {
        let h = scaled_hundredths(v, 1048576);
        push_two_decimals(&mut out, h);
        push_char(&mut out, ' ');
        push_char(&mut out, 'M');
        push_char(&mut out, 'B');
    } else if v >= 1024 {
        let h = scaled_hundredths(v, 1024);
        push_two_decimals(&mut out, h);
        push_char(&mut out, ' ');
        push_char(&mut out, 'K');
        push_char(&mut out, 'B');
    } else {
        push_decimal(&mut out, bytes as u128);
        push_char(&mut out, ' ');
        push_char(&mut out, 'B');
    }
    assert(out@ =~= byte_size_text(bytes as nat));
    out
}


/// The character of a filled bar cell (U+2588, full block).
pub open spec fn full_cell() -> char {
    '\u{2588}'
}

/// The character of an empty bar cell (U+2591, light shade).
pub open spec fn empty_cell() -> char {
    '\u{2591}'
}

/// A bar of `width` cells of which the first `filled` are full; a bar with
/// more filled cells than its width is all full cells.
pub open spec fn bar_text(filled: nat, width: nat) -> Seq<char> {
    Seq::new(filled, |i: int| full_cell()) + Seq::new(
        if width > filled {
            (width - filled) as nat
        } else {
            0
        },
        |i: int| empty_cell(),
    )
}

/// Renders a horizontal bar: `filled` full cells followed by empty cells up
/// to `width` cells in all.
pub fn render_bar_cells(filled: usize, width: usize) -> (res: String)
    ensures
        res@ == bar_text(filled as nat, width as nat),
{
    let mut out = String::new();
    let mut i: usize = 0;
    while i < filled
        invariant
            i <= filled,
            out@ == Seq::new(i as nat, |k: int| full_cell()),
        decreases filled - i,
    {
        push_char(&mut out, '\u{2588}');
        i = i + 1;
        assert(out@ =~= Seq::new(i as nat, |k: int| full_cell()));
    }
    let empty = width.saturating_sub(filled);
    let mut j: usize = 0;
    while j < empty
        invariant
            j <= empty,
            empty == (if width > filled { (width - filled) as nat } else { 0 }),
            out@ == Seq::new(filled as nat, |k: int| full_cell()) + Seq::new(j as nat, |k: int| empty_cell()),
        decreases empty - j,
    {
        push_char(&mut out, '\u{2591}');
        j = j + 1;
        assert(out@ =~= Seq::new(filled as nat, |k: int| full_cell()) + Seq::new(j as nat, |k: int| empty_cell()));
    }
    out
}


/// A bar's first `filled` cells are full and the rest, up to `width`, are
/// empty.
pub proof fn lemma_bar_cells(filled: nat, width: nat)
    ensures
        bar_text(filled, width).len() == if filled > width { filled } else { width },
        forall|i: int|
            0 <= i < bar_text(filled, width).len() ==> #[trigger] bar_text(filled, width)[i] == if i
                < filled {
                full_cell()
            } else {
                empty_cell()
            },
{
}

/// A bar whose filled cells do not exceed its width has exactly `width`
/// cells, `filled` of them full.
pub proof fn lemma_bar_width(filled: nat, width: nat)
    requires
        filled <= width,
    ensures
        bar_text(filled, width).len() == width,
        bar_text(filled, width).filter(|c: char| c == full_cell()).len() == filled,
{
    let full = Seq::new(filled, |i: int| full_cell());
    let empty = Seq::new((width - filled) as nat, |i: int| empty_cell());
    let p = |c: char| c == full_cell();
    Seq::filter_distributes_over_add(full, empty, p);
    assert(full.filter(p) =~= full) by {
        lemma_filter_all(full, p);
    }
    assert(empty.filter(p) =~= Seq::<char>::empty()) by {
        lemma_filter_none(empty, p);
    }
}

proof fn lemma_filter_all(s: Seq<char>, p: spec_fn(char) -> bool)
    requires
        forall|i: int| 0 <= i < s.len() ==> p(s[i]),
    ensures
        s.filter(p) == s,
    decreases s.len(),
{
    reveal(Seq::filter);
    if s.len() > 0 {
        lemma_filter_all(s.drop_last(), p);
        assert(s.drop_last().push(s.last()) =~= s);
    }
}

proof fn lemma_filter_none(s: Seq<char>, p: spec_fn(char) -> bool)
    requires
        forall|i: int| 0 <= i < s.len() ==> !p(s[i]),
    ensures
        s.filter(p) == Seq::<char>::empty(),
    decreases s.len(),
{
    reveal(Seq::filter);
    if s.len() > 0 {
        lemma_filter_none(s.drop_last(), p);
    }
}

/// Every character of a decimal representation is a digit.
pub proof fn lemma_decimal_digits(n: nat)
    ensures
        forall|i: int| 0 <= i < decimal(n).len() ==> '0' <= #[trigger] decimal(n)[i] <= '9',
        decimal(n).len() >= 1,
    decreases n,
{
    if n >= 10 {
        lemma_decimal_digits(n / 10);
    }
}

/// Grouping inserts only commas: removing them gives back the digits.
pub proof fn lemma_ungroup(digits: Seq<char>)
    requires
        forall|i: int| 0 <= i < digits.len() ==> #[trigger] digits[i] != ',',
    ensures
        group_thousands(digits).filter(|c: char| c != ',') == digits,
    decreases digits.len(),
{
    let p = |c: char| c != ',';
    if digits.len() <= 3 {
        lemma_filter_all(digits, p);
    } else {
        let head = digits.take(digits.len() - 3);
        let tail = digits.skip(digits.len() - 3);
        lemma_ungroup(head);
        Seq::filter_distributes_over_add(group_thousands(head) + seq![','], tail, p);
        Seq::filter_distributes_over_add(group_thousands(head), seq![','], p);
        lemma_filter_none(seq![','], p);
        lemma_filter_all(tail, p);
        assert(head + tail =~= digits);
    }
}

/// Formatting a number and removing its commas gives its decimal digits.
pub proof fn lemma_format_number_digits(n: nat)
    ensures
        group_thousands(decimal(n)).filter(|c: char| c != ',') == decimal(n),
{
    lemma_decimal_digits(n);
    lemma_ungroup(decimal(n));
}

} // verus!
