//! Decimal digit runs: the shared model of how unsigned numbers are
//! rendered as, and read back from, runs of ASCII digit characters.

use vstd::prelude::*;

use crate::text::push_char;

verus! {

/// True of the ten ASCII digit characters.
pub open spec fn is_digit_char(c: char) -> bool {
    48 <= (c as u32) && (c as u32) <= 57
}

/// Numeric value of an ASCII digit character.
pub open spec fn digit_val(c: char) -> nat
    recommends
        is_digit_char(c),
{
    ((c as u32) - 48) as nat
}

/// The ASCII digit character with the given value.
pub open spec fn digit_char(d: nat) -> char
    recommends
        d < 10,
{
    if d == 0 {
        '0'
    } else if d == 1 {
        '1'
    } else if d == 2 {
        '2'
    } else if d == 3 {
        '3'
    } else if d == 4 {
        '4'
    } else if d == 5 {
        '5'
    } else if d == 6 {
        '6'
    } else if d == 7 {
        '7'
    } else if d == 8 {
        '8'
    } else {
        '9'
    }
}

/// The canonical decimal rendering of a number: most significant digit
/// first, a single `'0'` for zero, and no leading zeros otherwise.
pub open spec fn dec_rep(n: nat) -> Seq<char>
    decreases n,
{
    if n < 10 {
        seq![digit_char(n)]
    } else {
        dec_rep(n / 10).push(digit_char(n % 10))
    }
}

/// Value of a digit run read as a decimal number; an empty run has value 0.
pub open spec fn digits_val(s: Seq<char>) -> nat
    decreases s.len(),
{
    if s.len() == 0 {
        0
    } else {
        digits_val(s.drop_last()) * 10 + digit_val(s.last())
    }
}

/// True when every character of the run is an ASCII digit.
pub open spec fn all_digits(s: Seq<char>) -> bool {
    forall|i: int| 0 <= i < s.len() ==> is_digit_char(#[trigger] s[i])
}

/// The decimal rendering consists of digits, is non-empty, and has no
/// leading zero unless the number is zero itself.
pub proof fn lemma_dec_rep_shape(n: nat)
    ensures
        all_digits(dec_rep(n)),
        dec_rep(n).len() >= 1,
        dec_rep(n)[0] == '0' <==> n == 0,
    decreases n,
{
    if n < 10 {
        assert(dec_rep(n) =~= seq![digit_char(n)]);
    } else {
        lemma_dec_rep_shape(n / 10);
        assert forall|i: int| 0 <= i < dec_rep(n).len() implies is_digit_char(
            #[trigger] dec_rep(n)[i],
        ) by {
            if i < dec_rep(n / 10).len() {
                assert(dec_rep(n)[i] == dec_rep(n / 10)[i]);
            } else {
                assert(dec_rep(n)[i] == digit_char(n % 10));
            }
        }
        assert(dec_rep(n)[0] == dec_rep(n / 10)[0]);
    }
}

/// Reading back the decimal rendering of a number gives the number.
pub proof fn lemma_dec_rep_val(n: nat)
    ensures
        digits_val(dec_rep(n)) == n,
    decreases n,
{
    if n < 10 {
        let s = dec_rep(n);
        assert(s =~= seq![digit_char(n)]);
        assert(s.drop_last() =~= Seq::<char>::empty());
        assert(s.last() == digit_char(n));
        assert(digits_val(s) == digits_val(s.drop_last()) * 10 + digit_val(s.last()));
        assert(digits_val(s.drop_last()) == 0);
        assert(digit_val(digit_char(n)) == n);
        assert(digits_val(s) == n);
    } else {
        lemma_dec_rep_val(n / 10);
        let s = dec_rep(n);
        assert(s == dec_rep(n / 10).push(digit_char(n % 10)));
        assert(s.drop_last() =~= dec_rep(n / 10));
        assert(s.len() == dec_rep(n / 10).len() + 1);
        assert(s.last() == digit_char(n % 10));
        assert(digits_val(s) == digits_val(s.drop_last()) * 10 + digit_val(s.last()));
        assert(digit_val(digit_char((n % 10) as nat)) == n % 10);
        assert(digits_val(s) == (n / 10) * 10 + n % 10);
        assert(digits_val(s) == n);
    }
}

/// Appending one digit multiplies the run's value by ten and adds it.
pub proof fn lemma_digits_val_push(s: Seq<char>, c: char)
    ensures
        digits_val(s.push(c)) == digits_val(s) * 10 + digit_val(c),
{
    assert(s.push(c).drop_last() =~= s);
    assert(s.push(c).last() == c);
}

/// A digit run's value never falls when the run is extended to the right.
pub proof fn lemma_digits_val_take_le(s: Seq<char>, i: int)
    requires
        0 <= i <= s.len(),
    ensures
        digits_val(s.take(i)) <= digits_val(s),
    decreases s.len() - i,
{
    if i == s.len() {
        assert(s.take(i) =~= s);
    } else {
        assert(s.take(i + 1).drop_last() =~= s.take(i));
        assert(digits_val(s.take(i + 1)) == digits_val(s.take(i)) * 10 + digit_val(
            s.take(i + 1).last(),
        ));
        lemma_digits_val_take_le(s, i + 1);
    }
}

/// The ASCII digit character with the given value.
pub fn digit_char_of(d: u8) -> (r: char)
    requires
        d < 10,
    ensures
        r == digit_char(d as nat),
{
    match d {
        0 => '0',
        1 => '1',
        2 => '2',
        3 => '3',
        4 => '4',
        5 => '5',
        6 => '6',
        7 => '7',
        8 => '8',
        _ => '9',
    }
}

/// Numeric value of an ASCII digit character.
pub fn digit_val_of(c: char) -> (r: u8)
    requires
        is_digit_char(c),
    ensures
        r as nat == digit_val(c),
        r < 10,
{
    ((c as u32) - 48) as u8
}

/// Appends the canonical decimal rendering of `n` to the string.
pub fn push_dec(s: &mut String, n: u128)
    ensures
        final(s)@ == old(s)@ + dec_rep(n as nat),
    decreases n,
{
    if n < 10 {
        push_char(s, digit_char_of(n as u8));
        proof {
            assert(s@ =~= old(s)@ + dec_rep(n as nat));
        }
    } else {
        push_dec(s, n / 10);
        push_char(s, digit_char_of((n % 10) as u8));
        proof {
            assert(s@ =~= old(s)@ + dec_rep(n as nat));
        }
    }
}

/// Index just past the maximal run of ASCII digits starting at `i`.
pub open spec fn digit_run_end(cs: Seq<char>, i: int) -> int
    decreases cs.len() - i,
{
    if i < 0 || i >= cs.len() {
        i
    } else if is_digit_char(cs[i]) {
        digit_run_end(cs, i + 1)
    } else {
        i
    }
}

/// What an unsigned decimal field parses to: an optional leading plus
/// sign, then at least one digit, as Rust's integer parser accepts it.
pub open spec fn parse_uint_run(s: Seq<char>) -> Option<nat> {
    let t = if s.len() > 0 && s[0] == '+' {
        s.skip(1)
    } else {
        s
    };
    if t.len() > 0 && all_digits(t) {
        Some(digits_val(t))
    } else {
        None
    }
}

/// Positions at and after `i` are exactly the digit run and its end.
pub proof fn lemma_digit_run_end_props(cs: Seq<char>, i: int)
    requires
        0 <= i <= cs.len(),
    ensures
        i <= digit_run_end(cs, i) <= cs.len(),
        forall|x: int| i <= x < digit_run_end(cs, i) ==> is_digit_char(#[trigger] cs[x]),
        digit_run_end(cs, i) < cs.len() ==> !is_digit_char(cs[digit_run_end(cs, i)]),
    decreases cs.len() - i,
{
    if i < cs.len() && is_digit_char(cs[i]) {
        lemma_digit_run_end_props(cs, i + 1);
    }
}

/// A run of digits in `[i, k)` that is ended by `k` is the maximal run.
pub proof fn lemma_digit_run_end_exact(cs: Seq<char>, i: int, k: int)
    requires
        0 <= i <= k <= cs.len(),
        forall|x: int| i <= x < k ==> is_digit_char(#[trigger] cs[x]),
        k < cs.len() ==> !is_digit_char(cs[k]),
    ensures
        digit_run_end(cs, i) == k,
    decreases k - i,
{
    if i < k {
        lemma_digit_run_end_exact(cs, i + 1, k);
    }
}

/// The digit run is unchanged by dropping characters before its start.
pub proof fn lemma_digit_run_end_shift(cs: Seq<char>, i: int, p: int)
    requires
        0 <= i,
        0 <= p,
        i + p <= cs.len(),
    ensures
        digit_run_end(cs.skip(i), p) == digit_run_end(cs, i + p) - i,
    decreases cs.len() - i - p,
{
    let t = cs.skip(i);
    if i + p < cs.len() {
        assert(t[p] == cs[i + p]);
        if is_digit_char(cs[i + p]) {
            lemma_digit_run_end_shift(cs, i, p + 1);
        }
    }
}

/// Index just past the maximal run of ASCII digits starting at `from`.
pub fn scan_digits(s: &str, from: usize) -> (r: usize)
    requires
        from as int <= s@.len(),
    ensures
        r as int == digit_run_end(s@, from as int),
        from <= r <= s@.len(),
{
    let n = s.unicode_len();
    let mut j = from;
    while j < n
        invariant
            from <= j <= n,
            n == s@.len(),
            digit_run_end(s@, from as int) == digit_run_end(s@, j as int),
        decreases n - j,
    {
        let c = s.get_char(j);
        if !((c as u32) >= 48 && (c as u32) <= 57) {
            return j;
        }
        j += 1;
    }
    n
}

/// Parses the characters in `[i, j)` of `s` as an unsigned decimal field
/// of value at most `cap`, as Rust's unsigned parser accepts it: an
/// optional leading plus sign, then at least one digit.
#[verifier::loop_isolation(false)]
pub fn parse_uint_range(s: &str, i: usize, j: usize, cap: u64) -> (r: Option<u64>)
    requires
        i <= j,
        j as int <= s@.len(),
    ensures
        match parse_uint_run(s@.subrange(i as int, j as int)) {
            Some(v) => if v <= cap as nat {
                r matches Some(x) && x as nat == v
            } else {
                r is None
            },
            None => r is None,
        },
{
    let ghost run = s@.subrange(i as int, j as int);
    let mut p = i;
    if p < j && s.get_char(p) == '+' {
        p = p + 1;
    }
    let ghost t = if run.len() > 0 && run[0] == '+' {
        run.skip(1)
    } else {
        run
    };
    proof {
        assert(t =~= s@.subrange(p as int, j as int));
    }
    if p == j {
        return None;
    }
    let mut v: u128 = 0;
    let mut k = p;
    while k < j
        invariant
            p <= k <= j,
            j as int <= s@.len(),
            t == s@.subrange(p as int, j as int),
            all_digits(s@.subrange(p as int, k as int)),
            v as nat == digits_val(s@.subrange(p as int, k as int)),
            v <= cap as u128,
        decreases j - k,
    {
        let c = s.get_char(k);
        if !((c as u32) >= 48 && (c as u32) <= 57) {
            proof {
                assert(t[k - p] == c);
                assert(!all_digits(t));
            }
            return None;
        }
        let d = digit_val_of(c);
        let nv: u128 = v * 10 + (d as u128);
        proof {
            assert(s@.subrange(p as int, k as int + 1) =~= s@.subrange(p as int, k as int).push(
                c,
            ));
            lemma_digits_val_push(s@.subrange(p as int, k as int), c);
        }
        if nv > cap as u128 {
            proof {
                if all_digits(t) {
                    assert(t.take(k as int + 1 - p) =~= s@.subrange(p as int, k as int + 1));
                    lemma_digits_val_take_le(t, k as int + 1 - p);
                }
            }
            return None;
        }
        v = nv;
        k = k + 1;
    }
    proof {
        assert(s@.subrange(p as int, k as int) =~= t);
    }
    Some(v as u64)
}

/// The digit character of a digit's value is the digit itself.
pub proof fn lemma_digit_char_of_val(c: char)
    requires
        is_digit_char(c),
    ensures
        digit_char(digit_val(c)) == c,
{
    let d = digit_val(c);
    assert((digit_char(d) as u32) == (c as u32));
    vstd::utf8::char_u32_cast(c, c as u32);
    vstd::utf8::char_u32_cast(digit_char(d), digit_char(d) as u32);
}

/// A run with a non-zero leading digit has a positive value.
proof fn lemma_digits_val_pos(s: Seq<char>)
    requires
        all_digits(s),
        s.len() >= 1,
        s[0] != '0',
    ensures
        digits_val(s) >= 1,
    decreases s.len(),
{
    if s.len() == 1 {
        assert(s.drop_last() =~= Seq::<char>::empty());
        assert(s.last() == s[0]);
        assert(digit_val(s[0]) >= 1) by {
            if (s[0] as u32) == 48 {
                vstd::utf8::char_u32_cast(s[0], s[0] as u32);
                vstd::utf8::char_u32_cast('0', '0' as u32);
            }
        }
    } else {
        let s0 = s.drop_last();
        assert(all_digits(s0)) by {
            assert(forall|i: int| 0 <= i < s0.len() ==> s0[i] == s[i]);
        }
        assert(s0[0] == s[0]);
        lemma_digits_val_pos(s0);
    }
}

/// A non-empty all-digit run without a leading zero is the canonical
/// rendering of its value.
pub proof fn lemma_dec_rep_unique(s: Seq<char>)
    requires
        all_digits(s),
        s.len() >= 1,
        s[0] != '0',
    ensures
        dec_rep(digits_val(s)) == s,
    decreases s.len(),
{
    let v = digits_val(s);
    if s.len() == 1 {
        assert(s.drop_last() =~= Seq::<char>::empty());
        assert(s.last() == s[0]);
        assert(v == digit_val(s[0]));
        lemma_digit_char_of_val(s[0]);
        assert(dec_rep(v) =~= seq![digit_char(v)]);
        assert(seq![s[0]] =~= s);
    } else {
        let s0 = s.drop_last();
        assert(all_digits(s0)) by {
            assert(forall|i: int| 0 <= i < s0.len() ==> s0[i] == s[i]);
        }
        assert(s0[0] == s[0]);
        lemma_dec_rep_unique(s0);
        lemma_digits_val_pos(s0);
        let d = digit_val(s.last());
        assert(d < 10);
        assert(v == digits_val(s0) * 10 + d);
        assert(v >= 10);
        assert((digits_val(s0) * 10 + d) / 10 == digits_val(s0));
        assert((digits_val(s0) * 10 + d) % 10 == d);
        lemma_digit_char_of_val(s.last());
        assert(dec_rep(v) == dec_rep((v / 10) as nat).push(digit_char((v % 10) as nat)));
        assert(dec_rep(v) =~= s0.push(s.last()));
        assert(s0.push(s.last()) =~= s);
    }
}

/// The digit value a length byte denotes in byte-oriented framing: the
/// raw value 0 through 9, or the ASCII digit, mirroring the dual
/// acceptance of type bytes.
pub open spec fn bin_digit_of_byte(b: u8) -> Option<u8> {
    if b <= 9 {
        Some(b)
    } else if 0x30 <= b && b <= 0x39 {
        Some((b - 0x30) as u8)
    } else {
        None
    }
}

/// True of the bytes that denote a decimal digit.
pub open spec fn is_bin_digit(b: u8) -> bool {
    bin_digit_of_byte(b) is Some
}

/// Index just past the run of digit bytes starting at `i`.
pub open spec fn bin_digit_run_end(bs: Seq<u8>, i: int) -> int
    decreases bs.len() - i,
{
    if i < 0 || i >= bs.len() {
        i
    } else if is_bin_digit(bs[i]) {
        bin_digit_run_end(bs, i + 1)
    } else {
        i
    }
}

/// Value of a run of digit bytes read as a decimal number; an empty run
/// has value 0.
pub open spec fn bin_digits_val(s: Seq<u8>) -> nat
    decreases s.len(),
{
    if s.len() == 0 {
        0
    } else {
        bin_digits_val(s.drop_last()) * 10 + (match bin_digit_of_byte(s.last()) {
            Some(d) => d as nat,
            None => 0,
        })
    }
}

/// The canonical digit bytes of a number: raw digit values, most
/// significant first.
pub open spec fn bin_dec_rep(n: nat) -> Seq<u8>
    decreases n,
{
    if n < 10 {
        seq![n as u8]
    } else {
        bin_dec_rep(n / 10).push((n % 10) as u8)
    }
}

/// Positions at and after `i` are exactly the digit-byte run and its end.
pub proof fn lemma_bin_digit_run_end_props(bs: Seq<u8>, i: int)
    requires
        0 <= i <= bs.len(),
    ensures
        i <= bin_digit_run_end(bs, i) <= bs.len(),
        forall|x: int| i <= x < bin_digit_run_end(bs, i) ==> is_bin_digit(#[trigger] bs[x]),
        bin_digit_run_end(bs, i) < bs.len() ==> !is_bin_digit(bs[bin_digit_run_end(bs, i)]),
    decreases bs.len() - i,
{
    if i < bs.len() && is_bin_digit(bs[i]) {
        lemma_bin_digit_run_end_props(bs, i + 1);
    }
}

/// A run of digit bytes in `[i, k)` that is ended by `k` is the maximal
/// run.
pub proof fn lemma_bin_digit_run_end_exact(bs: Seq<u8>, i: int, k: int)
    requires
        0 <= i <= k <= bs.len(),
        forall|x: int| i <= x < k ==> is_bin_digit(#[trigger] bs[x]),
        k < bs.len() ==> !is_bin_digit(bs[k]),
    ensures
        bin_digit_run_end(bs, i) == k,
    decreases k - i,
{
    if i < k {
        lemma_bin_digit_run_end_exact(bs, i + 1, k);
    }
}

/// The digit-byte run is unchanged by dropping bytes before its start.
pub proof fn lemma_bin_digit_run_end_shift(bs: Seq<u8>, i: int, p: int)
    requires
        0 <= i,
        0 <= p,
        i + p <= bs.len(),
    ensures
        bin_digit_run_end(bs.skip(i), p) == bin_digit_run_end(bs, i + p) - i,
    decreases bs.len() - i - p,
{
    let t = bs.skip(i);
    if i + p < bs.len() {
        assert(t[p] == bs[i + p]);
        if is_bin_digit(bs[i + p]) {
            lemma_bin_digit_run_end_shift(bs, i, p + 1);
        }
    }
}

/// The canonical digit bytes consist of digits, are non-empty, and read
/// back as the number they render.
pub proof fn lemma_bin_dec_rep(n: nat)
    ensures
        forall|x: int| 0 <= x < bin_dec_rep(n).len() ==> is_bin_digit(#[trigger] bin_dec_rep(n)[x]),
        bin_dec_rep(n).len() >= 1,
        bin_digits_val(bin_dec_rep(n)) == n,
    decreases n,
{
    if n < 10 {
        let s = bin_dec_rep(n);
        assert(s =~= seq![n as u8]);
        assert(s.drop_last() =~= Seq::<u8>::empty());
        assert(s.last() == n as u8);
        assert(bin_digit_of_byte(n as u8) == Some(n as u8));
        assert(bin_digits_val(s) == bin_digits_val(s.drop_last()) * 10 + n);
        assert(bin_digits_val(s.drop_last()) == 0);
        assert(bin_digits_val(s) == n);
    } else {
        lemma_bin_dec_rep(n / 10);
        let s = bin_dec_rep(n);
        assert(s == bin_dec_rep(n / 10).push((n % 10) as u8));
        assert(s.drop_last() =~= bin_dec_rep(n / 10));
        assert(s.last() == (n % 10) as u8);
        assert forall|x: int| 0 <= x < s.len() implies is_bin_digit(#[trigger] s[x]) by {
            if x < bin_dec_rep(n / 10).len() {
                assert(s[x] == bin_dec_rep(n / 10)[x]);
            } else {
                assert(s[x] == (n % 10) as u8);
            }
        }
        assert(bin_digits_val(s) == bin_digits_val(s.drop_last()) * 10 + (n % 10));
        assert(bin_digits_val(s) == (n / 10) * 10 + n % 10);
        assert(bin_digits_val(s) == n);
    }
}

/// Appending one digit byte multiplies the run's value by ten and adds it.
pub proof fn lemma_bin_digits_val_push(s: Seq<u8>, b: u8)
    ensures
        bin_digits_val(s.push(b)) == bin_digits_val(s) * 10 + (match bin_digit_of_byte(b) {
            Some(d) => d as nat,
            None => 0,
        }),
{
    assert(s.push(b).drop_last() =~= s);
    assert(s.push(b).last() == b);
}

/// A digit-byte run's value never falls when the run is extended.
pub proof fn lemma_bin_digits_val_take_le(s: Seq<u8>, i: int)
    requires
        0 <= i <= s.len(),
    ensures
        bin_digits_val(s.take(i)) <= bin_digits_val(s),
    decreases s.len() - i,
{
    if i == s.len() {
        assert(s.take(i) =~= s);
    } else {
        assert(s.take(i + 1).drop_last() =~= s.take(i));
        assert(s.take(i + 1).last() == s[i]);
        assert(bin_digits_val(s.take(i + 1)) == bin_digits_val(s.take(i)) * 10 + (match
            bin_digit_of_byte(s[i]) {
            Some(d) => d as nat,
            None => 0,
        }));
        lemma_bin_digits_val_take_le(s, i + 1);
    }
}

/// A raw-digit run with a non-zero leading byte has a positive value.
proof fn lemma_bin_digits_val_pos(s: Seq<u8>)
    requires
        s.len() >= 1,
        forall|i: int| 0 <= i < s.len() ==> #[trigger] s[i] <= 9,
        s[0] != 0,
    ensures
        bin_digits_val(s) >= 1,
    decreases s.len(),
{
    if s.len() == 1 {
        assert(s.drop_last() =~= Seq::<u8>::empty());
        assert(s.last() == s[0]);
    } else {
        let s0 = s.drop_last();
        assert(forall|i: int| 0 <= i < s0.len() ==> s0[i] == s[i]);
        lemma_bin_digits_val_pos(s0);
    }
}

/// A non-empty raw-digit run without a leading zero is the canonical
/// rendering of its value.
pub proof fn lemma_bin_dec_rep_unique(s: Seq<u8>)
    requires
        s.len() >= 1,
        forall|i: int| 0 <= i < s.len() ==> #[trigger] s[i] <= 9,
        s[0] != 0,
    ensures
        bin_dec_rep(bin_digits_val(s)) == s,
    decreases s.len(),
{
    let v = bin_digits_val(s);
    if s.len() == 1 {
        assert(s.drop_last() =~= Seq::<u8>::empty());
        assert(s.last() == s[0]);
        assert(bin_digit_of_byte(s[0]) == Some(s[0]));
        assert(v == s[0]);
        assert(bin_dec_rep(v) =~= seq![v as u8]);
        assert(seq![s[0]] =~= s);
    } else {
        let s0 = s.drop_last();
        assert(forall|i: int| 0 <= i < s0.len() ==> s0[i] == s[i]);
        assert(s0[0] == s[0]);
        lemma_bin_dec_rep_unique(s0);
        lemma_bin_digits_val_pos(s0);
        let b = s.last();
        assert(bin_digit_of_byte(b) == Some(b));
        assert(v == bin_digits_val(s0) * 10 + b);
        assert(v >= 10);
        assert((bin_digits_val(s0) * 10 + b) / 10 == bin_digits_val(s0));
        assert((bin_digits_val(s0) * 10 + b) % 10 == b);
        assert(bin_dec_rep(v) == bin_dec_rep((v / 10) as nat).push((v % 10) as u8));
        assert(bin_dec_rep(v) =~= s0.push(b));
        assert(s0.push(b) =~= s);
    }
}

/// Appends the canonical digit bytes of `n` to the buffer.
pub fn push_bin_dec(out: &mut Vec<u8>, n: u128)
    ensures
        final(out)@ == old(out)@ + bin_dec_rep(n as nat),
    decreases n,
{
    if n < 10 {
        out.push(n as u8);
        proof {
            assert(out@ =~= old(out)@ + bin_dec_rep(n as nat));
        }
    } else {
        push_bin_dec(out, n / 10);
        out.push((n % 10) as u8);
        proof {
            assert(out@ =~= old(out)@ + bin_dec_rep(n as nat));
        }
    }
}

} // verus!
