//! Text helpers: decoding stored names and building display paths.
use vstd::prelude::*;
use vstd::utf8::*;

verus! {

/// Characters that `String::from_utf8_lossy` produces for a byte sequence.
pub uninterp spec fn lossy_text(b: Seq<u8>) -> Seq<char>;

/// `String::push` appends one character.
pub assume_specification[ String::push ](s: &mut String, ch: char)
    ensures
        final(s)@ == old(s)@.push(ch),
;

/// Calls `String::from_utf8_lossy` and takes ownership of the result. The
/// result is named by `lossy_text`; for valid UTF-8 input, std documents that
/// the text is the input decoded unchanged.
#[verifier::external_body]
pub(crate) fn text_from_bytes(b: &[u8]) -> (s: String)
    ensures
        s@ == lossy_text(b@),
        valid_utf8(b@) ==> s@ == decode_utf8(b@),
{
    String::from_utf8_lossy(b).into_owned()
}

/// The character for a decimal digit.
pub open spec fn digit_char(d: nat) -> char {
    if d == 0 { '0' } else if d == 1 { '1' } else if d == 2 { '2' } else if d == 3 { '3' }
    else if d == 4 { '4' } else if d == 5 { '5' } else if d == 6 { '6' } else if d == 7 { '7' }
    else if d == 8 { '8' } else { '9' }
}

/// Decimal representation of `n` without leading zeros.
pub open spec fn decimal(n: nat) -> Seq<char>
    decreases n,
{
    if n < 10 { seq![digit_char(n)] } else { decimal(n / 10).push(digit_char(n % 10)) }
}

/// Decimal representation of `n`, left-padded with zeros to at least `width` characters.
pub open spec fn decimal_padded(n: nat, width: nat) -> Seq<char> {
    let d = decimal(n);
    if d.len() >= width { d } else { Seq::new((width - d.len()) as nat, |i: int| '0') + d }
}

fn digit(d: u64) -> (c: char)
    requires
        d < 10,
    ensures
        c == digit_char(d as nat),
{
    if d == 0 { '0' } else if d == 1 { '1' } else if d == 2 { '2' } else if d == 3 { '3' }
    else if d == 4 { '4' } else if d == 5 { '5' } else if d == 6 { '6' } else if d == 7 { '7' }
    else if d == 8 { '8' } else { '9' }
}

/// Appends the decimal digits of `n` to `s`.
fn push_decimal(s: &mut String, n: u64)
    ensures
        final(s)@ == old(s)@ + decimal(n as nat),
    decreases n,
{
    if n < 10 {
        s.push(digit(n));
        assert(old(s)@.push(digit_char(n as nat)) =~= old(s)@ + decimal(n as nat));
    } else {
        push_decimal(s, n / 10);
        s.push(digit(n % 10));
        assert(old(s)@ + decimal(n as nat / 10) + seq![digit_char((n % 10) as nat)] =~= old(s)@
            + decimal(n as nat));
    }
}

/// Appends `n` in decimal, zero-padded to at least `width` digits (as `{n:0width$}` does).
pub fn push_padded(s: &mut String, n: u64, width: usize)
    ensures
        final(s)@ == old(s)@ + decimal_padded(n as nat, width as nat),
{
    let len = decimal_len(n);
    let mut k: usize = len;
    while k < width
        invariant
            len == decimal(n as nat).len(),
            len <= k,
            k == len || k <= width,
            s@ == old(s)@ + Seq::new((k - len) as nat, |i: int| '0'),
        decreases width - k,
    {
        s.push('0');
        k = k + 1;
        assert(s@ =~= old(s)@ + Seq::new((k - len) as nat, |i: int| '0'));
    }
    let ghost zeros = Seq::new((k - len) as nat, |i: int| '0');
    push_decimal(s, n);
    proof {
        let d = decimal(n as nat);
        if len >= width {
            assert(zeros =~= Seq::<char>::empty());
            assert(s@ =~= old(s)@ + d);
        } else {
            assert(k == width);
            assert(s@ =~= old(s)@ + (zeros + d));
        }
    }
}

fn decimal_len(n: u64) -> (l: usize)
    ensures
        l == decimal(n as nat).len(),
    decreases n,
{
    if n < 10 {
        1
    } else {
        let r = decimal_len(n / 10);
        proof {
            assert(pow10(19) == 10000000000000000000nat) by { reveal_with_fuel(pow10, 20); }
            lemma_decimal_len_bound(n as nat / 10, 19);
        }
        r + 1
    }
}

spec fn pow10(k: nat) -> nat
    decreases k,
{
    if k == 0 { 1 } else { 10 * pow10((k - 1) as nat) }
}

proof fn lemma_decimal_len_bound(n: nat, k: nat)
    requires
        k >= 1,
        n < pow10(k),
    ensures
        decimal(n).len() <= k,
    decreases k,
{
    if n >= 10 {
        assert(k >= 2) by {
            if k == 1 { assert(pow10(1) == 10) by { reveal_with_fuel(pow10, 2); } }
        }
        assert(n / 10 < pow10((k - 1) as nat));
        lemma_decimal_len_bound(n / 10, (k - 1) as nat);
    }
}

/// Appends every character of `t` to `s`.
pub fn push_text(s: &mut String, t: &String)
    ensures
        final(s)@ == old(s)@ + t@,
{
    s.append(t.as_str());
}

} // verus!

verus! {

/// The `len`-byte field at `at`, cut at its first NUL and decoded leniently.
pub fn str_at(d: &[u8], at: usize, len: usize) -> (s: String)
    requires
        at + len <= d@.len(),
    ensures
        s@ == lossy_text(crate::bytes::until_nul(d@.subrange(at as int, at + len))),
{
    let n = d.len();
    assert(at + len <= n);
    let b = &d[at..at + len];
    let mut end: usize = 0;
    while end < len && b[end] != 0
        invariant
            end <= len,
            b@.len() == len,
            crate::bytes::nul_from(b@, 0) == crate::bytes::nul_from(b@, end as int),
        decreases len - end,
    {
        end = end + 1;
    }
    text_from_bytes(&b[0..end])
}

} // verus!
