//! Text building blocks: numbers in decimal, bytes in hexadecimal, padding and sort keys.
use vstd::prelude::*;

verus! {

/// `String::push` of the standard library: puts the character behind the text.
pub assume_specification[ String::push ](s: &mut String, c: char)
    ensures
        final(s)@ == old(s)@.push(c),
;

/// The character for a digit below sixteen.
pub open spec fn digit(d: nat) -> char {
    if d == 0 { '0' } else if d == 1 { '1' } else if d == 2 { '2' } else if d == 3 { '3' }
    else if d == 4 { '4' } else if d == 5 { '5' } else if d == 6 { '6' } else if d == 7 { '7' }
    else if d == 8 { '8' } else if d == 9 { '9' } else if d == 10 { 'a' } else if d == 11 { 'b' }
    else if d == 12 { 'c' } else if d == 13 { 'd' } else if d == 14 { 'e' } else { 'f' }
}

/// The character for a digit below sixteen.
pub fn digit_char(d: u64) -> (c: char)
    requires
        d < 16,
    ensures
        c == digit(d as nat),
{
    if d == 0 { '0' } else if d == 1 { '1' } else if d == 2 { '2' } else if d == 3 { '3' }
    else if d == 4 { '4' } else if d == 5 { '5' } else if d == 6 { '6' } else if d == 7 { '7' }
    else if d == 8 { '8' } else if d == 9 { '9' } else if d == 10 { 'a' } else if d == 11 { 'b' }
    else if d == 12 { 'c' } else if d == 13 { 'd' } else if d == 14 { 'e' } else { 'f' }
}

/// A number in decimal, without leading zeros.
pub open spec fn decimal(n: nat) -> Seq<char>
    decreases n,
{
    if n < 10 {
        seq![digit(n)]
    } else {
        decimal(n / 10).push(digit(n % 10))
    }
}

/// The character is a decimal digit.
pub open spec fn is_digit(c: char) -> bool {
    c == '0' || c == '1' || c == '2' || c == '3' || c == '4' || c == '5' || c == '6' || c == '7' || c == '8' || c == '9'
}

/// A number has digits, and nothing but digits.
pub proof fn decimal_has_digits(n: nat)
    ensures
        decimal(n).len() > 0,
        forall|i: int| 0 <= i < decimal(n).len() ==> is_digit(#[trigger] decimal(n)[i]),
    decreases n,
{
    if n >= 10 {
        decimal_has_digits(n / 10);
    }
}

/// A number of more than one digit does not begin with a zero.
pub proof fn decimal_has_no_leading_zero(n: nat)
    ensures
        decimal(n).len() > 1 ==> decimal(n)[0] != '0',
        decimal(n)[0] == '0' ==> n == 0,
    decreases n,
{
    if n >= 10 {
        decimal_has_digits(n / 10);
        decimal_has_no_leading_zero(n / 10);
        assert(decimal(n)[0] == decimal(n / 10)[0]);
    }
}

/// Different digits are different characters.
pub proof fn digit_injective(a: nat, b: nat)
    requires
        a < 10,
        b < 10,
        digit(a) == digit(b),
    ensures
        a == b,
{
}

/// Different numbers have different texts.
pub proof fn decimal_injective(a: nat, b: nat)
    requires
        decimal(a) == decimal(b),
    ensures
        a == b,
    decreases a,
{
    decimal_has_digits(a);
    decimal_has_digits(b);
    assert(decimal(a).last() == digit(a % 10));
    assert(decimal(b).last() == digit(b % 10));
    digit_injective(a % 10, b % 10);
    if a >= 10 && b >= 10 {
        assert(decimal(a).drop_last() =~= decimal(a / 10));
        assert(decimal(b).drop_last() =~= decimal(b / 10));
        decimal_injective(a / 10, b / 10);
    } else if a >= 10 {
        decimal_has_digits(a / 10);
        assert(decimal(a).len() > 1);
    } else if b >= 10 {
        decimal_has_digits(b / 10);
        assert(decimal(b).len() > 1);
    }
}

/// The beginning of a number's text is that of a number that is not larger.
pub proof fn decimal_prefix(n: nat, k: int) -> (m: nat)
    requires
        1 <= k <= decimal(n).len(),
    ensures
        decimal(m) == decimal(n).take(k),
        m <= n,
    decreases n,
{
    if k == decimal(n).len() {
        assert(decimal(n).take(k) =~= decimal(n));
        n
    } else {
        let m = decimal_prefix(n / 10, k);
        assert(decimal(n).take(k) =~= decimal(n / 10).take(k));
        m
    }
}

/// Appends a number in decimal.
pub fn push_decimal(out: &mut String, n: u64)
    ensures
        final(out)@ == old(out)@ + decimal(n as nat),
    decreases n,
{
    if n >= 10 {
        push_decimal(out, n / 10);
    }
    out.push(digit_char(n % 10));
    proof {
        assert(out@ =~= old(out)@ + decimal(n as nat));
    }
}

/// Bytes in lower-case hexadecimal, two digits each.
pub open spec fn hex(bytes: Seq<u8>) -> Seq<char>
    decreases bytes.len(),
{
    if bytes.len() == 0 {
        Seq::empty()
    } else {
        hex(bytes.drop_last()).push(digit(bytes.last() as nat / 16)).push(digit(bytes.last() as nat % 16))
    }
}

/// Every byte is shown by two digits, the one for its higher half first.
pub proof fn hex_shows_every_byte(bytes: Seq<u8>)
    ensures
        hex(bytes).len() == 2 * bytes.len(),
        forall|i: int|
            0 <= i < bytes.len() ==> hex(bytes)[2 * i] == digit(#[trigger] bytes[i] as nat / 16) && hex(bytes)[2 * i + 1]
                == digit(bytes[i] as nat % 16),
    decreases bytes.len(),
{
    if bytes.len() > 0 {
        hex_shows_every_byte(bytes.drop_last());
        assert forall|i: int| 0 <= i < bytes.len() implies hex(bytes)[2 * i] == digit(#[trigger] bytes[i] as nat / 16)
            && hex(bytes)[2 * i + 1] == digit(bytes[i] as nat % 16) by {
            if i < bytes.len() - 1 {
                assert(bytes.drop_last()[i] == bytes[i]);
            }
        }
    }
}

/// Appends bytes in hexadecimal.
pub fn push_hex(out: &mut String, bytes: &[u8])
    ensures
        final(out)@ == old(out)@ + hex(bytes@),
{
    let mut i: usize = 0;
    assert(out@ =~= old(out)@ + hex(bytes@.take(0)));
    while i < bytes.len()
        invariant
            i <= bytes@.len(),
            out@ == old(out)@ + hex(bytes@.take(i as int)),
        decreases bytes@.len() - i,
    {
        let b: u64 = bytes[i] as u64;
        out.push(digit_char(b / 16));
        out.push(digit_char(b % 16));
        proof {
            let next = bytes@.take(i + 1);
            assert(next.drop_last() =~= bytes@.take(i as int));
            assert(out@ =~= old(out)@ + hex(next));
        }
        i += 1;
    }
    assert(bytes@.take(i as int) =~= bytes@);
}

/// `n` copies of a character.
pub open spec fn repeated(c: char, n: nat) -> Seq<char> {
    Seq::new(n, |i: int| c)
}

/// Appends `n` copies of a character.
pub fn push_repeated(out: &mut String, c: char, n: usize)
    ensures
        final(out)@ == old(out)@ + repeated(c, n as nat),
{
    let mut i: usize = 0;
    assert(out@ =~= old(out)@ + repeated(c, 0));
    while i < n
        invariant
            i <= n,
            out@ == old(out)@ + repeated(c, i as nat),
        decreases n - i,
    {
        out.push(c);
        assert(out@ =~= old(out)@ + repeated(c, (i + 1) as nat));
        i += 1;
    }
}

/// The characters of a text, one by one.
pub fn chars_of(s: &str) -> (chars: Vec<char>)
    ensures
        chars@ == s@,
{
    let mut chars: Vec<char> = Vec::new();
    for c in it: s.chars()
        invariant
            it.seq() == s@,
            chars@ == s@.take(it.index() as int),
    {
        assert(s@.take(it.index() + 1) =~= s@.take(it.index() as int).push(c));
        chars.push(c);
    }
    assert(chars@ =~= s@);
    chars
}

/// The sort key of a text: its characters in turn and an end that comes before every character.
pub open spec fn text_key(s: Seq<char>) -> Seq<u64> {
    s.map_values(|c: char| (c as u32 + 1) as u64).push(0)
}

/// Characters with the same code are the same, and no code is out of range.
pub proof fn char_code_injective(a: char, b: char)
    ensures
        a as u32 == b as u32 ==> a == b,
        a as u32 <= 0x10ffff,
        b as u32 <= 0x10ffff,
{
    vstd::utf8::char_is_scalar(a);
    vstd::utf8::char_is_scalar(b);
    vstd::utf8::char_u32_cast(a, a as u32);
    vstd::utf8::char_u32_cast(b, b as u32);
}

/// Two keys that begin with a text's key are the same only if the texts and what follows are.
pub proof fn text_key_injective(a: Seq<char>, x: Seq<u64>, b: Seq<char>, y: Seq<u64>)
    requires
        text_key(a) + x == text_key(b) + y,
    ensures
        a == b,
        x == y,
{
    let left = text_key(a) + x;
    let right = text_key(b) + y;
    if a.len() < b.len() {
        assert(left[a.len() as int] == 0);
        assert(right[a.len() as int] == (b[a.len() as int] as u32 + 1) as u64);
    } else if b.len() < a.len() {
        assert(right[b.len() as int] == 0);
        assert(left[b.len() as int] == (a[b.len() as int] as u32 + 1) as u64);
    }
    assert forall|i: int| 0 <= i < a.len() implies a[i] == b[i] by {
        char_code_injective(a[i], b[i]);
        assert(left[i] == (a[i] as u32 + 1) as u64);
        assert(right[i] == (b[i] as u32 + 1) as u64);
    }
    assert(a =~= b);
    assert(x.len() == y.len()) by {
        assert(left.len() == a.len() + 1 + x.len());
        assert(right.len() == b.len() + 1 + y.len());
    }
    assert forall|i: int| 0 <= i < x.len() implies x[i] == y[i] by {
        assert(left[a.len() + 1 + i] == x[i]);
        assert(right[b.len() + 1 + i] == y[i]);
    }
    assert(x =~= y);
}

/// Appends the sort key of a text.
pub fn push_text_key(key: &mut Vec<u64>, s: &str)
    ensures
        final(key)@ == old(key)@ + text_key(s@),
{
    let chars = chars_of(s);
    let mut i: usize = 0;
    assert(key@ =~= old(key)@ + text_key(s@).take(0));
    while i < chars.len()
        invariant
            chars@ == s@,
            i <= chars@.len(),
            key@ == old(key)@ + text_key(s@).take(i as int),
        decreases chars@.len() - i,
    {
        key.push(chars[i] as u32 as u64 + 1);
        assert(key@ =~= old(key)@ + text_key(s@).take(i + 1));
        i += 1;
    }
    key.push(0);
    assert(key@ =~= old(key)@ + text_key(s@));
}

/// The bytes occur in a text.
pub open spec fn occurs(text: Seq<u8>, bytes: Seq<u8>) -> bool {
    exists|i: int| stands_at(text, i, bytes)
}

/// The bytes stand at an offset of a text.
pub open spec fn stands_at(text: Seq<u8>, at: int, bytes: Seq<u8>) -> bool {
    0 <= at && at + bytes.len() <= text.len() && text.subrange(at, at + bytes.len()) == bytes
}

/// Whether the bytes stand at an offset of a text.
pub fn has_bytes_at(text: &[u8], at: usize, bytes: &[u8]) -> (stand: bool)
    ensures
        stand == stands_at(text@, at as int, bytes@),
{
    let end: usize = text.len();
    if at > end || bytes.len() > end - at {
        return false;
    }
    let mut i: usize = 0;
    while i < bytes.len()
        invariant
            end == text@.len(),
            at + bytes@.len() <= end,
            i <= bytes@.len(),
            forall|j: int| 0 <= j < i ==> text@[at + j] == #[trigger] bytes@[j],
        decreases bytes@.len() - i,
    {
        if text[at + i] != bytes[i] {
            assert(text@.subrange(at as int, at + bytes@.len())[i as int] != bytes@[i as int]);
            return false;
        }
        i += 1;
    }
    assert(text@.subrange(at as int, at + bytes@.len()) =~= bytes@);
    true
}

/// Whether the bytes occur in a text.
pub fn has_bytes(text: &[u8], bytes: &[u8]) -> (found: bool)
    ensures
        found == occurs(text@, bytes@),
{
    let mut at: usize = 0;
    while at < text.len()
        invariant
            at <= text@.len(),
            forall|i: int| 0 <= i < at ==> !#[trigger] stands_at(text@, i, bytes@),
        decreases text@.len() - at,
    {
        if has_bytes_at(text, at, bytes) {
            return true;
        }
        at += 1;
    }
    has_bytes_at(text, at, bytes)
}

}
