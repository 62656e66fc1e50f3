//! Decimal numbers, padding and other small pieces of text.
use vstd::prelude::*;

verus! {

/// `String::push` appends one character to the end of the string. Its
/// documentation says exactly that, and this contract claims no more.
pub assume_specification[ String::push ](s: &mut String, ch: char)
    ensures
        final(s)@ == old(s)@.push(ch),
;

/// The character of a decimal digit.
pub open spec fn digit_char(d: int) -> char {
    if d == 0 { '0' }
    else if d == 1 { '1' }
    else if d == 2 { '2' }
    else if d == 3 { '3' }
    else if d == 4 { '4' }
    else if d == 5 { '5' }
    else if d == 6 { '6' }
    else if d == 7 { '7' }
    else if d == 8 { '8' }
    else { '9' }
}

/// The decimal representation of `n`, without leading zeros ("0" for zero).
pub open spec fn decimal(n: nat) -> Seq<char>
    decreases n,
{
    if n < 10 {
        seq![digit_char(n as int)]
    } else {
        decimal(n / 10).push(digit_char((n % 10) as int))
    }
}

/// `n` copies of the character `c`.
pub open spec fn repeat(c: char, n: nat) -> Seq<char> {
    Seq::new(n, |i: int| c)
}

/// `s` padded on the left with zeros to at least `width` characters.
pub open spec fn pad_zeros(s: Seq<char>, width: nat) -> Seq<char> {
    if s.len() < width {
        repeat('0', (width - s.len()) as nat) + s
    } else {
        s
    }
}

/// `s` padded on the right with spaces to at least `width` characters.
pub open spec fn pad_spaces(s: Seq<char>, width: nat) -> Seq<char> {
    if s.len() < width {
        s + repeat(' ', (width - s.len()) as nat)
    } else {
        s
    }
}

/// The character of the decimal digit `d`.
pub fn digit(d: u8) -> (c: char)
    requires
        d < 10,
    ensures
        c == digit_char(d as int),
{
    match d {
        0 => '0',
        1 => '1',
        2 => '2',
        3 => '3',
        4 => '4',
        5 => '5',
        6 => '6',
        7 => '7',
        8 => '8',
        _ => '9',
    }
}

/// The decimal representation is never empty, and has one digit more for
/// each factor of ten.
pub proof fn lemma_decimal_len(n: nat)
    ensures
        decimal(n).len() >= 1,
        n < 10 ==> decimal(n).len() == 1,
        n < 100 ==> decimal(n).len() <= 2,
        n < 1000 ==> decimal(n).len() <= 3,
        n < 10000 ==> decimal(n).len() <= 4,
        n < 100000 ==> decimal(n).len() <= 5,
    decreases n,
{
    if n >= 10 {
        lemma_decimal_len(n / 10);
    }
}

/// Append the decimal representation of `n` to `s`.
pub fn push_decimal(s: &mut String, n: u128)
    ensures
        final(s)@ == old(s)@ + decimal(n as nat),
    decreases n,
{
    if n >= 10 {
        push_decimal(s, n / 10);
    }
    let d: u8 = (n % 10) as u8;
    s.push(digit(d));
    assert(final(s)@ =~= old(s)@ + decimal(n as nat));
}

/// Append `n` copies of `c` to `s`.
pub fn push_repeat(s: &mut String, c: char, n: usize)
    ensures
        final(s)@ == old(s)@ + repeat(c, n as nat),
{
    let mut i: usize = 0;
    while i < n
        invariant
            i <= n,
            s@ == old(s)@ + repeat(c, i as nat),
        decreases n - i,
    {
        s.push(c);
        i = i + 1;
        assert(s@ =~= old(s)@ + repeat(c, i as nat));
    }
}

/// The decimal representation of `n`, padded on the left with zeros to
/// `width` characters.
pub fn decimal_zero_padded(n: u128, width: usize) -> (r: String)
    ensures
        r@ == pad_zeros(decimal(n as nat), width as nat),
{
    let mut digits = String::new();
    push_decimal(&mut digits, n);
    let len = digits.as_str().unicode_len();
    let mut r = String::new();
    if len < width {
        push_repeat(&mut r, '0', width - len);
    }
    r.append(digits.as_str());
    assert(r@ =~= pad_zeros(decimal(n as nat), width as nat));
    r
}

/// The decimal representation of `n`, padded on the right with spaces to
/// `width` characters.
pub fn decimal_space_padded(n: u128, width: usize) -> (r: String)
    ensures
        r@ == pad_spaces(decimal(n as nat), width as nat),
{
    let mut r = String::new();
    push_decimal(&mut r, n);
    let len = r.as_str().unicode_len();
    if len < width {
        push_repeat(&mut r, ' ', width - len);
    }
    assert(r@ =~= pad_spaces(decimal(n as nat), width as nat));
    r
}

/// `k` is the position of the first `c` in `s`.
pub open spec fn is_first_index(s: Seq<char>, c: char, k: int) -> bool {
    &&& 0 <= k < s.len()
    &&& s[k] == c
    &&& forall|j: int| 0 <= j < k ==> s[j] != c
}

/// The position of the first `c` in `s` (meaningful when `s` contains `c`).
pub open spec fn first_index(s: Seq<char>, c: char) -> int {
    choose|k: int| is_first_index(s, c, k)
}

/// There is only one first position.
pub proof fn lemma_first_index(s: Seq<char>, c: char, k: int)
    requires
        is_first_index(s, c, k),
    ensures
        first_index(s, c) == k,
{
    let j = first_index(s, c);
    assert(is_first_index(s, c, j));
    if j < k {
        assert(s[j] != c);
    } else if k < j {
        assert(s[k] != c);
    }
}

/// The characters of `s`, in order.
pub fn chars_of(s: &str) -> (v: Vec<char>)
    ensures
        v@ == s@,
{
    let mut v: Vec<char> = Vec::new();
    for c in it: s.chars()
        invariant
            v@ == it.seq().take(it.index() as int),
    {
        v.push(c);
    }
    v
}

/// The position of the first `c` in `s`, if there is one.
pub fn first_index_of(s: &[char], c: char) -> (r: Option<usize>)
    ensures
        r is None <==> !s@.contains(c),
        r matches Some(k) ==> is_first_index(s@, c, k as int) && first_index(s@, c) == k,
{
    let mut i: usize = 0;
    while i < s.len()
        invariant
            i <= s@.len(),
            forall|j: int| 0 <= j < i ==> s@[j] != c,
        decreases s@.len() - i,
    {
        if s[i] == c {
            proof {
                lemma_first_index(s@, c, i as int);
            }
            return Some(i);
        }
        i = i + 1;
    }
    None
}

} // verus!
