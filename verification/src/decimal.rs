//! Decimal text for 32-bit signed integers: rendering, parsing, and the proof
//! that parsing undoes rendering.

use vstd::prelude::*;

verus! {

/// The character that stands for the digit `d`.
pub open spec fn digit_char(d: int) -> char {
    if d == 0 {
        '0'
    } else if d == 1 {
        '1'
    } else if d == 2 {
        '2'
    } else if d == 3 {
        '3'
    } else if d == 4 {
        '4'
    } else if d == 5 {
        '5'
    } else if d == 6 {
        '6'
    } else if d == 7 {
        '7'
    } else if d == 8 {
        '8'
    } else {
        '9'
    }
}

/// The digit that `c` stands for, if it is one of `'0'` to `'9'`.
pub open spec fn digit_value(c: char) -> Option<int> {
    if c == '0' {
        Some(0int)
    } else if c == '1' {
        Some(1int)
    } else if c == '2' {
        Some(2int)
    } else if c == '3' {
        Some(3int)
    } else if c == '4' {
        Some(4int)
    } else if c == '5' {
        Some(5int)
    } else if c == '6' {
        Some(6int)
    } else if c == '7' {
        Some(7int)
    } else if c == '8' {
        Some(8int)
    } else if c == '9' {
        Some(9int)
    } else {
        None
    }
}

/// The digits of `n`, most significant first, without leading zeros.
pub open spec fn digits(n: nat) -> Seq<char>
    decreases n,
{
    if n < 10 {
        seq![digit_char(n as int)]
    } else {
        digits(n / 10).push(digit_char((n % 10) as int))
    }
}

/// The canonical decimal text of `i`: a minus sign for a negative number,
/// then its digits.
pub open spec fn decimal_text(i: int) -> Seq<char> {
    if i < 0 {
        seq!['-'] + digits((-i) as nat)
    } else {
        digits(i as nat)
    }
}

/// Every character of `s` is a decimal digit.
pub open spec fn all_digits(s: Seq<char>) -> bool {
    forall|k: int| 0 <= k < s.len() ==> (#[trigger] digit_value(s[k])) is Some
}

/// The number that a run of digits denotes; leading zeros count for nothing.
pub open spec fn digits_number(s: Seq<char>) -> nat
    decreases s.len(),
{
    if s.len() == 0 {
        0
    } else {
        match digit_value(s.last()) {
            Some(d) => (digits_number(s.drop_last()) * 10 + d) as nat,
            None => digits_number(s.drop_last()) * 10,
        }
    }
}

/// The integer that `s` denotes: an optional `+` or `-`, then one digit or
/// more. Any other text denotes nothing.
pub open spec fn int_of_text(s: Seq<char>) -> Option<int> {
    if s.len() > 0 && (s[0] == '-' || s[0] == '+') {
        let rest = s.subrange(1, s.len() as int);
        if rest.len() > 0 && all_digits(rest) {
            if s[0] == '-' {
                Some(-(digits_number(rest) as int))
            } else {
                Some(digits_number(rest) as int)
            }
        } else {
            None
        }
    } else if s.len() > 0 && all_digits(s) {
        Some(digits_number(s) as int)
    } else {
        None
    }
}

/// The 32-bit signed integer that `s` denotes, if it denotes an integer that
/// fits.
pub open spec fn i32_of_text(s: Seq<char>) -> Option<i32> {
    match int_of_text(s) {
        Some(v) => if i32::MIN <= v <= i32::MAX {
            Some(v as i32)
        } else {
            None
        },
        None => None,
    }
}

/// Appends `c` to `s` by `String::push`, which adds the character at the end
/// and leaves what was there as it was.
#[verifier::external_body]
fn push_char(s: &mut String, c: char)
    ensures
        final(s)@ == old(s)@.push(c),
{
    s.push(c);
}

/// The character of the digit `d`.
fn digit_to_char(d: u32) -> (c: char)
    requires
        d < 10,
    ensures
        c == digit_char(d as int),
        digit_value(c) == Some(d as int),
{
    if d == 0 {
        '0'
    } else if d == 1 {
        '1'
    } else if d == 2 {
        '2'
    } else if d == 3 {
        '3'
    } else if d == 4 {
        '4'
    } else if d == 5 {
        '5'
    } else if d == 6 {
        '6'
    } else if d == 7 {
        '7'
    } else if d == 8 {
        '8'
    } else {
        '9'
    }
}

/// The digit of the character `c`, if it is one.
fn char_to_digit(c: char) -> (d: Option<i64>)
    ensures
        match d {
            Some(v) => digit_value(c) == Some(v as int) && 0 <= v < 10,
            None => digit_value(c) is None,
        },
{
    if c == '0' {
        Some(0)
    } else if c == '1' {
        Some(1)
    } else if c == '2' {
        Some(2)
    } else if c == '3' {
        Some(3)
    } else if c == '4' {
        Some(4)
    } else if c == '5' {
        Some(5)
    } else if c == '6' {
        Some(6)
    } else if c == '7' {
        Some(7)
    } else if c == '8' {
        Some(8)
    } else if c == '9' {
        Some(9)
    } else {
        None
    }
}

/// Renders `i` as its canonical decimal text.
pub fn render_i32(i: i32) -> (text: String)
    ensures
        text@ == decimal_text(i as int),
{
    let wide: i64 = i as i64;
    let magnitude: i64 = if wide < 0 {
        -wide
    } else {
        wide
    };
    let mut n: u32 = magnitude as u32;
    let ghost whole: nat = n as nat;
    let mut rev: Vec<char> = Vec::new();
    let first: char = digit_to_char(n % 10);
    rev.push(first);
    n = n / 10;
    let ghost mut tail: Seq<char> = seq![first];
    assert(digits(whole) == if n == 0 {
        tail
    } else {
        digits(n as nat) + tail
    });
    while n > 0
        invariant
            rev@.len() == tail.len(),
            tail.len() >= 1,
            forall|t: int| 0 <= t < tail.len() ==> tail[t] == rev@[rev@.len() - 1 - t],
            digits(whole) == if n == 0 {
                tail
            } else {
                digits(n as nat) + tail
            },
        decreases n,
    {
        let c: char = digit_to_char(n % 10);
        proof {
            let next = seq![c] + tail;
            if n >= 10 {
                assert(digits(n as nat) + tail =~= digits((n / 10) as nat) + next);
            } else {
                assert(digits(n as nat) + tail =~= next);
            }
            tail = next;
        }
        rev.push(c);
        n = n / 10;
    }
    let mut text = String::new();
    if i < 0 {
        push_char(&mut text, '-');
    }
    let ghost sign: Seq<char> = text@;
    let mut left: usize = rev.len();
    while left > 0
        invariant
            left <= rev@.len(),
            rev@.len() == tail.len(),
            forall|t: int| 0 <= t < tail.len() ==> tail[t] == rev@[rev@.len() - 1 - t],
            text@ == sign + tail.take(rev@.len() - left),
        decreases left,
    {
        left = left - 1;
        let c: char = rev[left];
        proof {
            let done = rev@.len() - left - 1;
            assert(tail.take(done + 1) =~= tail.take(done).push(tail[done]));
            assert((sign + tail.take(done)).push(c) =~= sign + tail.take(done + 1));
        }
        push_char(&mut text, c);
    }
    proof {
        assert(tail.take(tail.len() as int) =~= tail);
        if i < 0 {
            assert(sign =~= seq!['-']);
        } else {
            assert(sign + tail =~= tail);
        }
    }
    text
}

/// A run of digits denotes at least what any of its prefixes denotes.
proof fn lemma_prefix_number(s: Seq<char>, k: int)
    requires
        0 <= k <= s.len(),
    ensures
        digits_number(s.take(k)) <= digits_number(s),
    decreases s.len(),
{
    if k == s.len() {
        assert(s.take(k) =~= s);
    } else {
        assert(s.drop_last().take(k) =~= s.take(k));
        lemma_prefix_number(s.drop_last(), k);
    }
}

/// Reads `text` as a 32-bit signed integer in decimal: an optional sign, then
/// digits. Returns `None` for any other text and for a number that does not
/// fit.
pub fn parse_i32(text: &str) -> (r: Option<i32>)
    ensures
        r == i32_of_text(text@),
{
    let len: usize = text.unicode_len();
    if len == 0 {
        return None;
    }
    let first: char = text.get_char(0);
    let negative: bool = first == '-';
    let start: usize = if first == '-' || first == '+' {
        1
    } else {
        0
    };
    if start == len {
        return None;
    }
    let ghost rest: Seq<char> = text@.subrange(start as int, len as int);
    proof {
        if start == 0 {
            assert(rest =~= text@);
        }
    }
    let mut acc: i64 = 0;
    let mut k: usize = start;
    assert(rest.take(0) =~= Seq::<char>::empty());
    while k < len
        invariant
            start <= k <= len,
            len == text@.len(),
            rest == text@.subrange(start as int, len as int),
            start == 0 ==> rest == text@,
            start == 0 || start == 1,
            start == 1 <==> (text@[0] == '-' || text@[0] == '+'),
            all_digits(rest.take(k - start)),
            acc == digits_number(rest.take(k - start)),
            0 <= acc <= 2147483648,
        decreases len - k,
    {
        let c: char = text.get_char(k);
        let ghost done: int = k - start;
        proof {
            assert(rest.take(done + 1).drop_last() =~= rest.take(done));
            assert(rest.take(done + 1).last() == c);
        }
        match char_to_digit(c) {
            None => {
                assert(!all_digits(rest)) by {
                    assert(digit_value(rest[done]) is None);
                }
                return None;
            },
            Some(d) => {
                let next: i64 = acc * 10 + d;
                if next > 2147483648 {
                    proof {
                        lemma_prefix_number(rest, done + 1);
                    }
                    return None;
                }
                assert(all_digits(rest.take(done + 1))) by {
                    assert forall|t: int| 0 <= t < done + 1 implies (#[trigger] digit_value(
                        rest.take(done + 1)[t],
                    )) is Some by {
                        if t < done {
                            assert(rest.take(done + 1)[t] == rest.take(done)[t]);
                        }
                    }
                }
                acc = next;
            },
        }
        k = k + 1;
    }
    assert(rest.take(len - start) =~= rest);
    if negative {
        Some((-acc) as i32)
    } else if acc > 2147483647 {
        None
    } else {
        Some(acc as i32)
    }
}

/// What `digits` yields is a non-empty run of digits that denotes `n`.
pub proof fn lemma_digits_denote(n: nat)
    ensures
        digits(n).len() > 0,
        all_digits(digits(n)),
        digits_number(digits(n)) == n,
    decreases n,
{
    if n < 10 {
        let s = digits(n);
        assert(s.drop_last() =~= Seq::<char>::empty());
        assert(digits_number(s.drop_last()) == 0);
        assert(digit_value(s.last()) == Some(n as int));
    } else {
        lemma_digits_denote(n / 10);
        let s = digits(n);
        let c = digit_char((n % 10) as int);
        assert(s.drop_last() =~= digits(n / 10));
        assert(s.last() == c);
        assert(digit_value(c) == Some((n % 10) as int));
        assert forall|k: int| 0 <= k < s.len() implies (#[trigger] digit_value(s[k])) is Some by {
            if k < s.len() - 1 {
                assert(s[k] == digits(n / 10)[k]);
            }
        }
    }
}

/// Parsing the canonical text of a 32-bit signed integer gives the integer
/// back.
pub proof fn lemma_parse_render(i: i32)
    ensures
        i32_of_text(decimal_text(i as int)) == Some(i),
{
    let s = decimal_text(i as int);
    if i < 0 {
        let n = (-(i as int)) as nat;
        lemma_digits_denote(n);
        assert(s[0] == '-');
        assert(s.subrange(1, s.len() as int) =~= digits(n));
    } else {
        let n = i as nat;
        lemma_digits_denote(n);
        assert(digit_value(s[0]) is Some);
    }
}

} // verus!
