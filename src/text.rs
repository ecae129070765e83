//! Character-level helpers over `str`: splitting on dots, decimal bytes, and
//! equality of string slices, each stated over the character view.
use vstd::prelude::*;

verus! {

/// Relies on `String::push`: the character is appended at the end.
pub assume_specification[ String::push ](s: &mut String, ch: char)
    ensures
        final(s)@ == old(s)@.push(ch),
;

/// The segments of `s` between dots, as `str::split('.')` yields them.
/// There is always at least one segment; adjacent dots give empty ones.
pub open spec fn split_dots(s: Seq<char>) -> Seq<Seq<char>>
    decreases s.len(),
{
    if s.len() == 0 {
        seq![Seq::<char>::empty()]
    } else {
        let p = split_dots(s.drop_last());
        if s.last() == '.' {
            p.push(Seq::<char>::empty())
        } else {
            p.update(p.len() - 1, p.last().push(s.last()))
        }
    }
}

/// Splitting yields at least one segment.
pub proof fn lemma_split_dots_nonempty(s: Seq<char>)
    ensures
        split_dots(s).len() >= 1,
    decreases s.len(),
{
    if s.len() > 0 {
        lemma_split_dots_nonempty(s.drop_last());
    }
}

/// One step of `split_dots` on a prefix that grows by one character.
pub proof fn lemma_split_dots_step(s: Seq<char>, i: int)
    requires
        0 <= i < s.len(),
    ensures
        split_dots(s.subrange(0, i)).len() >= 1,
        split_dots(s.subrange(0, i + 1)) == if s[i] == '.' {
            split_dots(s.subrange(0, i)).push(Seq::<char>::empty())
        } else {
            let p = split_dots(s.subrange(0, i));
            p.update(p.len() - 1, p.last().push(s[i]))
        },
{
    lemma_split_dots_nonempty(s.subrange(0, i));
    assert(s.subrange(0, i + 1).drop_last() =~= s.subrange(0, i));
}

/// Value of a run of decimal digits, most significant first.
pub open spec fn digits_value(s: Seq<char>) -> nat
    decreases s.len(),
{
    if s.len() == 0 {
        0
    } else {
        10 * digits_value(s.drop_last()) + ((s.last() as u32 - '0' as u32) as nat)
    }
}

pub open spec fn is_digit(c: char) -> bool {
    '0' <= c && c <= '9'
}

/// The digits of a decimal number with its optional leading `+` removed.
pub open spec fn unsigned_digits(s: Seq<char>) -> Seq<char> {
    if s.len() > 0 && s[0] == '+' {
        s.drop_first()
    } else {
        s
    }
}

pub open spec fn all_digits(d: Seq<char>) -> bool {
    forall|i: int| 0 <= i < d.len() ==> is_digit(#[trigger] d[i])
}

/// What `u8::from_str` accepts: an optional `+`, then one or more decimal
/// digits whose value is at most 255.
pub open spec fn parse_u8_spec(s: Seq<char>) -> Option<u8> {
    let d = unsigned_digits(s);
    if d.len() > 0 && all_digits(d) && digits_value(d) <= 255 {
        Some(digits_value(d) as u8)
    } else {
        None
    }
}

/// Decimal parse of a byte, as `str::parse::<u8>` does it.
pub fn parse_u8(s: &str) -> (r: Option<u8>)
    ensures
        r == parse_u8_spec(s@),
{
    let n = s.unicode_len();
    let mut start: usize = 0;
    if n > 0 && s.get_char(0) == '+' {
        start = 1;
    }
    let ghost d = if start == 1 {
        s@.drop_first()
    } else {
        s@
    };
    assert(d =~= s@.subrange(start as int, n as int));
    if start >= n {
        return None;
    }
    // `val` is the value of the digits read so far, capped at 256.
    let mut val: u32 = 0;
    let mut i: usize = start;
    while i < n
        invariant
            start <= i <= n,
            n == s@.len(),
            d =~= s@.subrange(start as int, n as int),
            d == unsigned_digits(s@),
            forall|j: int| start <= j < i ==> is_digit(#[trigger] s@[j]),
            val == if digits_value(s@.subrange(start as int, i as int)) < 256 {
                digits_value(s@.subrange(start as int, i as int))
            } else {
                256
            },
        decreases n - i,
    {
        let c = s.get_char(i);
        if !('0' <= c && c <= '9') {
            assert(d[i - start] == c);
            return None;
        }
        let digit = (c as u32) - ('0' as u32);
        let ghost pre = s@.subrange(start as int, i as int);
        assert(s@.subrange(start as int, i + 1).drop_last() =~= pre);
        if val >= 256 || val * 10 + digit >= 256 {
            val = 256;
        } else {
            val = val * 10 + digit;
        }
        i = i + 1;
    }
    assert(s@.subrange(start as int, n as int) =~= d);
    if val > 255 {
        None
    } else {
        Some(val as u8)
    }
}

/// Splits `s` at every dot.
pub fn split_on_dots(s: &str) -> (r: Vec<String>)
    ensures
        r@.len() == split_dots(s@).len(),
        forall|k: int| 0 <= k < r@.len() ==> #[trigger] r@[k]@ == split_dots(s@)[k],
{
    let n = s.unicode_len();
    let mut done: Vec<String> = Vec::new();
    let mut cur = String::new();
    let mut i: usize = 0;
    assert(s@.subrange(0, 0) =~= Seq::<char>::empty());
    while i < n
        invariant
            i <= n,
            n == s@.len(),
            done@.len() + 1 == split_dots(s@.subrange(0, i as int)).len(),
            forall|k: int| 0 <= k < done@.len() ==> #[trigger] done@[k]@ == split_dots(
                s@.subrange(0, i as int),
            )[k],
            cur@ == split_dots(s@.subrange(0, i as int)).last(),
        decreases n - i,
    {
        let c = s.get_char(i);
        proof {
            lemma_split_dots_step(s@, i as int);
        }
        if c == '.' {
            done.push(cur);
            cur = String::new();
        } else {
            cur.push(c);
        }
        i = i + 1;
    }
    assert(s@.subrange(0, n as int) =~= s@);
    done.push(cur);
    done
}

/// Equality of two string slices by their characters.
pub fn str_eq(a: &str, b: &str) -> (r: bool)
    ensures
        r == (a@ == b@),
{
    let n = a.unicode_len();
    if n != b.unicode_len() {
        return false;
    }
    let mut i: usize = 0;
    while i < n
        invariant
            i <= n,
            n == a@.len(),
            n == b@.len(),
            forall|j: int| 0 <= j < i ==> a@[j] == b@[j],
        decreases n - i,
    {
        if a.get_char(i) != b.get_char(i) {
            return false;
        }
        i = i + 1;
    }
    assert(a@ =~= b@);
    true
}

} // verus!
