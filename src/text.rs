use vstd::prelude::*;

verus! {

/// The characters of `s`, in order.
pub fn chars_of(s: &str) -> (r: Vec<char>)
    ensures
        r@ == s@,
{
    let mut r: Vec<char> = Vec::new();
    for c in it: s.chars()
        invariant
            r@ == it.history(),
    {
        r.push(c);
    }
    r
}

/// Relies on `String::push`: appends one character at the end.
#[verifier::external_body]
fn push_char(s: &mut String, c: char)
    ensures
        final(s)@ == old(s)@.push(c),
{
    s.push(c);
}

/// A `String` holding the characters of `v`, in order.
pub fn string_from(v: &Vec<char>) -> (r: String)
    ensures
        r@ == v@,
{
    let mut r = String::new();
    let mut i: usize = 0;
    while i < v.len()
        invariant
            i <= v.len(),
            r@ == v@.subrange(0, i as int),
        decreases v.len() - i,
    {
        push_char(&mut r, v[i]);
        i = i + 1;
        proof {
            assert(r@ =~= v@.subrange(0, i as int));
        }
    }
    proof {
        assert(v@.subrange(0, v.len() as int) =~= v@);
    }
    r
}

/// True when the characters of `t` are those of `s`.
pub fn same_text(t: &Vec<char>, s: &str) -> (r: bool)
    ensures
        r == (t@ == s@),
{
    let c = chars_of(s);
    if t.len() != c.len() {
        return false;
    }
    let mut k: usize = 0;
    while k < t.len()
        invariant
            k <= t.len(),
            t.len() == c.len(),
            c@ == s@,
            forall|i: int| 0 <= i < k ==> t@[i] == c@[i],
        decreases t.len() - k,
    {
        if t[k] != c[k] {
            return false;
        }
        k = k + 1;
    }
    proof {
        assert(t@ =~= c@);
    }
    true
}

/// True when `c` is an ASCII decimal digit.
pub open spec fn is_digit(c: char) -> bool {
    '0' <= c && c <= '9'
}

/// A non-empty run of decimal digits.
pub open spec fn all_digits(d: Seq<char>) -> bool {
    d.len() > 0 && forall|i: int| 0 <= i < d.len() ==> is_digit(#[trigger] d[i])
}

/// The number that a run of decimal digits writes.
pub open spec fn digits_value(d: Seq<char>) -> int
    decreases d.len(),
{
    if d.len() == 0 {
        0
    } else {
        digits_value(d.drop_last()) * 10 + (d.last() as int - '0' as int)
    }
}

/// The integer that a decimal numeral writes: an optional `+` or `-` sign, then digits.
pub open spec fn decimal_value(t: Seq<char>) -> Option<int> {
    if t.len() > 0 && t[0] == '-' && all_digits(t.drop_first()) {
        Some(-digits_value(t.drop_first()))
    } else if t.len() > 0 && t[0] == '+' && all_digits(t.drop_first()) {
        Some(digits_value(t.drop_first()))
    } else if all_digits(t) {
        Some(digits_value(t))
    } else {
        None
    }
}

/// The signed 64-bit integer that `t` writes, if it writes one in range.
pub open spec fn i64_value(t: Seq<char>) -> Option<int> {
    match decimal_value(t) {
        Some(v) => if i64::MIN <= v <= i64::MAX {
            Some(v)
        } else {
            None
        },
        None => None,
    }
}

proof fn lemma_digits_nonneg(d: Seq<char>)
    requires
        forall|i: int| 0 <= i < d.len() ==> is_digit(#[trigger] d[i]),
    ensures
        digits_value(d) >= 0,
    decreases d.len(),
{
    if d.len() > 0 {
        lemma_digits_nonneg(d.drop_last());
    }
}

proof fn lemma_digits_grow(d: Seq<char>, k: int)
    requires
        0 <= k <= d.len(),
        forall|i: int| 0 <= i < d.len() ==> is_digit(#[trigger] d[i]),
    ensures
        digits_value(d.subrange(0, k)) <= digits_value(d),
    decreases d.len() - k,
{
    if k < d.len() {
        lemma_digits_grow(d, k + 1);
        let a = d.subrange(0, k + 1);
        assert(a.drop_last() =~= d.subrange(0, k));
        lemma_digits_nonneg(d.subrange(0, k));
    } else {
        assert(d.subrange(0, k) =~= d);
    }
}

/// Reads the digits `s[from..]` into a value of the given sign; `None` when the value leaves
/// the range of `i64`.
fn read_digits(s: &Vec<char>, from: usize, negative: bool) -> (r: Option<i64>)
    requires
        from <= s.len(),
        all_digits(s@.subrange(from as int, s.len() as int)),
    ensures
        ({
            let v = if negative {
                -digits_value(s@.subrange(from as int, s.len() as int))
            } else {
                digits_value(s@.subrange(from as int, s.len() as int))
            };
            match r {
                Some(x) => x as int == v,
                None => !(i64::MIN <= v <= i64::MAX),
            }
        }),
{
    let ghost d = s@.subrange(from as int, s.len() as int);
    let mut acc: i64 = 0;
    let mut k = from;
    while k < s.len()
        invariant
            from <= k <= s.len(),
            d == s@.subrange(from as int, s.len() as int),
            all_digits(d),
            acc as int == if negative {
                -digits_value(d.subrange(0, k - from))
            } else {
                digits_value(d.subrange(0, k - from))
            },
        decreases s.len() - k,
    {
        let ghost prefix = d.subrange(0, k + 1 - from);
        proof {
            assert(prefix.drop_last() =~= d.subrange(0, k - from));
            assert(prefix.last() == s@[k as int]);
            assert(is_digit(d[k - from]));
        }
        let digit = (s[k] as u32 - '0' as u32) as i64;
        let next = if negative {
            match acc.checked_mul(10) {
                Some(m) => m.checked_sub(digit),
                None => None,
            }
        } else {
            match acc.checked_mul(10) {
                Some(m) => m.checked_add(digit),
                None => None,
            }
        };
        match next {
            Some(n) => {
                acc = n;
            },
            None => {
                proof {
                    lemma_digits_nonneg(d.subrange(0, k - from));
                    lemma_digits_grow(d, k + 1 - from);
                }
                return None;
            },
        }
        k = k + 1;
    }
    proof {
        assert(d.subrange(0, k - from) =~= d);
    }
    Some(acc)
}

/// The signed 64-bit integer that the characters write, as `str::parse::<i64>` reads it.
pub fn parse_i64(s: &Vec<char>) -> (r: Option<i64>)
    ensures
        match r {
            Some(x) => i64_value(s@) == Some(x as int),
            None => i64_value(s@) is None,
        },
{
    let n = s.len();
    let mut start: usize = 0;
    let mut negative = false;
    if n > 0 && (s[0] == '-' || s[0] == '+') {
        start = 1;
        negative = s[0] == '-';
    }
    if start >= n {
        return None;
    }
    let mut k = start;
    while k < n
        invariant
            start <= k <= n,
            n == s.len(),
            start == 1 ==> (s@[0] == '-' || s@[0] == '+'),
            start == 0 ==> !(s@[0] == '-' || s@[0] == '+'),
            start <= 1,
            negative == (start == 1 && s@[0] == '-'),
            forall|i: int| start <= i < k ==> is_digit(#[trigger] s@[i]),
        decreases n - k,
    {
        if !('0' <= s[k] && s[k] <= '9') {
            proof {
                assert(!is_digit(s@[k as int]));
                if start == 1 {
                    assert(!is_digit(s@[0]));
                    assert(s@.drop_first()[k - 1] == s@[k as int]);
                    assert(!all_digits(s@.drop_first()));
                    assert(!all_digits(s@));
                } else {
                    assert(!all_digits(s@));
                }
            }
            return None;
        }
        k = k + 1;
    }
    proof {
        assert(all_digits(s@.subrange(start as int, n as int)));
        if start == 1 {
            assert(s@.drop_first() =~= s@.subrange(1, n as int));
        } else {
            assert(s@.subrange(0, n as int) =~= s@);
        }
    }
    read_digits(s, start, negative)
}

} // verus!
