//! Character-level helpers: reading a string as characters, comparing with
//! literals, splitting on a separator, and decimal digits.
use vstd::prelude::*;
use vstd::string::*;

verus! {

/// The fields of `s` separated by `sep`, as `str::split` yields them:
/// never empty, and one more field than there are separators.
pub open spec fn split_on(s: Seq<char>, sep: char) -> Seq<Seq<char>>
    decreases s.len(),
{
    if s.len() == 0 {
        seq![Seq::<char>::empty()]
    } else {
        let prev = split_on(s.drop_last(), sep);
        if s.last() == sep {
            prev.push(Seq::<char>::empty())
        } else {
            prev.update(prev.len() - 1, prev.last().push(s.last()))
        }
    }
}

pub open spec fn is_digit(c: char) -> bool {
    '0' <= c && c <= '9'
}

pub open spec fn all_digits(s: Seq<char>) -> bool {
    forall|i: int| 0 <= i < s.len() ==> is_digit(#[trigger] s[i])
}

pub open spec fn digit_value(c: char) -> nat {
    (c as int - '0' as int) as nat
}

pub open spec fn digit_char(d: nat) -> char {
    if d == 0 {
        '0'
    } else if d == 1 {
        '1'
    } else if d == 2 {
        '2'
    } else if d == 3 {
        '3'
    } else if d == 4 {
        '4'
    } else if d == 5 {
        '5'
    } else if d == 6 {
        '6'
    } else if d == 7 {
        '7'
    } else if d == 8 {
        '8'
    } else {
        '9'
    }
}

/// The number written by the decimal digits `s`, most significant first.
pub open spec fn digits_value(s: Seq<char>) -> nat
    decreases s.len(),
{
    if s.len() == 0 {
        0
    } else {
        digits_value(s.drop_last()) * 10 + digit_value(s.last())
    }
}

/// The decimal text of `n`, without leading zeros.
pub open spec fn decimal(n: nat) -> Seq<char>
    decreases n,
{
    if n < 10 {
        seq![digit_char(n)]
    } else {
        decimal(n / 10).push(digit_char(n % 10))
    }
}

/// What `u32::from_str` accepts: an optional `+`, then one or more ASCII
/// digits whose value fits in a `u32`.
pub open spec fn parse_u32(s: Seq<char>) -> Option<u32> {
    let d = if s.len() > 0 && s[0] == '+' {
        s.skip(1)
    } else {
        s
    };
    if d.len() > 0 && all_digits(d) && digits_value(d) <= u32::MAX {
        Some(digits_value(d) as u32)
    } else {
        None
    }
}

pub proof fn lemma_split_len(s: Seq<char>, sep: char)
    ensures
        split_on(s, sep).len() >= 1,
    decreases s.len(),
{
    if s.len() > 0 {
        lemma_split_len(s.drop_last(), sep);
    }
}

/// Text without a separator is a single field.
pub proof fn lemma_split_no_sep(s: Seq<char>, sep: char)
    requires
        forall|i: int| 0 <= i < s.len() ==> s[i] != sep,
    ensures
        split_on(s, sep) == seq![s],
    decreases s.len(),
{
    if s.len() > 0 {
        let p = s.drop_last();
        assert forall|i: int| 0 <= i < p.len() implies p[i] != sep by {
            assert(p[i] == s[i]);
        }
        lemma_split_no_sep(p, sep);
        assert(s.last() == s[s.len() - 1]);
        assert(s.last() != sep);
        assert(split_on(p, sep).len() == 1);
        assert(split_on(s, sep) == seq![p].update(0, p.push(s.last())));
        assert(p.push(s.last()) =~= s);
        assert(seq![p].update(0, p.push(s.last())) =~= seq![s]);
    } else {
        assert(s =~= Seq::<char>::empty());
    }
}

/// A separator between `x` and `y` joins their field lists.
pub proof fn lemma_split_join(x: Seq<char>, y: Seq<char>, sep: char)
    ensures
        split_on(x.push(sep) + y, sep) == split_on(x, sep) + split_on(y, sep),
    decreases y.len(),
{
    let s = x.push(sep) + y;
    if y.len() == 0 {
        assert(s =~= x.push(sep));
        assert(s.drop_last() =~= x);
        assert(split_on(x, sep).push(Seq::<char>::empty()) =~= split_on(x, sep) + seq![
            Seq::<char>::empty(),
        ]);
    } else {
        lemma_split_join(x, y.drop_last(), sep);
        lemma_split_len(y.drop_last(), sep);
        assert(s.drop_last() =~= x.push(sep) + y.drop_last());
        assert(s.last() == y.last());
        let a = split_on(x, sep);
        let b = split_on(y.drop_last(), sep);
        if y.last() == sep {
            assert((a + b).push(Seq::<char>::empty()) =~= a + b.push(Seq::<char>::empty()));
        } else {
            let ab = a + b;
            assert(ab.update(ab.len() - 1, ab.last().push(y.last())) =~= a + b.update(
                b.len() - 1,
                b.last().push(y.last()),
            ));
        }
    }
}

pub proof fn lemma_decimal_digits(n: nat)
    ensures
        decimal(n).len() > 0,
        all_digits(decimal(n)),
        digits_value(decimal(n)) == n,
        decimal(n)[0] != '+',
    decreases n,
{
    if n >= 10 {
        lemma_decimal_digits(n / 10);
        let d = decimal(n);
        assert(d.drop_last() =~= decimal(n / 10));
        assert(d.last() == digit_char(n % 10));
        assert(digit_value(digit_char(n % 10)) == n % 10);
        assert((n / 10) * 10 + n % 10 == n) by (nonlinear_arith);
        assert(digits_value(d) == digits_value(d.drop_last()) * 10 + digit_value(d.last()));
        assert(digits_value(d) == n);
        assert forall|i: int| 0 <= i < d.len() implies is_digit(#[trigger] d[i]) by {
            if i < d.len() - 1 {
                assert(d[i] == decimal(n / 10)[i]);
            }
        }
    } else {
        let d = decimal(n);
        assert(d.drop_last() =~= Seq::<char>::empty());
        assert(digit_value(digit_char(n)) == n);
        assert(digits_value(d) == digits_value(d.drop_last()) * 10 + digit_value(d.last()));
        assert(digits_value(d) == n);
    }
}

/// Digits read so far never decrease when more digits follow.
pub proof fn lemma_digits_prefix(s: Seq<char>, i: int)
    requires
        0 <= i <= s.len(),
    ensures
        digits_value(s.take(i)) <= digits_value(s),
    decreases s.len() - i,
{
    if i < s.len() {
        lemma_digits_prefix(s, i + 1);
        assert(s.take(i + 1).drop_last() =~= s.take(i));
    } else {
        assert(s.take(i) =~= s);
    }
}

/// The characters of `s`.
pub fn chars_of(s: &str) -> (r: Vec<char>)
    ensures
        r@ == s@,
{
    let n = s.unicode_len();
    let mut v: Vec<char> = Vec::new();
    let mut i: usize = 0;
    while i < n
        invariant
            n == s@.len(),
            i <= n,
            v@ == s@.take(i as int),
        decreases n - i,
    {
        v.push(s.get_char(i));
        i += 1;
        assert(v@ =~= s@.take(i as int));
    }
    assert(v@ =~= s@);
    v
}

/// Whether the characters from `start` on begin with `lit`.
pub fn has_at(s: &Vec<char>, start: usize, lit: &str) -> (r: bool)
    requires
        start <= s@.len(),
    ensures
        r == (s@.len() - start >= lit@.len() && s@.subrange(start as int, start + lit@.len())
            == lit@),
{
    let n = lit.unicode_len();
    if s.len() - start < n {
        return false;
    }
    let mut i: usize = 0;
    while i < n
        invariant
            n == lit@.len(),
            i <= n,
            start + n <= s@.len(),
            s@.len() <= usize::MAX,
            forall|j: int| 0 <= j < i ==> s@[start + j] == lit@[j],
        decreases n - i,
    {
        if s[start + i] != lit.get_char(i) {
            assert(s@.subrange(start as int, start + n)[i as int] != lit@[i as int]);
            return false;
        }
        i += 1;
    }
    assert(s@.subrange(start as int, start + n) =~= lit@);
    true
}

/// Whether `s` is exactly `lit`.
pub fn text_is(s: &Vec<char>, lit: &str) -> (r: bool)
    ensures
        r == (s@ == lit@),
{
    let b = has_at(s, 0, lit);
    if b && s.len() == lit.unicode_len() {
        assert(s@ =~= s@.subrange(0, lit@.len() as int));
        true
    } else {
        proof {
            if s@ == lit@ {
                assert(s@.subrange(0, lit@.len() as int) =~= s@);
            }
        }
        false
    }
}

/// Splits `s` into its fields separated by `sep`.
pub fn split_chars(s: &Vec<char>, sep: char) -> (r: Vec<Vec<char>>)
    ensures
        r@.map_values(|f: Vec<char>| f@) == split_on(s@, sep),
{
    let mut fields: Vec<Vec<char>> = Vec::new();
    let mut cur: Vec<char> = Vec::new();
    let mut i: usize = 0;
    while i < s.len()
        invariant
            i <= s@.len(),
            fields@.map_values(|f: Vec<char>| f@).push(cur@) == split_on(s@.take(i as int), sep),
        decreases s@.len() - i,
    {
        let c = s[i];
        let ghost prev = split_on(s@.take(i as int), sep);
        proof {
            lemma_split_len(s@.take(i as int), sep);
            assert(s@.take(i + 1).drop_last() =~= s@.take(i as int));
        }
        if c == sep {
            let ghost before = fields@;
            fields.push(cur);
            cur = Vec::new();
            assert(fields@.map_values(|f: Vec<char>| f@) =~= before.map_values(
                |f: Vec<char>| f@,
            ).push(prev.last()));
            assert(fields@.map_values(|f: Vec<char>| f@).push(cur@) =~= prev.push(
                Seq::<char>::empty(),
            ));
        } else {
            cur.push(c);
            assert(fields@.map_values(|f: Vec<char>| f@).push(cur@) =~= prev.update(
                prev.len() - 1,
                prev.last().push(c),
            ));
        }
        i += 1;
    }
    assert(s@.take(s@.len() as int) =~= s@);
    let ghost before = fields@;
    fields.push(cur);
    assert(fields@.map_values(|f: Vec<char>| f@) =~= before.map_values(|f: Vec<char>| f@).push(
        cur@,
    ));
    fields
}

/// Reads `s` from `start` on as `u32::from_str` would.
pub fn parse_u32_from(s: &Vec<char>, start: usize) -> (r: Option<u32>)
    requires
        start <= s@.len(),
    ensures
        r == parse_u32(s@.skip(start as int)),
{
    let ghost t = s@.skip(start as int);
    let mut i: usize = start;
    if i < s.len() && s[i] == '+' {
        i += 1;
    }
    let ghost d = s@.skip(i as int);
    assert(d =~= (if t.len() > 0 && t[0] == '+' {
        t.skip(1)
    } else {
        t
    }));
    if i == s.len() {
        assert(d.len() == 0);
        return None;
    }
    let begin = i;
    let mut acc: u64 = 0;
    while i < s.len()
        invariant
            begin <= i <= s@.len(),
            d == s@.skip(begin as int),
            t == s@.skip(start as int),
            d == (if t.len() > 0 && t[0] == '+' {
                t.skip(1)
            } else {
                t
            }),
            all_digits(s@.subrange(begin as int, i as int)),
            acc == digits_value(s@.subrange(begin as int, i as int)),
            acc <= u32::MAX,
        decreases s@.len() - i,
    {
        let c = s[i];
        if c < '0' || c > '9' {
            assert(d[i - begin] == c);
            assert(!all_digits(d));
            assert(parse_u32(t) is None);
            return None;
        }
        let v = (c as u32 - '0' as u32) as u64;
        let ghost pre = s@.subrange(begin as int, i as int);
        let ghost next = s@.subrange(begin as int, i + 1);
        assert(next.drop_last() =~= pre);
        acc = acc * 10 + v;
        i += 1;
        assert(acc == digits_value(next));
        assert(all_digits(next)) by {
            assert forall|j: int| 0 <= j < next.len() implies is_digit(#[trigger] next[j]) by {
                if j < pre.len() {
                    assert(next[j] == pre[j]);
                }
            }
        }
        if acc > u32::MAX as u64 {
            proof {
                if all_digits(d) {
                    assert(d.take(i - begin) =~= next);
                    lemma_digits_prefix(d, i - begin);
                    assert(digits_value(d) > u32::MAX);
                }
                assert(parse_u32(t) is None);
            }
            return None;
        }
    }
    assert(s@.subrange(begin as int, i as int) =~= d);
    Some(acc as u32)
}

/// The digit `d` as text.
pub fn digit_str(d: u32) -> (r: &'static str)
    requires
        d < 10,
    ensures
        r@ == seq![digit_char(d as nat)],
{
    if d == 0 {
        proof {
            reveal_strlit("0");
            assert("0"@ =~= seq!['0']);
        }
        "0"
    } else if d == 1 {
        proof {
            reveal_strlit("1");
            assert("1"@ =~= seq!['1']);
        }
        "1"
    } else if d == 2 {
        proof {
            reveal_strlit("2");
            assert("2"@ =~= seq!['2']);
        }
        "2"
    } else if d == 3 {
        proof {
            reveal_strlit("3");
            assert("3"@ =~= seq!['3']);
        }
        "3"
    } else if d == 4 {
        proof {
            reveal_strlit("4");
            assert("4"@ =~= seq!['4']);
        }
        "4"
    } else if d == 5 {
        proof {
            reveal_strlit("5");
            assert("5"@ =~= seq!['5']);
        }
        "5"
    } else if d == 6 {
        proof {
            reveal_strlit("6");
            assert("6"@ =~= seq!['6']);
        }
        "6"
    } else if d == 7 {
        proof {
            reveal_strlit("7");
            assert("7"@ =~= seq!['7']);
        }
        "7"
    } else if d == 8 {
        proof {
            reveal_strlit("8");
            assert("8"@ =~= seq!['8']);
        }
        "8"
    } else {
        proof {
            reveal_strlit("9");
            assert("9"@ =~= seq!['9']);
        }
        "9"
    }
}

} // verus!
