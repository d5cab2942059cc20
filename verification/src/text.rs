//! Character-level text helpers: decimal numbers, whitespace, searching and trimming.
use vstd::prelude::*;

verus! {

/// Appends a character to a string, through `String::push`.
/// Trusted: std documents that `push` appends the given char to the end of the string.
#[verifier::external_body]
pub(crate) fn push_char(s: &mut String, c: char)
    ensures
        final(s)@ == old(s)@.push(c),
{
    s.push(c);
}

/// The characters of a string.
pub fn chars_of(s: &str) -> (r: Vec<char>)
    ensures
        r@ == s@,
{
    let mut r: Vec<char> = Vec::new();
    for c in it: s.chars()
        invariant
            r@ == it.seq().take(it.index() as int),
    {
        r.push(c);
    }
    r
}

/// The characters of `v[lo..hi]` as a string.
pub fn string_of(v: &Vec<char>, lo: usize, hi: usize) -> (r: String)
    requires
        lo <= hi <= v.len(),
    ensures
        r@ == v@.subrange(lo as int, hi as int),
{
    let mut r = String::new();
    let mut i = lo;
    while i < hi
        invariant
            lo <= i <= hi <= v.len(),
            r@ == v@.subrange(lo as int, i as int),
        decreases hi - i,
    {
        push_char(&mut r, v[i]);
        proof {
            assert(v@.subrange(lo as int, i + 1) =~= v@.subrange(lo as int, i as int).push(v@[i as int]));
        }
        i = i + 1;
    }
    r
}

/// Whether `c` has the Unicode `White_Space` property.
pub open spec fn is_unicode_whitespace(c: char) -> bool {
    let u = c as u32;
    ||| 0x9 <= u <= 0xD
    ||| u == 0x20
    ||| u == 0x85
    ||| u == 0xA0
    ||| u == 0x1680
    ||| 0x2000 <= u <= 0x200A
    ||| u == 0x2028
    ||| u == 0x2029
    ||| u == 0x202F
    ||| u == 0x205F
    ||| u == 0x3000
}

pub fn is_whitespace(c: char) -> (r: bool)
    ensures
        r == is_unicode_whitespace(c),
{
    let u = c as u32;
    (0x9 <= u && u <= 0xD) || u == 0x20 || u == 0x85 || u == 0xA0 || u == 0x1680 || (0x2000 <= u
        && u <= 0x200A) || u == 0x2028 || u == 0x2029 || u == 0x202F || u == 0x205F || u == 0x3000
}

// ---------------------------------------------------------------------------
// Decimal notation
// ---------------------------------------------------------------------------

pub open spec fn digit_char(d: int) -> char {
    if d == 0 {
        '0'
    } else if d == 1 {
        '1'
    } else if d == 2 {
        '2'
    } else if d == 3 {
        '3'
    } else if d == 4 {
        '4'
    } else if d == 5 {
        '5'
    } else if d == 6 {
        '6'
    } else if d == 7 {
        '7'
    } else if d == 8 {
        '8'
    } else {
        '9'
    }
}

/// The decimal notation of a natural number, without leading zeros.
pub open spec fn nat_decimal(n: nat) -> Seq<char>
    decreases n,
{
    if n < 10 {
        seq![digit_char(n as int)]
    } else {
        nat_decimal(n / 10).push(digit_char((n % 10) as int))
    }
}

/// The decimal notation of an integer, with a leading `-` when it is negative.
pub open spec fn int_decimal(i: int) -> Seq<char> {
    if i < 0 {
        seq!['-'] + nat_decimal((-i) as nat)
    } else {
        nat_decimal(i as nat)
    }
}

fn digit(d: u64) -> (r: char)
    requires
        d < 10,
    ensures
        r == digit_char(d as int),
{
    if d == 0 {
        '0'
    } else if d == 1 {
        '1'
    } else if d == 2 {
        '2'
    } else if d == 3 {
        '3'
    } else if d == 4 {
        '4'
    } else if d == 5 {
        '5'
    } else if d == 6 {
        '6'
    } else if d == 7 {
        '7'
    } else if d == 8 {
        '8'
    } else {
        '9'
    }
}

/// Appends the decimal notation of `n`.
pub fn push_nat(s: &mut String, n: u64)
    ensures
        final(s)@ == old(s)@ + nat_decimal(n as nat),
    decreases n,
{
    if n >= 10 {
        push_nat(s, n / 10);
    }
    push_char(s, digit(n % 10));
    proof {
        if n < 10 {
            assert(nat_decimal(n as nat) == seq![digit_char(n as int)]);
        }
    }
}

/// Appends the decimal notation of `i`, as `{}` formats an integer.
pub fn push_int(s: &mut String, i: i64)
    requires
        i > i64::MIN,
    ensures
        final(s)@ == old(s)@ + int_decimal(i as int),
{
    if i < 0 {
        push_char(s, '-');
        push_nat(s, (-i) as u64);
        proof {
            assert(final(s)@ =~= old(s)@ + (seq!['-'] + nat_decimal((-i) as nat)));
        }
    } else {
        push_nat(s, i as u64);
    }
}

// ---------------------------------------------------------------------------
// Searching
// ---------------------------------------------------------------------------

pub open spec fn char_is(c: char) -> spec_fn(char) -> bool {
    |x: char| x == c
}

pub open spec fn not_whitespace() -> spec_fn(char) -> bool {
    |x: char| !is_unicode_whitespace(x)
}

/// The index of the first character of `s` that satisfies `f`.
pub open spec fn first_where(s: Seq<char>, f: spec_fn(char) -> bool) -> Option<int>
    decreases s.len(),
{
    if s.len() == 0 {
        None
    } else if f(s[0]) {
        Some(0)
    } else {
        match first_where(s.drop_first(), f) {
            Some(i) => Some(i + 1),
            None => None,
        }
    }
}

/// The index of the last character of `s` that satisfies `f`.
pub open spec fn last_where(s: Seq<char>, f: spec_fn(char) -> bool) -> Option<int>
    decreases s.len(),
{
    if s.len() == 0 {
        None
    } else if f(s.last()) {
        Some(s.len() - 1)
    } else {
        last_where(s.drop_last(), f)
    }
}

pub proof fn lemma_first_where(s: Seq<char>, f: spec_fn(char) -> bool)
    ensures
        match first_where(s, f) {
            Some(i) => 0 <= i < s.len() && f(s[i]) && forall|j: int| 0 <= j < i ==> !f(s[j]),
            None => forall|j: int| 0 <= j < s.len() ==> !f(s[j]),
        },
    decreases s.len(),
{
    if s.len() > 0 {
        lemma_first_where(s.drop_first(), f);
        if !f(s[0]) {
            assert forall|j: int| 1 <= j < s.len() implies s[j] == s.drop_first()[j - 1] by {}
        }
    }
}

pub proof fn lemma_last_where(s: Seq<char>, f: spec_fn(char) -> bool)
    ensures
        match last_where(s, f) {
            Some(i) => 0 <= i < s.len() && f(s[i]) && forall|j: int| i < j < s.len() ==> !f(s[j]),
            None => forall|j: int| 0 <= j < s.len() ==> !f(s[j]),
        },
    decreases s.len(),
{
    if s.len() > 0 {
        lemma_last_where(s.drop_last(), f);
        assert forall|j: int| 0 <= j < s.len() - 1 implies s[j] == s.drop_last()[j] by {}
    }
}

/// The first index in `v[lo..hi]` holding `c`.
pub fn find_first_char(v: &Vec<char>, lo: usize, hi: usize, c: char) -> (r: Option<usize>)
    requires
        lo <= hi <= v.len(),
    ensures
        match first_where(v@.subrange(lo as int, hi as int), char_is(c)) {
            Some(i) => r == Some((lo + i) as usize),
            None => r is None,
        },
{
    let mut i = lo;
    while i < hi
        invariant
            lo <= i <= hi <= v.len(),
            first_where(v@.subrange(lo as int, hi as int), char_is(c)) == match first_where(
                v@.subrange(i as int, hi as int),
                char_is(c),
            ) {
                Some(k) => Some(k + (i - lo)),
                None => None::<int>,
            },
        decreases hi - i,
    {
        if v[i] == c {
            return Some(i);
        }
        proof {
            assert(v@.subrange(i as int, hi as int).drop_first() =~= v@.subrange(i + 1, hi as int));
        }
        i = i + 1;
    }
    None
}

/// The last index in `v[lo..hi]` holding `c`.
pub fn find_last_char(v: &Vec<char>, lo: usize, hi: usize, c: char) -> (r: Option<usize>)
    requires
        lo <= hi <= v.len(),
    ensures
        match last_where(v@.subrange(lo as int, hi as int), char_is(c)) {
            Some(i) => r == Some((lo + i) as usize),
            None => r is None,
        },
{
    let mut i = hi;
    while i > lo
        invariant
            lo <= i <= hi <= v.len(),
            last_where(v@.subrange(lo as int, hi as int), char_is(c)) == last_where(
                v@.subrange(lo as int, i as int),
                char_is(c),
            ),
        decreases i - lo,
    {
        proof {
            assert(v@.subrange(lo as int, i as int).drop_last() =~= v@.subrange(lo as int, i - 1));
        }
        if v[i - 1] == c {
            return Some(i - 1);
        }
        i = i - 1;
    }
    None
}

// ---------------------------------------------------------------------------
// Trimming
// ---------------------------------------------------------------------------

/// `s` without leading and trailing whitespace, as `str::trim` gives it.
pub open spec fn trim_seq(s: Seq<char>) -> Seq<char> {
    match first_where(s, not_whitespace()) {
        None => Seq::empty(),
        Some(a) => match last_where(s, not_whitespace()) {
            Some(b) => s.subrange(a, b + 1),
            None => Seq::empty(),
        },
    }
}

/// The bounds of `v[lo..hi]` without leading and trailing whitespace.
pub fn trim_range(v: &Vec<char>, lo: usize, hi: usize) -> (r: (usize, usize))
    requires
        lo <= hi <= v.len(),
    ensures
        lo <= r.0 <= r.1 <= hi,
        v@.subrange(r.0 as int, r.1 as int) == trim_seq(v@.subrange(lo as int, hi as int)),
{
    let ghost s = v@.subrange(lo as int, hi as int);
    let mut a = lo;
    while a < hi && is_whitespace(v[a])
        invariant
            lo <= a <= hi <= v.len(),
            s == v@.subrange(lo as int, hi as int),
            forall|j: int| lo <= j < a ==> is_unicode_whitespace(#[trigger] v@[j]),
        decreases hi - a,
    {
        a = a + 1;
    }
    proof {
        lemma_first_where(s, not_whitespace());
        lemma_last_where(s, not_whitespace());
    }
    if a == hi {
        proof {
            match first_where(s, not_whitespace()) {
                Some(i) => {
                    assert(is_unicode_whitespace(v@[lo + i]));
                    assert(s[i] == v@[lo + i]);
                },
                None => {},
            }
            assert(v@.subrange(hi as int, hi as int) =~= Seq::<char>::empty());
        }
        return (hi, hi);
    }
    let mut b = hi;
    while b > a + 1 && is_whitespace(v[b - 1])
        invariant
            lo <= a < b <= hi <= v.len(),
            !is_unicode_whitespace(v@[a as int]),
            forall|j: int| b <= j < hi ==> is_unicode_whitespace(#[trigger] v@[j]),
        decreases b - a,
    {
        b = b - 1;
    }
    proof {
        match first_where(s, not_whitespace()) {
            Some(i) => {
                assert(s[a - lo] == v@[a as int]);
                assert(s[i] == v@[lo + i]);
                assert(i == a - lo);
            },
            None => {
                assert(s[a - lo] == v@[a as int]);
            },
        }
        match last_where(s, not_whitespace()) {
            Some(i) => {
                assert(s[b - 1 - lo] == v@[b - 1]);
                assert(s[i] == v@[lo + i]);
                assert(i == b - 1 - lo);
            },
            None => {
                assert(s[b - 1 - lo] == v@[b - 1]);
            },
        }
        assert(v@.subrange(a as int, b as int) =~= s.subrange(a - lo, b - lo));
    }
    (a, b)
}

/// Appends `t` to `s`.
pub fn append_str(s: &mut String, t: &str)
    ensures
        final(s)@ == old(s)@ + t@,
{
    let v = chars_of(t);
    let n = v.len();
    let mut i: usize = 0;
    while i < n
        invariant
            n == v.len(),
            v@ == t@,
            0 <= i <= n,
            s@ == old(s)@ + v@.subrange(0, i as int),
        decreases n - i,
    {
        push_char(s, v[i]);
        proof {
            assert(v@.subrange(0, i + 1) =~= v@.subrange(0, i as int).push(v@[i as int]));
        }
        i = i + 1;
    }
    proof {
        assert(v@.subrange(0, n as int) =~= v@);
    }
}

/// Whether `v` begins with `p`.
pub fn starts_with(v: &Vec<char>, p: &Vec<char>) -> (r: bool)
    ensures
        r == p@.is_prefix_of(v@),
{
    if p.len() > v.len() {
        return false;
    }
    let mut i: usize = 0;
    while i < p.len()
        invariant
            p.len() <= v.len(),
            0 <= i <= p.len(),
            forall|j: int| 0 <= j < i ==> p@[j] == v@[j],
        decreases p.len() - i,
    {
        if p[i] != v[i] {
            return false;
        }
        i = i + 1;
    }
    true
}

} // verus!
