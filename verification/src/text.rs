//! Text helpers the rest of the library is written against: reading a string as its
//! characters, building one back, trimming, decimal numbers both ways, and comparing.
//!
//! Strings are modelled as their sequence of `char`s throughout. Ordering is by code point,
//! which is also the byte order of their UTF-8 encoding and so the order `str` itself uses.

use vstd::prelude::*;
use vstd::string::*;

verus! {

/// A character's own value as an integer, for ordering and digit arithmetic.
pub open spec fn code(c: char) -> int {
    c as int
}

/// The characters of a string, one by one.
pub fn chars_of(s: &str) -> (chars: Vec<char>)
    ensures
        chars@ == s@,
{
    let n = s.unicode_len();
    let mut chars: Vec<char> = Vec::new();
    for i in 0..n
        invariant
            n == s@.len(),
            chars@ == s@.take(i as int),
    {
        chars.push(s.get_char(i));
        assert(s@.take(i + 1) =~= s@.take(i as int).push(s@[i as int]));
    }
    assert(s@.take(n as int) =~= s@);
    chars
}

/// A string made of the given characters.
///
/// `String`'s `FromIterator<&char>` collects the characters in order; nothing else happens.
#[verifier::external_body]
pub(crate) fn string_from_chars(chars: &Vec<char>) -> (s: String)
    ensures
        s@ == chars@,
{
    chars.iter().collect()
}

/// A string holding exactly the given text.
pub fn owned(s: &str) -> (r: String)
    ensures
        r@ == s@,
{
    String::from_str(s)
}

/// `a` followed by `b`.
pub fn concat(a: &str, b: &str) -> (r: String)
    ensures
        r@ == a@ + b@,
{
    let mut r = String::from_str(a);
    r.append(b);
    r
}

/// A string's view, lifted through an `Option`.
pub open spec fn opt_view(o: Option<String>) -> Option<Seq<char>> {
    match o {
        Some(s) => Some(s@),
        None => None,
    }
}

/// Copies an optional string.
pub fn clone_opt(o: &Option<String>) -> (r: Option<String>)
    ensures
        opt_view(r) == opt_view(*o),
{
    match o {
        Some(s) => Some(s.clone()),
        None => None,
    }
}

// ---------------------------------------------------------------------------------------------
// Whitespace and trimming
// ---------------------------------------------------------------------------------------------

/// Unicode `White_Space`, the set `char::is_whitespace` and `str::trim` go by.
pub open spec fn is_space(c: char) -> bool {
    let v = code(c);
    ||| 0x09 <= v <= 0x0d
    ||| v == 0x20
    ||| v == 0x85
    ||| v == 0xa0
    ||| v == 0x1680
    ||| 0x2000 <= v <= 0x200a
    ||| v == 0x2028
    ||| v == 0x2029
    ||| v == 0x202f
    ||| v == 0x205f
    ||| v == 0x3000
}

pub fn is_space_char(c: char) -> (r: bool)
    ensures
        r == is_space(c),
{
    let v = c as u32;
    (0x09 <= v && v <= 0x0d) || v == 0x20 || v == 0x85 || v == 0xa0 || v == 0x1680 || (0x2000
        <= v && v <= 0x200a) || v == 0x2028 || v == 0x2029 || v == 0x202f || v == 0x205f || v
        == 0x3000
}

/// The text without its leading whitespace.
pub open spec fn trim_start(s: Seq<char>) -> Seq<char>
    decreases s.len(),
{
    if s.len() > 0 && is_space(s[0]) {
        trim_start(s.drop_first())
    } else {
        s
    }
}

/// The text without its trailing whitespace.
pub open spec fn trim_end(s: Seq<char>) -> Seq<char>
    decreases s.len(),
{
    if s.len() > 0 && is_space(s.last()) {
        trim_end(s.drop_last())
    } else {
        s
    }
}

/// What `str::trim` leaves of a text.
pub open spec fn trimmed(s: Seq<char>) -> Seq<char> {
    trim_end(trim_start(s))
}

proof fn lemma_trim_start_from(s: Seq<char>, i: int)
    requires
        0 <= i <= s.len(),
        forall|k: int| 0 <= k < i ==> is_space(#[trigger] s[k]),
    ensures
        trim_start(s) == trim_start(s.skip(i)),
    decreases i,
{
    if i > 0 {
        assert(s.skip(1) =~= s.drop_first());
        lemma_trim_start_from(s.drop_first(), i - 1);
        assert(s.drop_first().skip(i - 1) =~= s.skip(i));
    } else {
        assert(s.skip(0) =~= s);
    }
}

proof fn lemma_trim_end_to(s: Seq<char>, j: int)
    requires
        0 <= j <= s.len(),
        forall|k: int| j <= k < s.len() ==> is_space(#[trigger] s[k]),
    ensures
        trim_end(s) == trim_end(s.take(j)),
    decreases s.len() - j,
{
    if j < s.len() {
        lemma_trim_end_to(s.drop_last(), j);
        assert(s.drop_last().take(j) =~= s.take(j));
    } else {
        assert(s.take(j) =~= s);
    }
}

/// The characters of a text without leading or trailing whitespace.
pub fn trim_chars(s: &Vec<char>) -> (r: Vec<char>)
    ensures
        r@ == trimmed(s@),
{
    let n = s.len();
    let mut i: usize = 0;
    while i < n && is_space_char(s[i])
        invariant
            i <= n,
            n == s@.len(),
            forall|k: int| 0 <= k < i ==> is_space(#[trigger] s@[k]),
        decreases n - i,
    {
        i = i + 1;
    }
    proof {
        lemma_trim_start_from(s@, i as int);
    }
    let ghost rest = s@.skip(i as int);
    assert(i < n ==> !is_space(rest[0]));
    assert(trim_start(rest) == rest);
    let mut j: usize = n;
    while j > i && is_space_char(s[j - 1])
        invariant
            i <= j <= n,
            n == s@.len(),
            forall|k: int| j <= k < n ==> is_space(#[trigger] s@[k]),
        decreases j,
    {
        j = j - 1;
    }
    proof {
        let len = (j - i) as int;
        assert forall|k: int| len <= k < rest.len() implies is_space(#[trigger] rest[k]) by {
            assert(rest[k] == s@[k + i]);
        }
        lemma_trim_end_to(rest, len);
        let cut = rest.take(len);
        assert(len > 0 ==> cut.last() == s@[j - 1]);
        assert(trim_end(cut) == cut);
    }
    let mut r: Vec<char> = Vec::new();
    let mut k: usize = i;
    while k < j
        invariant
            i <= k <= j <= n,
            n == s@.len(),
            r@ =~= s@.subrange(i as int, k as int),
        decreases j - k,
    {
        r.push(s[k]);
        k = k + 1;
    }
    assert(r@ =~= s@.skip(i as int).take((j - i) as int));
    r
}

/// `str::trim`, as a new string.
pub fn trim(s: &str) -> (r: String)
    ensures
        r@ == trimmed(s@),
{
    let chars = chars_of(s);
    let t = trim_chars(&chars);
    string_from_chars(&t)
}

// ---------------------------------------------------------------------------------------------
// Case
// ---------------------------------------------------------------------------------------------

/// What `str::to_uppercase` makes of a text. Unicode's case tables decide it; the library
/// only ever needs it to be the same function of the text every time.
pub uninterp spec fn uppercase_of(s: Seq<char>) -> Seq<char>;

/// `str::to_uppercase`: the text with every character mapped through Unicode's uppercase
/// mapping. Claimed: the result depends on the text alone.
#[verifier::external_body]
pub(crate) fn to_uppercase(s: &str) -> (r: String)
    ensures
        r@ == uppercase_of(s@),
{
    s.to_uppercase()
}

// ---------------------------------------------------------------------------------------------
// Decimal numbers
// ---------------------------------------------------------------------------------------------

pub open spec fn is_digit(c: char) -> bool {
    '0' <= c <= '9'
}

pub open spec fn digit_char(d: nat) -> char
    recommends
        d < 10,
{
    ((d + 48) as u32) as char
}

pub open spec fn digit_value(c: char) -> nat {
    (code(c) - 48) as nat
}

/// The decimal digits of `n`, most significant first, without leading zeros.
pub open spec fn decimal(n: nat) -> Seq<char>
    decreases n,
{
    if n < 10 {
        seq![digit_char(n)]
    } else {
        decimal(n / 10).push(digit_char(n % 10))
    }
}

/// The way `Display` writes a signed integer.
pub open spec fn signed_decimal(n: int) -> Seq<char> {
    if n < 0 {
        seq!['-'] + decimal((-n) as nat)
    } else {
        decimal(n as nat)
    }
}

proof fn lemma_digit_char(d: nat)
    requires
        d < 10,
    ensures
        is_digit(digit_char(d)),
        digit_value(digit_char(d)) == d,
{
    assert(((d + 48) as u32) as char == digit_char(d));
    assert(code(digit_char(d)) == d + 48);
}

/// The digits of `n` are digits, there is at least one, and they read back as `n`.
pub proof fn lemma_decimal(n: nat)
    ensures
        decimal(n).len() > 0,
        all_digits(decimal(n)),
        digits_value(decimal(n)) == n,
    decreases n,
{
    lemma_digit_char(n % 10);
    let d = decimal(n);
    if n < 10 {
        assert(d.drop_last() =~= Seq::<char>::empty());
        assert(d.last() == digit_char(n));
        assert(n % 10 == n);
        assert(digit_value(d.last()) == n);
        assert(digits_value(d) == digits_value(d.drop_last()) * 10 + digit_value(d.last()));
    } else {
        lemma_decimal(n / 10);
        assert(d.drop_last() =~= decimal(n / 10));
        assert(d.last() == digit_char(n % 10));
        assert(digits_value(d) == digits_value(decimal(n / 10)) * 10 + digit_value(d.last()));
        assert(digit_value(d.last()) == n % 10);
        assert(n == (n / 10) * 10 + n % 10);
        assert forall|i: int| 0 <= i < d.len() implies is_digit(#[trigger] d[i]) by {
            if i < d.len() - 1 {
                assert(d[i] == decimal(n / 10)[i]);
            }
        }
    }
}

/// A written integer starts with a minus sign or a digit.
pub proof fn lemma_signed_decimal_starts(n: int)
    ensures
        signed_decimal(n).len() > 0,
        signed_decimal(n)[0] == '-' || is_digit(signed_decimal(n)[0]),
{
    if n < 0 {
        lemma_decimal((-n) as nat);
    } else {
        lemma_decimal(n as nat);
    }
}

/// What `Display` writes for an integer, `FromStr` reads back as the same integer.
pub proof fn lemma_signed_decimal_parses(n: int, min: int, max: int)
    requires
        min <= n <= max,
    ensures
        parsed_integer(signed_decimal(n), true, min, max) == Some(n),
{
    if n < 0 {
        let m = (-n) as nat;
        lemma_decimal(m);
        let s = signed_decimal(n);
        assert(s.skip(1) =~= decimal(m));
        assert(s[0] == '-');
    } else {
        lemma_decimal(n as nat);
        let s = signed_decimal(n);
        assert(is_digit(s[0]));
    }
}

fn push_digits(n: u64, out: &mut Vec<char>)
    ensures
        final(out)@ == old(out)@ + decimal(n as nat),
    decreases n,
{
    if n >= 10 {
        push_digits(n / 10, out);
    }
    let d = (n % 10) as u32;
    let c = char_from_digit(d);
    out.push(c);
    proof {
        if n >= 10 {
            assert(decimal(n as nat) == decimal((n / 10) as nat).push(digit_char((n % 10) as nat)));
        }
    }
}

fn char_from_digit(d: u32) -> (c: char)
    requires
        d < 10,
    ensures
        c == digit_char(d as nat),
{
    match d {
        0 => '0',
        1 => '1',
        2 => '2',
        3 => '3',
        4 => '4',
        5 => '5',
        6 => '6',
        7 => '7',
        8 => '8',
        _ => '9',
    }
}

/// An unsigned number as its decimal digits.
pub fn decimal_u64(n: u64) -> (r: String)
    ensures
        r@ == decimal(n as nat),
{
    let mut v: Vec<char> = Vec::new();
    push_digits(n, &mut v);
    assert(v@ =~= decimal(n as nat));
    string_from_chars(&v)
}

/// A signed number the way `Display` writes it.
pub fn decimal_i64(n: i64) -> (r: String)
    ensures
        r@ == signed_decimal(n as int),
{
    let mut v: Vec<char> = Vec::new();
    if n < 0 {
        v.push('-');
        let magnitude: u64 = if n == i64::MIN {
            9223372036854775808u64
        } else {
            (-n) as u64
        };
        push_digits(magnitude, &mut v);
    } else {
        push_digits(n as u64, &mut v);
    }
    assert(v@ =~= signed_decimal(n as int));
    string_from_chars(&v)
}

/// The value of a run of decimal digits.
pub open spec fn digits_value(s: Seq<char>) -> nat
    decreases s.len(),
{
    if s.len() == 0 {
        0
    } else {
        digits_value(s.drop_last()) * 10 + digit_value(s.last())
    }
}

pub open spec fn all_digits(s: Seq<char>) -> bool {
    forall|i: int| 0 <= i < s.len() ==> is_digit(#[trigger] s[i])
}

/// What `FromStr` makes of a text for an integer type whose values run from `min` to `max`:
/// an optional sign (`-` only where the type is signed), then at least one digit, nothing else,
/// and a value the type can hold.
pub open spec fn parsed_integer(s: Seq<char>, signed: bool, min: int, max: int) -> Option<int> {
    let negative = signed && s.len() > 0 && s[0] == '-';
    let body = if s.len() > 0 && (s[0] == '+' || negative) {
        s.skip(1)
    } else {
        s
    };
    if body.len() == 0 || !all_digits(body) {
        None
    } else {
        let value = if negative {
            -(digits_value(body) as int)
        } else {
            digits_value(body) as int
        };
        if min <= value <= max {
            Some(value)
        } else {
            None
        }
    }
}

proof fn lemma_digits_value_grows(s: Seq<char>, k: int)
    requires
        0 <= k <= s.len(),
        all_digits(s),
    ensures
        digits_value(s.take(k)) <= digits_value(s),
    decreases s.len() - k,
{
    if k < s.len() {
        lemma_digits_value_grows(s, k + 1);
        assert(s.take(k + 1).drop_last() =~= s.take(k));
    } else {
        assert(s.take(k) =~= s);
    }
}

/// Parses a decimal integer with Rust's `FromStr` rules for a type ranging over
/// `min..=max`. Digits are accumulated in 128 bits and the scan stops as soon as the value
/// cannot fit any more.
pub fn parse_integer(s: &str, signed: bool, min: i128, max: i128) -> (r: Option<i128>)
    requires
        min <= 0 <= max,
        -0x1_0000_0000_0000_0000 <= min,
        max <= 0x1_0000_0000_0000_0000,
    ensures
        match r {
            Some(v) => parsed_integer(s@, signed, min as int, max as int) == Some(v as int),
            None => parsed_integer(s@, signed, min as int, max as int) is None,
        },
{
    let chars = chars_of(s);
    let n = chars.len();
    let negative = signed && n > 0 && chars[0] == '-';
    let start: usize = if n > 0 && (chars[0] == '+' || negative) {
        1
    } else {
        0
    };
    let ghost body = s@.skip(start as int);
    assert(body.len() == n - start);
    assert(negative == (signed && s@.len() > 0 && s@[0] == '-'));
    assert(body == (if s@.len() > 0 && (s@[0] == '+' || negative) {
        s@.skip(1)
    } else {
        s@
    })) by {
        if start == 0 {
            assert(s@.skip(0) =~= s@);
        }
    }
    if start == n {
        return None;
    }
    let limit: i128 = if negative {
        -min
    } else {
        max
    };
    let mut value: i128 = 0;
    let mut i: usize = start;
    while i < n
        invariant
            start <= i <= n,
            n == s@.len(),
            chars@ == s@,
            body == s@.skip(start as int),
            negative == (signed && s@.len() > 0 && s@[0] == '-'),
            body == (if s@.len() > 0 && (s@[0] == '+' || negative) {
                s@.skip(1)
            } else {
                s@
            }),
            body.len() > 0,
            limit == (if negative { -min } else { max as int }),
            min <= 0 <= max,
            0 <= limit <= 0x1_0000_0000_0000_0000,
            0 <= value <= limit,
            forall|k: int| start <= k < i ==> is_digit(#[trigger] chars@[k]),
            value == digits_value(body.take(i - start)),
        decreases n - i,
    {
        let c = chars[i];
        if !('0' <= c && c <= '9') {
            assert(body[i - start] == c);
            assert(!is_digit(body[i - start]));
            assert(!all_digits(body));
            return None;
        }
        let d = (c as u32 - '0' as u32) as i128;
        let ghost longer = body.take(i + 1 - start);
        assert(longer.drop_last() =~= body.take(i - start));
        assert(longer.last() == c);
        assert(digit_value(c) == d);
        assert(digits_value(longer) == value * 10 + d);
        assert(value * 10 + d <= 0x1_0000_0000_0000_0000 * 10 + 9) by (nonlinear_arith)
            requires
                0 <= value <= 0x1_0000_0000_0000_0000,
                0 <= d <= 9,
        ;
        if value * 10 + d > limit {
            proof {
                if all_digits(body) {
                    lemma_digits_value_grows(body, i + 1 - start);
                    assert(digits_value(body) > limit);
                }
            }
            return None;
        }
        value = value * 10 + d;
        i = i + 1;
    }
    assert(body.take(n - start) =~= body);
    assert(all_digits(body));
    assert(body.len() > 0);
    assert(value == digits_value(body));
    if negative {
        assert(parsed_integer(s@, signed, min as int, max as int) == Some(-(value as int)));
        Some(-value)
    } else {
        assert(parsed_integer(s@, signed, min as int, max as int) == Some(value as int));
        Some(value)
    }
}

// ---------------------------------------------------------------------------------------------
// Ordering and equality
// ---------------------------------------------------------------------------------------------

/// Strict lexicographic order by code point.
pub open spec fn seq_less(a: Seq<char>, b: Seq<char>) -> bool
    decreases a.len(),
{
    if a.len() == 0 {
        b.len() > 0
    } else if b.len() == 0 {
        false
    } else if code(a[0]) != code(b[0]) {
        code(a[0]) < code(b[0])
    } else {
        seq_less(a.drop_first(), b.drop_first())
    }
}

pub open spec fn seq_le(a: Seq<char>, b: Seq<char>) -> bool {
    seq_less(a, b) || a == b
}

/// Text order is a strict total order.
pub proof fn lemma_seq_less_irreflexive(a: Seq<char>)
    ensures
        !seq_less(a, a),
    decreases a.len(),
{
    if a.len() > 0 {
        lemma_seq_less_irreflexive(a.drop_first());
    }
}

pub proof fn lemma_seq_less_transitive(a: Seq<char>, b: Seq<char>, c: Seq<char>)
    requires
        seq_less(a, b),
        seq_less(b, c),
    ensures
        seq_less(a, c),
    decreases a.len(),
{
    if a.len() > 0 && b.len() > 0 && c.len() > 0 && code(a[0]) == code(b[0]) && code(b[0]) == code(
        c[0],
    ) {
        lemma_seq_less_transitive(a.drop_first(), b.drop_first(), c.drop_first());
    }
}

pub proof fn lemma_seq_less_total(a: Seq<char>, b: Seq<char>)
    ensures
        seq_less(a, b) || seq_less(b, a) || a == b,
    decreases a.len(),
{
    if a.len() > 0 && b.len() > 0 && code(a[0]) == code(b[0]) {
        lemma_seq_less_total(a.drop_first(), b.drop_first());
        if a.drop_first() == b.drop_first() {
            assert(a =~= seq![a[0]] + a.drop_first());
            assert(b =~= seq![b[0]] + b.drop_first());
        }
    } else if a.len() == 0 && b.len() == 0 {
        assert(a =~= b);
    }
}

pub proof fn lemma_seq_less_asymmetric(a: Seq<char>, b: Seq<char>)
    requires
        seq_less(a, b),
    ensures
        !seq_less(b, a),
{
    if seq_less(b, a) {
        lemma_seq_less_transitive(a, b, a);
        lemma_seq_less_irreflexive(a);
    }
}

/// The outcome of comparing two values. Kept apart from `std`'s so it can live in fields.
#[derive(Debug, Clone, Copy, PartialEq, Eq, Structural)]
pub enum Order {
    Less,
    Equal,
    Greater,
}

proof fn lemma_seq_less_from(a: Seq<char>, b: Seq<char>, i: int)
    requires
        0 <= i <= a.len(),
        i <= b.len(),
        forall|k: int| 0 <= k < i ==> a[k] == b[k],
    ensures
        seq_less(a, b) == seq_less(a.skip(i), b.skip(i)),
        a == b <==> a.skip(i) == b.skip(i),
    decreases i,
{
    if i > 0 {
        lemma_seq_less_from(a.drop_first(), b.drop_first(), i - 1);
        assert(a.drop_first().skip(i - 1) =~= a.skip(i));
        assert(b.drop_first().skip(i - 1) =~= b.skip(i));
        if a.drop_first() == b.drop_first() {
            assert forall|k: int| 0 <= k < a.len() implies a[k] == b[k] by {
                if k > 0 {
                    assert(a[k] == a.drop_first()[k - 1]);
                    assert(b[k] == b.drop_first()[k - 1]);
                }
            }
            assert(a =~= b);
        }
        if a == b {
            assert(a.drop_first() =~= b.drop_first());
        }
        assert(a.len() > 0 && b.len() > 0);
        assert(a[0] == b[0]);
    } else {
        assert(a.skip(0) =~= a);
        assert(b.skip(0) =~= b);
    }
}

/// Compares two character sequences by code point.
pub fn order_chars(a: &Vec<char>, b: &Vec<char>) -> (r: Order)
    ensures
        r == Order::Less <==> seq_less(a@, b@),
        r == Order::Equal <==> a@ == b@,
        r == Order::Greater <==> seq_less(b@, a@),
{
    let mut i: usize = 0;
    while i < a.len() && i < b.len()
        invariant
            i <= a@.len(),
            i <= b@.len(),
            forall|k: int| 0 <= k < i ==> a@[k] == b@[k],
        decreases a.len() - i,
    {
        if a[i] != b[i] {
            proof {
                lemma_seq_less_from(a@, b@, i as int);
                lemma_seq_less_from(b@, a@, i as int);
                let x = a@.skip(i as int);
                let y = b@.skip(i as int);
                assert(x[0] == a@[i as int]);
                assert(y[0] == b@[i as int]);
                assert(x[0] != y[0]);
                assert(code(x[0]) != code(y[0]));
                assert(x != y);
                assert(x.len() > 0 && y.len() > 0);
                assert(seq_less(x, y) == (code(x[0]) < code(y[0])));
                assert(seq_less(y, x) == (code(y[0]) < code(x[0])));
            }
            if a[i] < b[i] {
                return Order::Less;
            } else {
                return Order::Greater;
            }
        }
        i = i + 1;
    }
    proof {
        lemma_seq_less_from(a@, b@, i as int);
        lemma_seq_less_from(b@, a@, i as int);
        let x = a@.skip(i as int);
        let y = b@.skip(i as int);
        assert(x.len() == 0 || y.len() == 0);
        if x.len() == 0 && y.len() == 0 {
            assert(x =~= y);
        }
        if x.len() == 0 {
            assert(seq_less(x, y) == (y.len() > 0));
        }
        if y.len() == 0 {
            assert(seq_less(y, x) == (x.len() > 0));
            assert(x.len() > 0 ==> !seq_less(x, y));
        }
    }
    if a.len() < b.len() {
        Order::Less
    } else if a.len() == b.len() {
        Order::Equal
    } else {
        Order::Greater
    }
}

/// Compares two strings by code point.
pub fn order_str(a: &str, b: &str) -> (r: Order)
    ensures
        r == Order::Less <==> seq_less(a@, b@),
        r == Order::Equal <==> a@ == b@,
        r == Order::Greater <==> seq_less(b@, a@),
{
    let x = chars_of(a);
    let y = chars_of(b);
    order_chars(&x, &y)
}

/// Whether two strings hold the same text.
pub fn same_text(a: &str, b: &str) -> (r: bool)
    ensures
        r == (a@ == b@),
{
    order_str(a, b) == Order::Equal
}

/// `a < b` by code point, the way `str` compares.
pub fn str_less(a: &str, b: &str) -> (r: bool)
    ensures
        r == seq_less(a@, b@),
{
    order_str(a, b) == Order::Less
}

/// `a <= b` by code point, the way `str` compares.
pub fn str_le(a: &str, b: &str) -> (r: bool)
    ensures
        r == seq_le(a@, b@),
{
    order_str(a, b) != Order::Greater
}

/// Whether a text starts with another, and what follows it.
pub fn strip_prefix(s: &str, prefix: &str) -> (r: Option<String>)
    ensures
        match r {
            Some(rest) => s@.len() >= prefix@.len() && s@.take(prefix@.len() as int) == prefix@
                && rest@ == s@.skip(prefix@.len() as int),
            None => !(s@.len() >= prefix@.len() && s@.take(prefix@.len() as int) == prefix@),
        },
{
    let a = chars_of(s);
    let p = chars_of(prefix);
    if a.len() < p.len() {
        return None;
    }
    let mut i: usize = 0;
    while i < p.len()
        invariant
            p@.len() <= a@.len(),
            a@ == s@,
            p@ == prefix@,
            i <= p@.len(),
            forall|k: int| 0 <= k < i ==> a@[k] == p@[k],
        decreases p.len() - i,
    {
        if a[i] != p[i] {
            assert(s@.take(prefix@.len() as int)[i as int] != prefix@[i as int]);
            return None;
        }
        i = i + 1;
    }
    assert(s@.take(prefix@.len() as int) =~= prefix@);
    let mut rest: Vec<char> = Vec::new();
    let mut k: usize = p.len();
    while k < a.len()
        invariant
            p@.len() <= k <= a@.len(),
            rest@ =~= a@.subrange(p@.len() as int, k as int),
        decreases a.len() - k,
    {
        rest.push(a[k]);
        k = k + 1;
    }
    assert(rest@ =~= s@.skip(prefix@.len() as int));
    Some(string_from_chars(&rest))
}

/// Whether `s` ends with `suffix`.
pub open spec fn has_suffix(s: Seq<char>, suffix: Seq<char>) -> bool {
    s.len() >= suffix.len() && s.skip(s.len() - suffix.len()) == suffix
}

/// Whether a text ends with another.
pub fn ends_with(s: &str, suffix: &str) -> (r: bool)
    ensures
        r == has_suffix(s@, suffix@),
{
    let a = chars_of(s);
    let p = chars_of(suffix);
    if a.len() < p.len() {
        return false;
    }
    let off = a.len() - p.len();
    let mut j: usize = off;
    while j < a.len()
        invariant
            off + p@.len() == a@.len(),
            a@ == s@,
            p@ == suffix@,
            off == s@.len() - suffix@.len(),
            off <= j <= a@.len(),
            forall|k: int| 0 <= k < j - off ==> a@[off + k] == p@[k],
        decreases a.len() - j,
    {
        if a[j] != p[j - off] {
            assert(s@.skip(off as int)[j - off] == a@[j as int]);
            assert(s@.skip(off as int)[j - off] != suffix@[j - off]);
            return false;
        }
        j = j + 1;
    }
    assert(s@.skip(off as int) =~= suffix@);
    true
}

} // verus!
