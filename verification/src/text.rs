use vstd::prelude::*;
use vstd::utf8::encode_utf8;
use crate::sort::Ranked;

verus! {

/// The result of comparing two values that are totally ordered.
#[derive(Clone, Copy, Debug, PartialEq, Eq, Structural)]
pub enum Order {
    Less,
    Equal,
    Greater,
}

impl Order {
    /// The opposite outcome: what comparing the two values the other way round gives.
    pub open spec fn flip(self) -> Order {
        match self {
            Order::Less => Order::Greater,
            Order::Equal => Order::Equal,
            Order::Greater => Order::Less,
        }
    }
}

/// Lexicographic order of two byte strings, as `[u8]`'s `Ord` (and so `str`'s) defines it.
pub open spec fn lex_order(a: Seq<u8>, b: Seq<u8>) -> Order
    decreases a.len(),
{
    if a.len() == 0 {
        if b.len() == 0 { Order::Equal } else { Order::Less }
    } else if b.len() == 0 {
        Order::Greater
    } else if a[0] < b[0] {
        Order::Less
    } else if a[0] > b[0] {
        Order::Greater
    } else {
        lex_order(a.drop_first(), b.drop_first())
    }
}

/// Whether `t` occurs in `s` as a contiguous piece.
pub open spec fn has_substring(s: Seq<char>, t: Seq<char>) -> bool {
    exists|i: int| 0 <= i && i + t.len() <= s.len() && #[trigger] s.subrange(i, i + t.len()) == t
}

/// The character of a decimal digit.
pub open spec fn digit_char(d: nat) -> char {
    ((48 + d) as u32) as char
}

/// Decimal notation of a natural number, without leading zeros.
pub open spec fn decimal(n: nat) -> Seq<char>
    decreases n,
{
    if n < 10 {
        seq![digit_char(n)]
    } else {
        decimal(n / 10).push(digit_char(n % 10))
    }
}

/// Decimal notation of an integer, as `i64`'s `Display` writes it.
pub open spec fn signed_decimal(n: int) -> Seq<char> {
    if n < 0 {
        seq!['-'] + decimal((-n) as nat)
    } else {
        decimal(n as nat)
    }
}

/// What `str::to_lowercase` gives for a string: Unicode's lowercase mapping of each
/// character, with the final-sigma rule. The standard library computes it from the
/// Unicode tables; it depends on the characters alone.
pub uninterp spec fn lowercase(s: Seq<char>) -> Seq<char>;

/// Appends one character to a string.
///
/// Wraps `String::push`, which the standard library documents as appending the
/// given `char` to the end of the string; the contract states exactly that.
#[verifier::external_body]
pub(crate) fn push_char(s: &mut String, c: char)
    ensures
        final(s)@ == old(s)@.push(c),
{
    s.push(c)
}

/// Lowercases a string.
///
/// Wraps `str::to_lowercase`; the contract says only that the result is the
/// lowercase mapping of the argument's characters, named `lowercase`.
#[verifier::external_body]
pub(crate) fn to_lowercase(s: &str) -> (res: String)
    ensures
        res@ == lowercase(s@),
{
    s.to_lowercase()
}

/// The characters of a string slice, in order.
pub fn chars_of(s: &str) -> (res: Vec<char>)
    ensures
        res@ == s@,
{
    let mut res: Vec<char> = Vec::new();
    for c in it: s.chars()
        invariant
            res@ == it.seq().take(it.index() as int),
    {
        res.push(c);
    }
    res
}

/// A string made of the given characters, in order.
pub fn string_of(cs: &[char]) -> (res: String)
    ensures
        res@ == cs@,
{
    let mut res = String::new();
    let mut i: usize = 0;
    while i < cs.len()
        invariant
            i <= cs.len(),
            res@ == cs@.take(i as int),
        decreases cs.len() - i,
    {
        push_char(&mut res, cs[i]);
        assert(cs@.take(i as int).push(cs@[i as int]) =~= cs@.take(i + 1));
        i = i + 1;
    }
    assert(cs@.take(cs.len() as int) =~= cs@);
    res
}

/// Whether two character slices hold the same characters.
pub fn chars_equal(a: &[char], b: &[char]) -> (res: bool)
    ensures
        res == (a@ == b@),
{
    if a.len() != b.len() {
        return false;
    }
    let mut i: usize = 0;
    while i < a.len()
        invariant
            a.len() == b.len(),
            i <= a.len(),
            forall|j: int| 0 <= j < i ==> a@[j] == b@[j],
        decreases a.len() - i,
    {
        if a[i] != b[i] {
            return false;
        }
        i = i + 1;
    }
    assert(a@ =~= b@);
    true
}

/// Whether a string's characters equal the given characters.
pub fn str_is(s: &str, t: &str) -> (res: bool)
    ensures
        res == (s@ == t@),
{
    let a = chars_of(s);
    let b = chars_of(t);
    chars_equal(a.as_slice(), b.as_slice())
}

/// Whether `t` occurs in `s` as a contiguous piece, as `str::contains` with a
/// `&str` pattern answers.
pub fn contains_chars(s: &[char], t: &[char]) -> (res: bool)
    ensures
        res == has_substring(s@, t@),
{
    if t.len() > s.len() {
        return false;
    }
    let last = s.len() - t.len();
    let mut i: usize = 0;
    while i <= last
        invariant
            last == s.len() - t.len(),
            i <= last + 1,
            forall|k: int| 0 <= k < i ==> #[trigger] s@.subrange(k, k + t.len()) != t@,
        decreases last + 1 - i,
    {
        let mut j: usize = 0;
        let mut same = true;
        while j < t.len()
            invariant
                i <= last,
                last == s.len() - t.len(),
                j <= t.len(),
                same == (forall|m: int| 0 <= m < j ==> s@[i + m] == t@[m]),
            decreases t.len() - j,
        {
            if s[i + j] != t[j] {
                same = false;
            }
            j = j + 1;
        }
        if same {
            assert(s@.subrange(i as int, i + t.len()) =~= t@);
            return true;
        } else {
            assert(s@.subrange(i as int, i + t.len()) != t@) by {
                let m = choose|m: int| 0 <= m < t.len() && s@[i + m] != t@[m];
                assert(s@.subrange(i as int, i + t.len())[m] != t@[m]);
            }
        }
        i = i + 1;
    }
    assert(!has_substring(s@, t@)) by {
        if has_substring(s@, t@) {
            let k = choose|k: int|
                0 <= k && k + t.len() <= s.len() && #[trigger] s@.subrange(k, k + t.len()) == t@;
            assert(k < i);
        }
    }
    false
}

/// Whether `t` occurs in `s`.
pub fn str_contains(s: &str, t: &str) -> (res: bool)
    ensures
        res == has_substring(s@, t@),
{
    let a = chars_of(s);
    let b = chars_of(t);
    contains_chars(a.as_slice(), b.as_slice())
}

/// Lexicographic order of two byte slices.
pub fn bytes_order(a: &[u8], b: &[u8]) -> (res: Order)
    ensures
        res == lex_order(a@, b@),
{
    let mut i: usize = 0;
    assert(a@.skip(0) =~= a@);
    assert(b@.skip(0) =~= b@);
    while i < a.len() && i < b.len()
        invariant
            i <= a.len(),
            i <= b.len(),
            lex_order(a@, b@) == lex_order(a@.skip(i as int), b@.skip(i as int)),
        decreases a.len() - i,
    {
        if a[i] < b[i] {
            return Order::Less;
        }
        if a[i] > b[i] {
            return Order::Greater;
        }
        assert(a@.skip(i as int).drop_first() =~= a@.skip(i + 1));
        assert(b@.skip(i as int).drop_first() =~= b@.skip(i + 1));
        i = i + 1;
    }
    if i == a.len() && i == b.len() {
        Order::Equal
    } else if i == a.len() {
        Order::Less
    } else {
        Order::Greater
    }
}

/// Order of two strings as `str`'s `Ord` defines it: byte-wise over their UTF-8 encodings.
pub fn str_order(a: &str, b: &str) -> (res: Order)
    ensures
        res == str_rank(a@, b@),
{
    bytes_order(a.as_bytes(), b.as_bytes())
}

/// Appends the decimal notation of `n`.
pub fn push_decimal(s: &mut String, n: u64)
    ensures
        final(s)@ == old(s)@ + decimal(n as nat),
    decreases n,
{
    if n >= 10 {
        push_decimal(s, n / 10);
    }
    let d: u8 = (n % 10) as u8;
    let c: char = (d + 48u8) as char;
    assert(c == digit_char((n % 10) as nat));
    push_char(s, c);
    assert(decimal(n as nat) == if n < 10 { seq![digit_char(n as nat)] } else {
        decimal((n / 10) as nat).push(digit_char((n % 10) as nat))
    });
}

/// Appends the decimal notation of a signed integer, as `i64`'s `Display` writes it.
pub fn push_signed_decimal(s: &mut String, n: i64)
    ensures
        final(s)@ == old(s)@ + signed_decimal(n as int),
{
    if n < 0 {
        push_char(s, '-');
        let magnitude: u64 = (-(n as i128)) as u64;
        push_decimal(s, magnitude);
    } else {
        push_decimal(s, n as u64);
    }
}

/// The byte order of the UTF-8 encoding of a string: `String`'s `Ord`.
pub open spec fn str_rank(a: Seq<char>, b: Seq<char>) -> Order {
    lex_order(encode_utf8(a), encode_utf8(b))
}

/// Comparing two byte strings the other way round gives the opposite outcome.
pub proof fn lemma_lex_flip(a: Seq<u8>, b: Seq<u8>)
    ensures
        lex_order(a, b) == lex_order(b, a).flip(),
    decreases a.len(),
{
    if a.len() > 0 && b.len() > 0 && a[0] == b[0] {
        lemma_lex_flip(a.drop_first(), b.drop_first());
    }
}

/// Two byte strings compare equal exactly when they are the same.
pub proof fn lemma_lex_equal(a: Seq<u8>, b: Seq<u8>)
    ensures
        (lex_order(a, b) == Order::Equal) == (a == b),
    decreases a.len(),
{
    if a.len() > 0 && b.len() > 0 && a[0] == b[0] {
        lemma_lex_equal(a.drop_first(), b.drop_first());
        if a.drop_first() == b.drop_first() {
            assert(a =~= seq![a[0]] + a.drop_first());
            assert(b =~= seq![b[0]] + b.drop_first());
        }
    } else if a.len() > 0 && b.len() > 0 {
        assert(a[0] != b[0]);
    } else if a.len() == 0 && b.len() == 0 {
        assert(a =~= b);
    } else {
        assert(a.len() != b.len());
    }
}

/// Lexicographic order is transitive, strictly so when one step is strict.
pub proof fn lemma_lex_transitive(a: Seq<u8>, b: Seq<u8>, c: Seq<u8>)
    requires
        lex_order(a, b) != Order::Greater,
        lex_order(b, c) != Order::Greater,
    ensures
        lex_order(a, c) != Order::Greater,
        (lex_order(a, b) == Order::Less || lex_order(b, c) == Order::Less) ==> lex_order(a, c)
            == Order::Less,
    decreases a.len(),
{
    if a.len() > 0 && b.len() > 0 && c.len() > 0 && a[0] == b[0] && b[0] == c[0] {
        lemma_lex_transitive(a.drop_first(), b.drop_first(), c.drop_first());
    }
}

/// Different strings have different UTF-8 encodings.
pub proof fn lemma_encode_injective(a: Seq<char>, b: Seq<char>)
    ensures
        (encode_utf8(a) == encode_utf8(b)) == (a == b),
{
    vstd::utf8::encode_utf8_decode_utf8(a);
    vstd::utf8::encode_utf8_decode_utf8(b);
}

impl Ranked for String {
    open spec fn ranked(self, other: Self) -> Order {
        str_rank(self@, other@)
    }

    proof fn lemma_ranked_flip(a: Self, b: Self) {
        lemma_lex_flip(encode_utf8(a@), encode_utf8(b@));
    }

    proof fn lemma_ranked_transitive(a: Self, b: Self, c: Self) {
        lemma_lex_transitive(encode_utf8(a@), encode_utf8(b@), encode_utf8(c@));
    }

    fn compare(&self, other: &Self) -> (res: Order) {
        str_order(self.as_str(), other.as_str())
    }
}

/// An ASCII decimal digit.
pub open spec fn is_digit(c: char) -> bool {
    '0' <= c && c <= '9'
}

/// The value of a string of decimal digits.
pub open spec fn digits_value(d: Seq<char>) -> nat
    decreases d.len(),
{
    if d.len() == 0 {
        0
    } else {
        digits_value(d.drop_last()) * 10 + ((d.last() as u32) - 48) as nat
    }
}

/// A string without its leading `+`, if it has one.
pub open spec fn unsigned_digits(s: Seq<char>) -> Seq<char> {
    if s.len() > 0 && s[0] == '+' {
        s.drop_first()
    } else {
        s
    }
}

/// What `u64`'s `FromStr` makes of a string: an optional `+`, then at least one
/// ASCII digit and nothing else, with a value that fits.
pub open spec fn parsed_u64(s: Seq<char>) -> Option<u64> {
    let d = unsigned_digits(s);
    if d.len() == 0 || exists|i: int| 0 <= i < d.len() && !is_digit(#[trigger] d[i]) {
        None
    } else if digits_value(d) > u64::MAX {
        None
    } else {
        Some(digits_value(d) as u64)
    }
}

proof fn lemma_digits_monotone(d: Seq<char>, j: int, k: int)
    requires
        0 <= j <= k <= d.len(),
        forall|i: int| 0 <= i < d.len() ==> is_digit(#[trigger] d[i]),
    ensures
        digits_value(d.take(j)) <= digits_value(d.take(k)),
    decreases k - j,
{
    if j < k {
        lemma_digits_monotone(d, j, k - 1);
        assert(d.take(k).drop_last() =~= d.take(k - 1));
        assert(is_digit(d[k - 1]));
    }
}

/// Parses a decimal `u64` as `str::parse::<u64>` does.
pub fn parse_u64_chars(s: &[char]) -> (res: Option<u64>)
    ensures
        res == parsed_u64(s@),
{
    let start: usize = if s.len() > 0 && s[0] == '+' { 1 } else { 0 };
    let ghost d = unsigned_digits(s@);
    assert(d =~= s@.skip(start as int));
    if start == s.len() {
        return None;
    }
    let mut i: usize = start;
    while i < s.len()
        invariant
            start <= i <= s.len(),
            d == s@.skip(start as int),
            d == unsigned_digits(s@),
            forall|m: int| start <= m < i ==> is_digit(#[trigger] s@[m]),
        decreases s.len() - i,
    {
        assert(d[i - start] == s@[i as int]);
        if !('0' <= s[i] && s[i] <= '9') {
            assert(!is_digit(d[i - start]));
            assert(d.len() > 0);
            return None;
        }
        i = i + 1;
    }
    assert(forall|m: int| 0 <= m < d.len() ==> is_digit(#[trigger] d[m])) by {
        assert forall|m: int| 0 <= m < d.len() implies is_digit(#[trigger] d[m]) by {
            assert(d[m] == s@[start + m]);
        }
    }
    let mut v: u64 = 0;
    let mut j: usize = start;
    assert(d.take(0) =~= Seq::<char>::empty());
    while j < s.len()
        invariant
            start <= j <= s.len(),
            d == s@.skip(start as int),
            d == unsigned_digits(s@),
            forall|m: int| 0 <= m < d.len() ==> is_digit(#[trigger] d[m]),
            v as nat == digits_value(d.take(j - start)),
        decreases s.len() - j,
    {
        assert(d[j - start] == s@[j as int]);
        assert(is_digit(d[j - start]));
        let digit: u64 = ((s[j] as u32) - 48) as u64;
        assert(d.take(j - start + 1).drop_last() =~= d.take(j - start));
        assert(d.take(j - start + 1).last() == s@[j as int]);
        assert(digits_value(d.take(j - start + 1)) == v * 10 + digit);
        if v > (u64::MAX - digit) / 10 {
            proof {
                assert(digits_value(d.take(j - start + 1)) > u64::MAX) by (nonlinear_arith)
                    requires
                        v > (u64::MAX - digit) / 10,
                        digits_value(d.take(j - start + 1)) == v * 10 + digit,
                        digit <= 9,
                ;
                lemma_digits_monotone(d, j - start + 1, d.len() as int);
                assert(d.take(d.len() as int) =~= d);
            }
            return None;
        }
        proof {
            assert(v * 10 + digit <= u64::MAX) by (nonlinear_arith)
                requires
                    v <= (u64::MAX - digit) / 10,
                    digit <= 9,
            ;
        }
        v = v * 10 + digit;
        j = j + 1;
    }
    assert(d.take(d.len() as int) =~= d);
    Some(v)
}

} // verus!
