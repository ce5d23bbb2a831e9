//! Extension version numbers: dot-separated numbers with an optional pre-release tag.
use vstd::prelude::*;
use crate::text::{
    chars_of, lemma_lex_flip, lemma_lex_transitive, parse_u64_chars, parsed_u64, str_order,
    str_rank, string_of, Order,
};
use vstd::utf8::encode_utf8;

verus! {

/// A parsed version: its numbers and, after the first `-`, its pre-release tag.
#[derive(Clone, Debug)]
pub struct VersionKey {
    pub numbers: Vec<u64>,
    pub prerelease: Option<String>,
}

/// The contents of a `VersionKey`.
pub struct VersionView {
    pub numbers: Seq<u64>,
    pub prerelease: Option<Seq<char>>,
}

impl View for VersionKey {
    type V = VersionView;

    open spec fn view(&self) -> VersionView {
        VersionView {
            numbers: self.numbers@,
            prerelease: match self.prerelease {
                Some(p) => Some(p@),
                None => None,
            },
        }
    }
}

/// Index of the first `c` in `s`, or -1.
pub open spec fn first_index(s: Seq<char>, c: char) -> int
    decreases s.len(),
{
    if s.len() == 0 {
        -1
    } else if s[0] == c {
        0
    } else {
        let r = first_index(s.drop_first(), c);
        if r < 0 {
            -1
        } else {
            r + 1
        }
    }
}

/// The pieces of `s` between occurrences of `sep`, empty ones included: `str::split`.
pub open spec fn split_by(s: Seq<char>, sep: char) -> Seq<Seq<char>>
    decreases s.len(),
{
    if s.len() == 0 {
        seq![Seq::<char>::empty()]
    } else {
        let p = split_by(s.drop_last(), sep);
        if s.last() == sep {
            p.push(Seq::<char>::empty())
        } else {
            p.update(p.len() - 1, p.last().push(s.last()))
        }
    }
}

/// The part before the first `-` and, if there is one, the part after it: `str::split_once`.
pub open spec fn version_parts(value: Seq<char>) -> (Seq<char>, Option<Seq<char>>) {
    let k = first_index(value, '-');
    if k < 0 {
        (value, None)
    } else {
        (value.take(k), Some(value.skip(k + 1)))
    }
}

/// What `parse_version` makes of a version string: every dot-separated piece of the
/// part before the first `-` must be a `u64`.
pub open spec fn parsed_version(value: Seq<char>) -> Option<VersionView> {
    let parts = split_by(version_parts(value).0, '.');
    if forall|i: int| 0 <= i < parts.len() ==> #[trigger] parsed_u64(parts[i]) is Some {
        Some(
            VersionView {
                numbers: parts.map_values(|p: Seq<char>| parsed_u64(p)->0),
                prerelease: version_parts(value).1,
            },
        )
    } else {
        None
    }
}

/// The `i`-th number, with missing numbers counting as zero.
pub open spec fn padded(s: Seq<u64>, i: int) -> u64 {
    if 0 <= i < s.len() {
        s[i]
    } else {
        0
    }
}

/// The larger of two lengths.
pub open spec fn longer(a: Seq<u64>, b: Seq<u64>) -> int {
    if a.len() >= b.len() {
        a.len() as int
    } else {
        b.len() as int
    }
}

/// Compares the numbers from index `i` on, missing ones counting as zero.
pub open spec fn numbers_rank_from(a: Seq<u64>, b: Seq<u64>, i: int) -> Order
    decreases longer(a, b) - i,
{
    if i >= longer(a, b) {
        Order::Equal
    } else if padded(a, i) < padded(b, i) {
        Order::Less
    } else if padded(a, i) > padded(b, i) {
        Order::Greater
    } else {
        numbers_rank_from(a, b, i + 1)
    }
}

/// How two versions compare: number by number, then a version without a pre-release
/// tag above one with it, then the tags' bytes.
pub open spec fn version_rank(a: VersionView, b: VersionView) -> Order {
    let n = numbers_rank_from(a.numbers, b.numbers, 0);
    if n != Order::Equal {
        n
    } else {
        match (a.prerelease, b.prerelease) {
            (None, Some(_)) => Order::Greater,
            (Some(_), None) => Order::Less,
            (Some(x), Some(y)) => str_rank(x, y),
            (None, None) => Order::Equal,
        }
    }
}

/// The maximum of three lengths.
pub open spec fn longest(a: Seq<u64>, b: Seq<u64>, c: Seq<u64>) -> int {
    if longer(a, b) >= c.len() {
        longer(a, b)
    } else {
        c.len() as int
    }
}

proof fn lemma_numbers_beyond(a: Seq<u64>, b: Seq<u64>, i: int, m: int)
    requires
        m >= longer(a, b),
        0 <= i,
    ensures
        numbers_rank_from(a, b, i) == numbers_rank_from_to(a, b, i, m),
    decreases m - i,
{
    if i < m {
        lemma_numbers_beyond(a, b, i + 1, m);
    }
}

/// Compares the numbers from index `i` up to (not including) `m`.
pub open spec fn numbers_rank_from_to(a: Seq<u64>, b: Seq<u64>, i: int, m: int) -> Order
    decreases m - i,
{
    if i >= m {
        Order::Equal
    } else if padded(a, i) < padded(b, i) {
        Order::Less
    } else if padded(a, i) > padded(b, i) {
        Order::Greater
    } else {
        numbers_rank_from_to(a, b, i + 1, m)
    }
}

proof fn lemma_numbers_to_flip(a: Seq<u64>, b: Seq<u64>, i: int, m: int)
    ensures
        numbers_rank_from_to(a, b, i, m) == numbers_rank_from_to(b, a, i, m).flip(),
    decreases m - i,
{
    if i < m {
        lemma_numbers_to_flip(a, b, i + 1, m);
    }
}

proof fn lemma_numbers_to_transitive(a: Seq<u64>, b: Seq<u64>, c: Seq<u64>, i: int, m: int)
    requires
        numbers_rank_from_to(a, b, i, m) != Order::Greater,
        numbers_rank_from_to(b, c, i, m) != Order::Greater,
    ensures
        numbers_rank_from_to(a, c, i, m) != Order::Greater,
        (numbers_rank_from_to(a, b, i, m) == Order::Less || numbers_rank_from_to(b, c, i, m)
            == Order::Less) ==> numbers_rank_from_to(a, c, i, m) == Order::Less,
        (numbers_rank_from_to(a, b, i, m) == Order::Equal && numbers_rank_from_to(b, c, i, m)
            == Order::Equal) ==> numbers_rank_from_to(a, c, i, m) == Order::Equal,
    decreases m - i,
{
    if i < m && padded(a, i) == padded(b, i) && padded(b, i) == padded(c, i) {
        lemma_numbers_to_transitive(a, b, c, i + 1, m);
    }
}

/// Versions compare the other way round with the opposite outcome.
pub proof fn lemma_version_flip(a: VersionView, b: VersionView)
    ensures
        version_rank(a, b) == version_rank(b, a).flip(),
{
    let m = longer(a.numbers, b.numbers);
    lemma_numbers_beyond(a.numbers, b.numbers, 0, m);
    lemma_numbers_beyond(b.numbers, a.numbers, 0, m);
    lemma_numbers_to_flip(a.numbers, b.numbers, 0, m);
    if let (Some(x), Some(y)) = (a.prerelease, b.prerelease) {
        lemma_lex_flip(encode_utf8(x), encode_utf8(y));
    }
}

/// The order of versions is transitive, strictly so when one step is strict.
pub proof fn lemma_version_transitive(a: VersionView, b: VersionView, c: VersionView)
    requires
        version_rank(a, b) != Order::Greater,
        version_rank(b, c) != Order::Greater,
    ensures
        version_rank(a, c) != Order::Greater,
        (version_rank(a, b) == Order::Less || version_rank(b, c) == Order::Less) ==> version_rank(
            a,
            c,
        ) == Order::Less,
{
    let m = longest(a.numbers, b.numbers, c.numbers);
    lemma_numbers_beyond(a.numbers, b.numbers, 0, m);
    lemma_numbers_beyond(b.numbers, c.numbers, 0, m);
    lemma_numbers_beyond(a.numbers, c.numbers, 0, m);
    lemma_numbers_to_transitive(a.numbers, b.numbers, c.numbers, 0, m);
    if let (Some(x), Some(y), Some(z)) = (a.prerelease, b.prerelease, c.prerelease) {
        if str_rank(x, y) != Order::Greater && str_rank(y, z) != Order::Greater {
            lemma_lex_transitive(encode_utf8(x), encode_utf8(y), encode_utf8(z));
        }
    }
}

/// Index of the first `c` in `s`.
fn find_char(s: &[char], c: char) -> (res: Option<usize>)
    ensures
        match res {
            Some(k) => k < s.len() && first_index(s@, c) == k,
            None => first_index(s@, c) == -1,
        },
{
    let mut i: usize = 0;
    assert(s@.skip(0) =~= s@);
    while i < s.len()
        invariant
            i <= s.len(),
            forall|j: int| 0 <= j < i ==> s@[j] != c,
            first_index(s@, c) == if first_index(s@.skip(i as int), c) < 0 {
                -1
            } else {
                first_index(s@.skip(i as int), c) + i
            },
        decreases s.len() - i,
    {
        assert(s@.skip(i as int).drop_first() =~= s@.skip(i + 1));
        if s[i] == c {
            return Some(i);
        }
        i = i + 1;
    }
    None
}

/// Parses a version string: numbers separated by dots, optionally followed by `-`
/// and a pre-release tag. There is none when a piece is not a `u64`.
pub fn parse_version(value: &str) -> (res: Option<VersionKey>)
    ensures
        match res {
            Some(v) => parsed_version(value@) == Some(v@),
            None => parsed_version(value@) is None,
        },
{
    let cs = chars_of(value);
    let dash = find_char(cs.as_slice(), '-');
    let mut main: Vec<char> = Vec::new();
    let end = match dash {
        Some(k) => k,
        None => cs.len(),
    };
    let mut i: usize = 0;
    while i < end
        invariant
            end <= cs.len(),
            i <= end,
            main@ == cs@.take(i as int),
        decreases end - i,
    {
        main.push(cs[i]);
        assert(cs@.take(i + 1) =~= cs@.take(i as int).push(cs@[i as int]));
        i = i + 1;
    }
    let prerelease = match dash {
        Some(k) => {
            let mut rest: Vec<char> = Vec::new();
            let mut j: usize = k + 1;
            while j < cs.len()
                invariant
                    k < cs.len(),
                    k + 1 <= j <= cs.len(),
                    rest@ == cs@.subrange(k + 1, j as int),
                decreases cs.len() - j,
            {
                rest.push(cs[j]);
                assert(cs@.subrange(k + 1, j + 1) =~= cs@.subrange(k + 1, j as int).push(cs@[j as int]));
                j = j + 1;
            }
            assert(rest@ =~= cs@.skip(k + 1));
            Some(string_of(rest.as_slice()))
        },
        None => None,
    };
    assert(main@ =~= version_parts(value@).0) by {
        if dash is None {
            assert(cs@.take(cs.len() as int) =~= cs@);
        }
    }
    let numbers = match parse_numbers(main.as_slice()) {
        Some(n) => n,
        None => return None,
    };
    let key = VersionKey { numbers, prerelease };
    assert(key@.prerelease == version_parts(value@).1);
    Some(key)
}

/// Parses every dot-separated piece as a `u64`.
fn parse_numbers(main: &[char]) -> (res: Option<Vec<u64>>)
    ensures
        match res {
            Some(n) => {
                &&& forall|i: int| 0 <= i < split_by(main@, '.').len() ==> #[trigger] parsed_u64(
                    split_by(main@, '.')[i],
                ) is Some
                &&& n@ == split_by(main@, '.').map_values(|p: Seq<char>| parsed_u64(p)->0)
            },
            None => !(forall|i: int| 0 <= i < split_by(main@, '.').len() ==> #[trigger] parsed_u64(
                split_by(main@, '.')[i],
            ) is Some),
        },
{
    let mut numbers: Vec<u64> = Vec::new();
    let mut cur: Vec<char> = Vec::new();
    let mut i: usize = 0;
    proof {
        lemma_split_not_empty(main@.take(0), '.');
    }
    assert(main@.take(0) =~= Seq::<char>::empty());
    assert(numbers@ =~= split_by(main@.take(0), '.').drop_last().map_values(|p: Seq<char>| parsed_u64(p)->0));
    while i < main.len()
        invariant
            i <= main.len(),
            split_by(main@.take(i as int), '.').len() >= 1,
            cur@ == split_by(main@.take(i as int), '.').last(),
            forall|j: int| 0 <= j < split_by(main@.take(i as int), '.').len() - 1 ==> #[trigger] parsed_u64(
                split_by(main@.take(i as int), '.')[j],
            ) is Some,
            numbers@ == split_by(main@.take(i as int), '.').drop_last().map_values(
                |p: Seq<char>| parsed_u64(p)->0,
            ),
        decreases main.len() - i,
    {
        let ghost ps = split_by(main@.take(i as int), '.');
        let c = main[i];
        assert(main@.take(i + 1).drop_last() =~= main@.take(i as int));
        assert(main@.take(i + 1).last() == c);
        if c == '.' {
            let n = match parse_u64_chars(cur.as_slice()) {
                Some(n) => n,
                None => {
                    proof {
                        lemma_split_prefix(main@, i + 1);
                        assert(split_by(main@.take(i + 1), '.')[ps.len() - 1] == ps.last());
                    }
                    return None;
                },
            };
            numbers.push(n);
            assert(split_by(main@.take(i + 1), '.') == ps.push(Seq::<char>::empty()));
            assert(ps.push(Seq::<char>::empty()).drop_last() =~= ps);
            assert(numbers@ =~= ps.map_values(|p: Seq<char>| parsed_u64(p)->0)) by {
                assert(ps.drop_last().push(ps.last()) =~= ps);
            }
            cur = Vec::new();
            assert(cur@ =~= Seq::<char>::empty());
        } else {
            cur.push(c);
            let ghost np = ps.update(ps.len() - 1, ps.last().push(c));
            assert(split_by(main@.take(i + 1), '.') == np);
            assert(np.drop_last() =~= ps.drop_last());
        }
        i = i + 1;
    }
    assert(main@.take(main.len() as int) =~= main@);
    let ghost ps = split_by(main@, '.');
    let n = match parse_u64_chars(cur.as_slice()) {
        Some(n) => n,
        None => {
            assert(parsed_u64(ps[ps.len() - 1]) is None);
            return None;
        },
    };
    numbers.push(n);
    assert(ps.drop_last().push(ps.last()) =~= ps);
    assert(numbers@ =~= ps.map_values(|p: Seq<char>| parsed_u64(p)->0));
    Some(numbers)
}

proof fn lemma_split_not_empty(s: Seq<char>, sep: char)
    ensures
        split_by(s, sep).len() >= 1,
    decreases s.len(),
{
    if s.len() > 0 {
        lemma_split_not_empty(s.drop_last(), sep);
    }
}

/// The pieces of a prefix are, but for the last one, pieces of the whole.
proof fn lemma_split_prefix(s: Seq<char>, k: int)
    requires
        0 <= k <= s.len(),
    ensures
        split_by(s.take(k), '.').len() <= split_by(s, '.').len(),
        forall|j: int|
            0 <= j < split_by(s.take(k), '.').len() - 1 ==> #[trigger] split_by(s.take(k), '.')[j]
                == split_by(s, '.')[j],
        s.take(k).len() > 0 && s.take(k).last() == '.' ==> split_by(s.take(k), '.').len() - 1
            < split_by(s, '.').len(),
    decreases s.len() - k,
{
    lemma_split_not_empty(s.take(k), '.');
    if k < s.len() {
        lemma_split_prefix(s, k + 1);
        assert(s.take(k + 1).drop_last() =~= s.take(k));
        lemma_split_not_empty(s.take(k + 1), '.');
        let a = split_by(s.take(k), '.');
        let b = split_by(s.take(k + 1), '.');
        assert forall|j: int| 0 <= j < a.len() - 1 implies #[trigger] a[j] == split_by(s, '.')[j] by {
            assert(a[j] == b[j]);
        }
    } else {
        assert(s.take(k) =~= s);
    }
}

/// How the numbers of two versions compare.
fn numbers_order(a: &Vec<u64>, b: &Vec<u64>) -> (res: Order)
    ensures
        res == numbers_rank_from(a@, b@, 0),
{
    let m: usize = if a.len() >= b.len() { a.len() } else { b.len() };
    let mut i: usize = 0;
    while i < m
        invariant
            m == longer(a@, b@),
            i <= m,
            numbers_rank_from(a@, b@, 0) == numbers_rank_from(a@, b@, i as int),
        decreases m - i,
    {
        let x: u64 = if i < a.len() { a[i] } else { 0 };
        let y: u64 = if i < b.len() { b[i] } else { 0 };
        if x < y {
            return Order::Less;
        }
        if x > y {
            return Order::Greater;
        }
        i = i + 1;
    }
    Order::Equal
}

impl VersionKey {
    /// How this version compares with another.
    pub fn compare_to(&self, other: &VersionKey) -> (res: Order)
        ensures
            res == version_rank(self@, other@),
    {
        let n = numbers_order(&self.numbers, &other.numbers);
        if n != Order::Equal {
            return n;
        }
        match (&self.prerelease, &other.prerelease) {
            (None, Some(_)) => Order::Greater,
            (Some(_), None) => Order::Less,
            (Some(x), Some(y)) => str_order(x.as_str(), y.as_str()),
            (None, None) => Order::Equal,
        }
    }
}

/// The standard ordering that an `Order` stands for.
pub open spec fn std_order(o: Order) -> core::cmp::Ordering {
    match o {
        Order::Less => core::cmp::Ordering::Less,
        Order::Equal => core::cmp::Ordering::Equal,
        Order::Greater => core::cmp::Ordering::Greater,
    }
}

impl PartialEq for VersionKey {
    fn eq(&self, other: &Self) -> (res: bool) {
        self.compare_to(other) == Order::Equal
    }
}

impl vstd::std_specs::cmp::PartialEqSpecImpl for VersionKey {
    open spec fn obeys_eq_spec() -> bool {
        true
    }

    open spec fn eq_spec(&self, other: &Self) -> bool {
        version_rank(self@, other@) == Order::Equal
    }
}

impl Eq for VersionKey {
}

impl PartialOrd for VersionKey {
    fn partial_cmp(&self, other: &Self) -> (res: Option<core::cmp::Ordering>) {
        match self.compare_to(other) {
            Order::Less => Some(core::cmp::Ordering::Less),
            Order::Equal => Some(core::cmp::Ordering::Equal),
            Order::Greater => Some(core::cmp::Ordering::Greater),
        }
    }
}

impl vstd::std_specs::cmp::PartialOrdSpecImpl for VersionKey {
    open spec fn obeys_partial_cmp_spec() -> bool {
        true
    }

    open spec fn partial_cmp_spec(&self, other: &Self) -> Option<core::cmp::Ordering> {
        Some(std_order(version_rank(self@, other@)))
    }
}

} // verus!
