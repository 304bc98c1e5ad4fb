//! Strings as sequences of characters: order, decimal numerals, trimming and searching.
use vstd::prelude::*;

verus! {

/// `String::push` appends the character to the string.
pub assume_specification[ String::push ](s: &mut String, c: char)
    ensures
        final(s)@ == old(s)@.push(c),
;

/// The characters of a string, in order.
pub fn chars_of(s: &str) -> (v: Vec<char>)
    ensures
        v@ == s@,
{
    let mut v: Vec<char> = Vec::new();
    for c in it: s.chars()
        invariant
            v@ == it.seq().take(it.index()),
            it.seq() == s@,
    {
        v.push(c);
    }
    v
}

/// The string made of some characters of a vector, from `start` up to `end`.
pub fn string_of(v: &Vec<char>, start: usize, end: usize) -> (s: String)
    requires
        start <= end <= v@.len(),
    ensures
        s@ == v@.subrange(start as int, end as int),
{
    let mut s: String = String::new();
    let mut i: usize = start;
    while i < end
        invariant
            start <= i <= end <= v@.len(),
            s@ == v@.subrange(start as int, i as int),
        decreases end - i,
    {
        s.push(v[i]);
        i += 1;
    }
    s
}

/// The order of strings: the first character that differs decides, and a proper prefix
/// comes before the longer string.
pub open spec fn precedes(a: Seq<char>, b: Seq<char>) -> bool {
    exists|k: int| #[trigger] differs_at(a, b, k)
}

/// The strings agree before place `k`, and there `a` ends or has the smaller character.
pub open spec fn differs_at(a: Seq<char>, b: Seq<char>, k: int) -> bool {
    &&& 0 <= k <= a.len()
    &&& k < b.len()
    &&& a.take(k) == b.take(k)
    &&& k < a.len() ==> a[k] < b[k]
}

/// Whether one string comes before another.
pub fn comes_before(a: &str, b: &str) -> (r: bool)
    ensures
        r == precedes(a@, b@),
{
    let x: Vec<char> = chars_of(a);
    let y: Vec<char> = chars_of(b);
    let mut k: usize = 0;
    while k < x.len() && k < y.len() && x[k] == y[k]
        invariant
            x@ == a@,
            y@ == b@,
            k <= x@.len(),
            k <= y@.len(),
            a@.take(k as int) == b@.take(k as int),
        decreases x@.len() - k,
    {
        proof {
            assert(a@.take(k + 1) == a@.take(k as int).push(a@[k as int]));
            assert(b@.take(k + 1) == b@.take(k as int).push(b@[k as int]));
        }
        k += 1;
    }
    let r: bool = k < y.len() && (k == x.len() || x[k] < y[k]);
    proof {
        if r {
            assert(differs_at(a@, b@, k as int));
        } else if precedes(a@, b@) {
            let j = choose|j: int| differs_at(a@, b@, j);
            if j < k {
                assert(a@.take(k as int)[j] == b@.take(k as int)[j]);
            } else if j > k {
                assert(a@.take(j)[k as int] == b@.take(j)[k as int]);
            }
        }
    }
    r
}

/// The order of strings is strict and total: of two different strings exactly one comes first.
pub proof fn precedes_is_total(a: Seq<char>, b: Seq<char>)
    ensures
        a != b ==> precedes(a, b) || precedes(b, a),
        !(precedes(a, b) && precedes(b, a)),
        !precedes(a, a),
{
    if precedes(a, b) && precedes(b, a) {
        let j = choose|j: int| differs_at(a, b, j);
        let k = choose|k: int| differs_at(b, a, k);
        if j < k {
            assert(b.take(k)[j] == a.take(k)[j]);
        } else if k < j {
            assert(a.take(j)[k] == b.take(j)[k]);
        }
    }
    if precedes(a, a) {
        let j = choose|j: int| differs_at(a, a, j);
        assert(false);
    }
    if a != b {
        assert(a.take(0) == b.take(0));
        lemma_first_difference(a, b, 0);
    }
}

proof fn lemma_first_difference(a: Seq<char>, b: Seq<char>, k: int)
    requires
        a != b,
        0 <= k <= a.len(),
        k <= b.len(),
        a.take(k) == b.take(k),
    ensures
        precedes(a, b) || precedes(b, a),
    decreases a.len() - k,
{
    if k == a.len() && k == b.len() {
        assert(a.take(k) == a);
        assert(b.take(k) == b);
    } else if k == a.len() {
        assert(differs_at(a, b, k));
    } else if k == b.len() {
        assert(differs_at(b, a, k));
    } else if a[k] < b[k] {
        assert(differs_at(a, b, k));
    } else if b[k] < a[k] {
        assert(differs_at(b, a, k));
    } else {
        assert(a.take(k + 1) == a.take(k).push(a[k]));
        assert(b.take(k + 1) == b.take(k).push(b[k]));
        lemma_first_difference(a, b, k + 1);
    }
}

/// The order of strings is transitive.
pub proof fn precedes_is_transitive(a: Seq<char>, b: Seq<char>, c: Seq<char>)
    requires
        precedes(a, b),
        precedes(b, c),
    ensures
        precedes(a, c),
{
    let j = choose|j: int| differs_at(a, b, j);
    let k = choose|k: int| differs_at(b, c, k);
    if j < k {
        assert(b.take(j) == b.take(k).take(j));
        assert(c.take(j) == c.take(k).take(j));
        assert(b.take(k)[j] == c.take(k)[j]);
        assert(differs_at(a, c, j));
    } else {
        assert(a.take(k) == a.take(j).take(k));
        assert(b.take(k) == b.take(j).take(k));
        if k < j {
            assert(a.take(j)[k] == b.take(j)[k]);
        }
        assert(differs_at(a, c, k));
    }
}

/// The character that stands for a decimal digit.
pub open spec fn digit(d: nat) -> char {
    (48 + d) as char
}

/// Whether a character is a decimal digit.
pub open spec fn is_digit(c: char) -> bool {
    '0' <= c <= '9'
}

/// A number written in decimal, without leading zeros.
pub open spec fn decimal(n: nat) -> Seq<char>
    decreases n,
{
    if n < 10 {
        seq![digit(n)]
    } else {
        decimal(n / 10).push(digit(n % 10))
    }
}

/// A number written in decimal.
pub fn decimal_string(n: u64) -> (s: String)
    ensures
        s@ == decimal(n as nat),
    decreases n,
{
    let mut s: String = if n < 10 {
        String::new()
    } else {
        decimal_string(n / 10)
    };
    let d: u8 = (n % 10) as u8;
    let c: char = (48 + d) as char;
    s.push(c);
    assert(s@ == decimal(n as nat));
    s
}

/// The number that a string of digits stands for.
pub open spec fn digits_value(s: Seq<char>) -> nat
    decreases s.len(),
{
    if s.len() == 0 {
        0
    } else {
        digits_value(s.drop_last()) * 10 + ((s.last() as nat) - 48) as nat
    }
}

/// The string without a leading plus sign.
pub open spec fn unsigned(s: Seq<char>) -> Seq<char> {
    if s.len() > 0 && s[0] == '+' {
        s.skip(1)
    } else {
        s
    }
}

/// The number that a string denotes: an optional plus sign and then digits alone, at least
/// one, with a value that fits.
pub open spec fn parsed_count(s: Seq<char>) -> Option<usize> {
    let d = unsigned(s);
    if d.len() > 0 && (forall|i: int| 0 <= i < d.len() ==> is_digit(#[trigger] d[i]))
        && digits_value(d) <= usize::MAX {
        Some(digits_value(d) as usize)
    } else {
        None
    }
}

proof fn lemma_digits_grow(s: Seq<char>, k: int)
    requires
        0 <= k <= s.len(),
    ensures
        digits_value(s.take(k)) <= digits_value(s),
    decreases s.len() - k,
{
    if k == s.len() {
        assert(s.take(k) == s);
    } else {
        lemma_digits_grow(s, k + 1);
        assert(s.take(k + 1).drop_last() == s.take(k));
    }
}

/// Reads a number out of a string.
pub fn parse_count(s: &str) -> (r: Option<usize>)
    ensures
        r == parsed_count(s@),
{
    let v: Vec<char> = chars_of(s);
    let start: usize = if v.len() > 0 && v[0] == '+' {
        1
    } else {
        0
    };
    let ghost d = unsigned(s@);
    assert(d == v@.skip(start as int));
    if start == v.len() {
        return None;
    }
    let mut value: usize = 0;
    let mut i: usize = start;
    while i < v.len()
        invariant
            v@ == s@,
            start <= i <= v@.len(),
            start < v@.len(),
            d == unsigned(s@),
            d == v@.skip(start as int),
            forall|j: int| 0 <= j < i - start ==> is_digit(#[trigger] d[j]),
            value == digits_value(d.take(i - start)),
        decreases v@.len() - i,
    {
        let c: char = v[i];
        assert(c == d[i - start]);
        if !('0' <= c && c <= '9') {
            return None;
        }
        let digit: usize = (c as u32 - 48) as usize;
        proof {
            let k = i - start;
            assert(d.take(k + 1).drop_last() == d.take(k));
            assert(digits_value(d.take(k + 1)) == value * 10 + digit);
            lemma_digits_grow(d, k + 1);
        }
        match value.checked_mul(10) {
            None => {
                return None;
            },
            Some(tens) => match tens.checked_add(digit) {
                None => {
                    return None;
                },
                Some(next) => {
                    value = next;
                },
            },
        }
        i += 1;
    }
    assert(d.take(i - start) == d);
    Some(value)
}

/// Whether a character is Unicode white space.
pub open spec fn is_space(c: char) -> bool {
    let u = c as u32;
    ||| 0x9 <= u <= 0xd
    ||| u == 0x20
    ||| u == 0x85
    ||| u == 0xa0
    ||| u == 0x1680
    ||| 0x2000 <= u <= 0x200a
    ||| u == 0x2028
    ||| u == 0x2029
    ||| u == 0x202f
    ||| u == 0x205f
    ||| u == 0x3000
}

/// Whether a character is Unicode white space.
pub fn is_white_space(c: char) -> (r: bool)
    ensures
        r == is_space(c),
{
    let u: u32 = c as u32;
    (0x9 <= u && u <= 0xd) || u == 0x20 || u == 0x85 || u == 0xa0 || u == 0x1680 || (0x2000 <= u
        && u <= 0x200a) || u == 0x2028 || u == 0x2029 || u == 0x202f || u == 0x205f || u == 0x3000
}

/// The string without the white space it begins with.
pub open spec fn trim_front(s: Seq<char>) -> Seq<char>
    decreases s.len(),
{
    if s.len() > 0 && is_space(s[0]) {
        trim_front(s.skip(1))
    } else {
        s
    }
}

/// The string without the white space it ends with.
pub open spec fn trim_back(s: Seq<char>) -> Seq<char>
    decreases s.len(),
{
    if s.len() > 0 && is_space(s.last()) {
        trim_back(s.drop_last())
    } else {
        s
    }
}

/// The string without the white space around it.
pub open spec fn trimmed(s: Seq<char>) -> Seq<char> {
    trim_back(trim_front(s))
}

/// Removes the white space around the characters from `start` up to `end`.
pub fn trim_range(v: &Vec<char>, start: usize, end: usize) -> (s: String)
    requires
        start <= end <= v@.len(),
    ensures
        s@ == trimmed(v@.subrange(start as int, end as int)),
{
    let mut a: usize = start;
    while a < end && is_white_space(v[a])
        invariant
            start <= a <= end <= v@.len(),
            trim_front(v@.subrange(start as int, end as int)) == trim_front(
                v@.subrange(a as int, end as int),
            ),
        decreases end - a,
    {
        assert(v@.subrange(a as int, end as int).skip(1) == v@.subrange(a + 1, end as int));
        a += 1;
    }
    let ghost front = v@.subrange(a as int, end as int);
    assert(trim_front(front) == front);
    let mut b: usize = end;
    while b > a && is_white_space(v[b - 1])
        invariant
            start <= a <= b <= end <= v@.len(),
            trim_back(front) == trim_back(v@.subrange(a as int, b as int)),
        decreases b,
    {
        assert(v@.subrange(a as int, b as int).drop_last() == v@.subrange(a as int, b - 1));
        b -= 1;
    }
    assert(trim_back(v@.subrange(a as int, b as int)) == v@.subrange(a as int, b as int));
    string_of(v, a, b)
}

/// Removes the white space around a string.
pub fn trim(s: &str) -> (r: String)
    ensures
        r@ == trimmed(s@),
{
    let v: Vec<char> = chars_of(s);
    assert(v@.subrange(0, v@.len() as int) == s@);
    trim_range(&v, 0, v.len())
}

/// A trimmed string neither begins nor ends with white space, and trimming it again
/// changes nothing.
pub proof fn trimmed_is_bare(s: Seq<char>)
    ensures
        trimmed(s).len() > 0 ==> !is_space(trimmed(s)[0]) && !is_space(trimmed(s).last()),
        trimmed(trimmed(s)) == trimmed(s),
{
    lemma_front_bare(s);
    let f = trim_front(s);
    lemma_back_bare(f);
}

proof fn lemma_front_bare(s: Seq<char>)
    ensures
        trim_front(s).len() > 0 ==> !is_space(trim_front(s)[0]),
    decreases s.len(),
{
    if s.len() > 0 && is_space(s[0]) {
        lemma_front_bare(s.skip(1));
    }
}

proof fn lemma_back_bare(s: Seq<char>)
    ensures
        trim_back(s).len() <= s.len(),
        trim_back(s) == s.take(trim_back(s).len() as int),
        trim_back(s).len() > 0 ==> !is_space(trim_back(s).last()),
    decreases s.len(),
{
    if s.len() > 0 && is_space(s.last()) {
        lemma_back_bare(s.drop_last());
        let n = trim_back(s).len() as int;
        assert(s.drop_last().take(n) == s.take(n));
    } else {
        assert(s.take(s.len() as int) == s);
    }
}

/// Whether the characters of `part` stand in `s` from place `at` on.
pub open spec fn found_at(s: Seq<char>, part: Seq<char>, at: int) -> bool {
    0 <= at && at + part.len() <= s.len() && s.subrange(at, at + part.len()) == part
}

/// Whether `part` occurs in `s`.
pub open spec fn occurs(s: Seq<char>, part: Seq<char>) -> bool {
    exists|at: int| #[trigger] found_at(s, part, at)
}

/// Whether the characters of `part` stand in `v` from place `at` on.
pub fn stands_at(v: &Vec<char>, part: &Vec<char>, at: usize) -> (r: bool)
    requires
        at <= v@.len(),
    ensures
        r == found_at(v@, part@, at as int),
{
    let len: usize = v.len();
    if len - at < part.len() {
        return false;
    }
    let mut i: usize = 0;
    while i < part.len()
        invariant
            i <= part@.len(),
            at + part@.len() <= len,
            len == v@.len(),
            forall|j: int| 0 <= j < i ==> v@[at + j] == part@[j],
        decreases part@.len() - i,
    {
        if v[at + i] != part[i] {
            assert(v@.subrange(at as int, at + part@.len())[i as int] != part@[i as int]);
            return false;
        }
        i += 1;
    }
    assert(v@.subrange(at as int, at + part@.len()) == part@);
    true
}

/// Whether `part` occurs in `s`.
pub fn contains(s: &str, part: &str) -> (r: bool)
    ensures
        r == occurs(s@, part@),
{
    let v: Vec<char> = chars_of(s);
    let p: Vec<char> = chars_of(part);
    let mut at: usize = 0;
    while at < v.len()
        invariant
            v@ == s@,
            p@ == part@,
            at <= v@.len(),
            forall|j: int| 0 <= j < at ==> !#[trigger] found_at(s@, part@, j),
        decreases v@.len() - at,
    {
        if stands_at(&v, &p, at) {
            return true;
        }
        at += 1;
    }
    stands_at(&v, &p, at)
}

/// Whether a word begins at place `i`: no white space there, and none or nothing just before.
pub open spec fn word_starts(s: Seq<char>, i: int) -> bool {
    !is_space(s[i]) && (i == 0 || is_space(s[i - 1]))
}

/// The number of words, that is of stretches without white space.
pub open spec fn word_count(s: Seq<char>) -> nat
    decreases s.len(),
{
    if s.len() == 0 {
        0
    } else {
        word_count(s.drop_last()) + (if word_starts(s, s.len() - 1) {
            1nat
        } else {
            0
        })
    }
}

/// Strings put together, with a separator between each two.
pub open spec fn joined(parts: Seq<Seq<char>>, separator: Seq<char>) -> Seq<char>
    decreases parts.len(),
{
    if parts.len() == 0 {
        Seq::empty()
    } else if parts.len() == 1 {
        parts[0]
    } else {
        joined(parts.drop_last(), separator) + separator + parts.last()
    }
}

/// The characters of each string.
pub open spec fn texts(v: Seq<String>) -> Seq<Seq<char>> {
    v.map_values(|s: String| s@)
}

/// Puts strings together, with a separator between each two.
pub fn join(parts: &Vec<String>, separator: &str) -> (r: String)
    ensures
        r@ == joined(texts(parts@), separator@),
{
    let mut r: String = String::new();
    let mut i: usize = 0;
    let ghost all = texts(parts@);
    while i < parts.len()
        invariant
            all == texts(parts@),
            i <= parts@.len(),
            r@ == joined(all.take(i as int), separator@),
        decreases parts@.len() - i,
    {
        assert(all.take(i + 1).drop_last() == all.take(i as int));
        if i > 0 {
            r.append(separator);
        }
        r.append(parts[i].as_str());
        i += 1;
    }
    assert(all.take(i as int) == all);
    r
}

/// A number without its last `j` decimal digits.
pub open spec fn shortened(n: nat, j: nat) -> nat
    decreases j,
{
    if j == 0 {
        n
    } else {
        shortened(n / 10, (j - 1) as nat)
    }
}

/// Whether every character is a decimal digit.
pub open spec fn all_digits(s: Seq<char>) -> bool {
    forall|i: int| 0 <= i < s.len() ==> is_digit(#[trigger] s[i])
}

/// A number written in decimal has digits only, at least one, and reads back as the number.
pub proof fn decimal_reads_back(n: nat)
    ensures
        all_digits(decimal(n)),
        decimal(n).len() > 0,
        digits_value(decimal(n)) == n,
    decreases n,
{
    if n >= 10 {
        decimal_reads_back(n / 10);
        assert(decimal(n).drop_last() == decimal(n / 10));
    } else {
        assert(decimal(n).drop_last() == Seq::<char>::empty());
        assert(digits_value(Seq::<char>::empty()) == 0);
    }
}

/// The first digits of a number are those of the number without the others.
proof fn lemma_decimal_prefix(n: nat, j: nat)
    requires
        j < decimal(n).len(),
    ensures
        decimal(n).take(decimal(n).len() - j) == decimal(shortened(n, j)),
    decreases j,
{
    if j == 0 {
        assert(decimal(n).take(decimal(n).len() as int) == decimal(n));
    } else {
        assert(n >= 10);
        let front = decimal(n / 10);
        assert(decimal(n) == front.push(digit(n % 10)));
        lemma_decimal_prefix(n / 10, (j - 1) as nat);
        assert(decimal(n).take(decimal(n).len() - j) == front.take(front.len() - (j - 1)));
    }
}

proof fn lemma_decimal_longer(a: nat, b: nat)
    requires
        a <= b,
    ensures
        decimal(a).len() <= decimal(b).len(),
    decreases b,
{
    if a >= 10 {
        lemma_decimal_longer(a / 10, b / 10);
    } else {
        assert(decimal(a).len() == 1);
        assert(decimal(b).len() >= 1);
    }
}

proof fn lemma_same_length_order(x: Seq<char>, y: Seq<char>)
    requires
        all_digits(x),
        all_digits(y),
        x.len() == y.len(),
    ensures
        digits_value(x) < digits_value(y) ==> precedes(x, y),
        digits_value(x) == digits_value(y) ==> x == y,
    decreases x.len(),
{
    if x.len() > 0 {
        let a = x.drop_last();
        let b = y.drop_last();
        assert(all_digits(a) && all_digits(b));
        lemma_same_length_order(a, b);
        lemma_same_length_order(b, a);
        let n = a.len() as int;
        assert(is_digit(x[n]) && is_digit(y[n]));
        if digits_value(a) < digits_value(b) {
            let k = choose|k: int| differs_at(a, b, k);
            assert(x.take(k) == a.take(k) && y.take(k) == b.take(k));
            assert(differs_at(x, y, k));
        } else if digits_value(a) == digits_value(b) {
            assert(x.take(n) == a && y.take(n) == b);
            if digits_value(x) < digits_value(y) {
                assert(differs_at(x, y, n));
            } else if digits_value(x) == digits_value(y) {
                assert(x[n] == y[n]);
                assert(x == a.push(x[n]) && y == b.push(y[n]));
            }
        }
    } else {
        assert(x == y);
    }
}

/// Different numbers are written differently. A smaller number sorts before a larger one
/// exactly when it is at most the larger one cut down to its own number of digits; so it does
/// whenever both have equally many.
pub proof fn decimals_sort(a: nat, b: nat)
    requires
        a < b,
    ensures
        decimal(a) != decimal(b),
        decimal(a).len() <= decimal(b).len(),
        precedes(decimal(a), decimal(b)) <==> a <= shortened(
            b,
            (decimal(b).len() - decimal(a).len()) as nat,
        ),
        decimal(a).len() == decimal(b).len() ==> precedes(decimal(a), decimal(b)),
{
    decimal_reads_back(a);
    decimal_reads_back(b);
    lemma_decimal_longer(a, b);
    let x = decimal(a);
    let y = decimal(b);
    let j = (y.len() - x.len()) as nat;
    let q = shortened(b, j);
    decimal_reads_back(q);
    lemma_decimal_prefix(b, j);
    let z = decimal(q);
    assert(z == y.take(x.len() as int));
    if a < q {
        lemma_same_length_order(x, z);
        let k = choose|k: int| differs_at(x, z, k);
        assert(z.take(k) == y.take(k));
        assert(differs_at(x, y, k));
    } else if a == q {
        assert(x.take(x.len() as int) == x);
        if j == 0 {
            assert(y.take(y.len() as int) == y);
        }
        assert(differs_at(x, y, x.len() as int));
    } else {
        lemma_same_length_order(z, x);
        let k = choose|k: int| differs_at(z, x, k);
        assert(z.take(k) == y.take(k));
        assert(differs_at(y, x, k));
        precedes_is_total(x, y);
    }
}

/// A common first part decides nothing about the order.
pub proof fn precedes_after_prefix(p: Seq<char>, a: Seq<char>, b: Seq<char>)
    ensures
        precedes(p + a, p + b) <==> precedes(a, b),
{
    let n = p.len() as int;
    if precedes(a, b) {
        let k = choose|k: int| differs_at(a, b, k);
        assert((p + a).take(n + k) == p + a.take(k));
        assert((p + b).take(n + k) == p + b.take(k));
        assert(differs_at(p + a, p + b, n + k));
    }
    if precedes(p + a, p + b) {
        let k = choose|k: int| differs_at(p + a, p + b, k);
        if k < n {
            assert((p + a)[k] == (p + b)[k]);
        }
        assert(a.take(k - n) == (p + a).take(k).skip(n));
        assert(b.take(k - n) == (p + b).take(k).skip(n));
        assert(differs_at(a, b, k - n));
    }
}

/// The first character that differs decides the order, and what has nothing left comes first.
pub proof fn first_difference_decides(x: char, a: Seq<char>, y: char, b: Seq<char>)
    ensures
        x < y ==> precedes(seq![x] + a, seq![y] + b),
        x == y ==> (precedes(seq![x] + a, seq![y] + b) <==> precedes(a, b)),
        precedes(Seq::<char>::empty(), seq![y] + b),
{
    let p = seq![x] + a;
    let q = seq![y] + b;
    assert(p.take(0) == q.take(0));
    if x < y {
        assert(differs_at(p, q, 0));
    }
    if x == y {
        precedes_after_prefix(seq![x], a, b);
    }
    assert(Seq::<char>::empty().take(0) == q.take(0));
    assert(differs_at(Seq::<char>::empty(), q, 0));
}

/// One string occurs in another exactly when the other is something before it, it, and something
/// behind it.
pub proof fn parts_occur(s: Seq<char>, part: Seq<char>)
    ensures
        occurs(s, part) <==> exists|a: Seq<char>, b: Seq<char>| s == #[trigger] ((a + part) + b),
{
    if occurs(s, part) {
        let at = choose|at: int| found_at(s, part, at);
        let a = s.take(at);
        let b = s.skip(at + part.len());
        assert(s =~= (a + part) + b);
    }
    if exists|a: Seq<char>, b: Seq<char>| s == #[trigger] ((a + part) + b) {
        let (a, b) = choose|a: Seq<char>, b: Seq<char>| s == #[trigger] ((a + part) + b);
        assert(s.subrange(a.len() as int, (a.len() + part.len()) as int) =~= part);
        assert(found_at(s, part, a.len() as int));
    }
}

proof fn lemma_front_cut(s: Seq<char>) -> (a: int)
    ensures
        0 <= a <= s.len(),
        trim_front(s) == s.skip(a),
        forall|i: int| 0 <= i < a ==> is_space(#[trigger] s[i]),
    decreases s.len(),
{
    if s.len() > 0 && is_space(s[0]) {
        let rest = s.skip(1);
        let a = lemma_front_cut(rest);
        assert(rest.skip(a) =~= s.skip(a + 1));
        assert forall|i: int| 0 <= i < a + 1 implies is_space(#[trigger] s[i]) by {
            if i > 0 {
                assert(rest[i - 1] == s[i]);
            }
        }
        a + 1
    } else {
        assert(s.skip(0) =~= s);
        0
    }
}

proof fn lemma_back_cut(s: Seq<char>)
    ensures
        trim_back(s).len() <= s.len(),
        trim_back(s) == s.take(trim_back(s).len() as int),
        forall|i: int| trim_back(s).len() <= i < s.len() ==> is_space(#[trigger] s[i]),
    decreases s.len(),
{
    lemma_back_bare(s);
    if s.len() > 0 && is_space(s.last()) {
        let front = s.drop_last();
        lemma_back_cut(front);
        assert forall|i: int| trim_back(s).len() <= i < s.len() implies is_space(
            #[trigger] s[i],
        ) by {
            if i < front.len() {
                assert(front[i] == s[i]);
            }
        }
    }
}

/// Trimming takes white space from both ends and nothing else: the string is what is left with
/// white space before and behind it, and what is left neither begins nor ends with any.
pub proof fn trimming_takes_only_space(s: Seq<char>)
    ensures
        exists|a: Seq<char>, b: Seq<char>|
            {
                &&& s == #[trigger] ((a + trimmed(s)) + b)
                &&& forall|i: int| 0 <= i < a.len() ==> is_space(#[trigger] a[i])
                &&& forall|i: int| 0 <= i < b.len() ==> is_space(#[trigger] b[i])
            },
        trimmed(s).len() > 0 ==> !is_space(trimmed(s)[0]) && !is_space(trimmed(s).last()),
{
    trimmed_is_bare(s);
    let at = lemma_front_cut(s);
    let front = trim_front(s);
    lemma_back_cut(front);
    let n = trim_back(front).len() as int;
    let a = s.take(at);
    let b = front.skip(n);
    assert(s =~= (a + trimmed(s)) + b);
}

/// The words of a text are counted where they begin: at each character that is not white space
/// and has white space or nothing just before it.
pub proof fn words_are_counted_once(s: Seq<char>)
    ensures
        word_count(s) == Seq::new(s.len(), |i: int| i).filter(
            |i: int| !is_space(s[i]) && (i == 0 || is_space(s[i - 1])),
        ).len(),
{
    lemma_words_upto(s, s.len() as int);
    assert(s.take(s.len() as int) =~= s);
}

proof fn lemma_words_upto(s: Seq<char>, upto: int)
    requires
        0 <= upto <= s.len(),
    ensures
        word_count(s.take(upto)) == Seq::new(upto as nat, |i: int| i).filter(
            |i: int| !is_space(s[i]) && (i == 0 || is_space(s[i - 1])),
        ).len(),
    decreases upto,
{
    reveal(Seq::filter);
    let all = Seq::new(upto as nat, |i: int| i);
    if upto > 0 {
        lemma_words_upto(s, upto - 1);
        let here = s.take(upto);
        assert(here.drop_last() =~= s.take(upto - 1));
        assert(here.last() == s[upto - 1]);
        assert(upto > 1 ==> here[upto - 2] == s[upto - 2]);
        assert(all.drop_last() =~= Seq::new((upto - 1) as nat, |i: int| i));
        assert(all.last() == upto - 1);
    }
}

/// Words on two sides of a blank add up.
pub proof fn words_add_up(a: Seq<char>, b: Seq<char>)
    ensures
        word_count(a + seq![' '] + b) == word_count(a) + word_count(b),
    decreases b.len(),
{
    let left = a + seq![' '];
    if b.len() == 0 {
        assert(left + b =~= left);
        assert(left.drop_last() =~= a);
        assert(left.last() == ' ');
    } else {
        let whole = left + b;
        words_add_up(a, b.drop_last());
        assert(whole.drop_last() =~= left + b.drop_last());
        let n = whole.len() - 1;
        assert(whole[n] == b.last());
        if b.len() > 1 {
            assert(whole[n - 1] == b[b.len() - 2]);
        } else {
            assert(whole[n - 1] == ' ');
        }
    }
}

/// Lists put together one behind the other have the separator once more between them. A list of
/// one string is that string, and of none nothing.
pub proof fn joining_lists_joins_strings(a: Seq<Seq<char>>, b: Seq<Seq<char>>, separator: Seq<char>)
    ensures
        joined(Seq::<Seq<char>>::empty(), separator) == Seq::<char>::empty(),
        a.len() == 1 ==> joined(a, separator) == a[0],
        a.len() > 0 && b.len() > 0 ==> joined(a + b, separator) == joined(a, separator) + separator
            + joined(b, separator),
    decreases b.len(),
{
    if a.len() > 0 && b.len() > 0 {
        let front = b.drop_last();
        assert((a + b).drop_last() =~= a + front);
        assert((a + b).last() == b.last());
        if front.len() == 0 {
            assert(a + front =~= a);
        } else {
            joining_lists_joins_strings(a, front, separator);
            assert(joined(a + b, separator) =~= joined(a, separator) + separator + joined(
                b,
                separator,
            ));
        }
    }
}

proof fn lemma_value_folds(s: Seq<char>)
    requires
        forall|i: int| 0 <= i < s.len() ==> '0' <= #[trigger] s[i] <= '9',
    ensures
        digits_value(s) == s.fold_left(0int, |n: int, c: char| n * 10 + (c as int - 48)),
    decreases s.len(),
{
    reveal(Seq::fold_left);
    if s.len() > 0 {
        let front = s.drop_last();
        assert forall|i: int| 0 <= i < front.len() implies '0' <= #[trigger] front[i] <= '9' by {
            assert(front[i] == s[i]);
        }
        lemma_value_folds(front);
        assert('0' <= s[s.len() - 1] <= '9');
    }
}

/// A number is written with the digits from zero to nine, each worth ten times as much as the next
/// one, and without a zero in front of another digit.
pub proof fn decimal_is_positional(n: nat)
    ensures
        decimal(n).len() > 0,
        forall|i: int| 0 <= i < decimal(n).len() ==> '0' <= #[trigger] decimal(n)[i] <= '9',
        decimal(n).fold_left(0int, |n: int, c: char| n * 10 + (c as int - 48)) == n,
        decimal(n).len() > 1 ==> decimal(n)[0] != '0',
    decreases n,
{
    decimal_reads_back(n);
    assert forall|i: int| 0 <= i < decimal(n).len() implies '0' <= #[trigger] decimal(n)[i]
        <= '9' by {
        assert(is_digit(decimal(n)[i]));
    }
    lemma_value_folds(decimal(n));
    lemma_no_leading_zero(n);
}

proof fn lemma_no_leading_zero(n: nat)
    ensures
        decimal(n).len() > 0,
        n > 0 ==> decimal(n)[0] != '0',
        decimal(n).len() > 1 ==> n > 0,
    decreases n,
{
    if n >= 10 {
        lemma_no_leading_zero(n / 10);
        assert(decimal(n)[0] == decimal(n / 10)[0]);
    }
}

/// A count is read as a decimal number: digits alone, at least one, with a plus sign before them
/// or without, and nothing else is one. What does not fit is none either.
pub proof fn counts_are_decimal(s: Seq<char>, d: Seq<char>)
    requires
        s == d || s == seq!['+'] + d,
        d.len() > 0 ==> d[0] != '+',
    ensures
        ({
            let value = d.fold_left(0int, |n: int, c: char| n * 10 + (c as int - 48));
            let all = d.len() > 0 && forall|i: int|
                0 <= i < d.len() ==> '0' <= #[trigger] d[i] <= '9';
            &&& all && value <= usize::MAX ==> parsed_count(s) == Some(value as usize)
            &&& !all || value > usize::MAX ==> parsed_count(s) is None
        }),
{
    assert(unsigned(s) =~= d) by {
        if s != d {
            assert(s.skip(1) =~= d);
        }
    }
    if d.len() > 0 && forall|i: int| 0 <= i < d.len() ==> '0' <= #[trigger] d[i] <= '9' {
        assert forall|i: int| 0 <= i < d.len() implies is_digit(#[trigger] d[i]) by {
            assert('0' <= d[i] <= '9');
        }
        lemma_value_folds(d);
    } else if d.len() > 0 {
        let i = choose|i: int| 0 <= i < d.len() && !('0' <= #[trigger] d[i] <= '9');
        assert(!is_digit(d[i]));
    }
}

/// A number that was written is read as the same number.
pub proof fn written_counts_read_back(n: usize)
    ensures
        parsed_count(decimal(n as nat)) == Some(n),
{
    decimal_is_positional(n as nat);
    assert('0' <= decimal(n as nat)[0] <= '9');
    counts_are_decimal(decimal(n as nat), decimal(n as nat));
}

} // verus!
