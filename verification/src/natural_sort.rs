//! Natural ordering for file and folder names.
//!
//! Digit runs compare as numbers, so that `img2.jpg` sorts before `img10.jpg`.
//! Everything else compares case-insensitively, with the raw characters as a
//! tie-breaker so that two different names never compare equal.
use core::cmp::Ordering;
use vstd::prelude::*;

use crate::text::{chars_of, occurs_in, option_chars, last_name, plain_path, Order, char_order, int_order, reversed};

verus! {

// ---------------------------------------------------------------------------
// The model
// ---------------------------------------------------------------------------

/// What `char::to_lowercase` yields for `c`: its full lowercase mapping.
pub uninterp spec fn lowercase_chars(c: char) -> Seq<char>;

/// Whether `c` is an ASCII decimal digit.
pub open spec fn is_digit(c: char) -> bool {
    '0' <= c && c <= '9'
}

/// The single character a case-insensitive comparison uses for `c`: the first
/// character of its lowercase mapping, or `c` itself if that mapping were empty.
pub open spec fn lower_of(c: char) -> char {
    if lowercase_chars(c).len() > 0 {
        lowercase_chars(c)[0]
    } else {
        c
    }
}

/// `s` with every character replaced by its full lowercase mapping.
pub open spec fn lowercase_all(s: Seq<char>) -> Seq<char>
    decreases s.len(),
{
    if s.len() == 0 {
        Seq::empty()
    } else {
        lowercase_all(s.drop_last()) + lowercase_chars(s.last())
    }
}

/// End of the run of ASCII digits in `s` that starts at `i`.
pub open spec fn digit_end(s: Seq<char>, i: nat) -> nat
    decreases s.len() - i,
{
    if i < s.len() && is_digit(s[i as int]) {
        digit_end(s, i + 1)
    } else {
        i
    }
}

/// End of the run of `'0'` characters in `s` that starts at `i`, stopping at `e`.
pub open spec fn zeros_end(s: Seq<char>, i: nat, e: nat) -> nat
    decreases e - i,
{
    if i < e && i < s.len() && s[i as int] == '0' {
        zeros_end(s, i + 1, e)
    } else {
        i
    }
}

/// Character-by-character order, a proper prefix first.
pub open spec fn lex_order(x: Seq<char>, y: Seq<char>) -> Order
    decreases x.len(),
{
    if x.len() == 0 || y.len() == 0 {
        int_order(x.len() as int, y.len() as int)
    } else {
        match char_order(x[0], y[0]) {
            Order::Equal => lex_order(x.drop_first(), y.drop_first()),
            other => other,
        }
    }
}

/// Two digit runs without leading zeros, compared as numbers of any length.
pub open spec fn digits_order(x: Seq<char>, y: Seq<char>) -> Order {
    match int_order(x.len() as int, y.len() as int) {
        Order::Equal => lex_order(x, y),
        other => other,
    }
}

/// The digit runs `a[i..ea]` and `b[j..eb]` compared by value; equal values
/// are ordered by their number of leading zeros, fewer first.
pub open spec fn number_order(a: Seq<char>, i: nat, ea: nat, b: Seq<char>, j: nat, eb: nat) -> Order {
    let za = zeros_end(a, i, ea);
    let zb = zeros_end(b, j, eb);
    match digits_order(a.subrange(za as int, ea as int), b.subrange(zb as int, eb as int)) {
        Order::Equal => int_order(za - i, zb - j),
        other => other,
    }
}

pub proof fn lemma_digit_end(s: Seq<char>, i: nat)
    ensures
        i <= digit_end(s, i),
        i <= s.len() ==> digit_end(s, i) <= s.len(),
        i < s.len() && is_digit(s[i as int]) ==> i < digit_end(s, i),
        forall|k: int| i <= k < digit_end(s, i) ==> is_digit(#[trigger] s[k]),
        digit_end(s, i) < s.len() ==> !is_digit(s[digit_end(s, i) as int]),
    decreases s.len() - i,
{
    if i < s.len() && is_digit(s[i as int]) {
        lemma_digit_end(s, i + 1);
    }
}

pub proof fn lemma_zeros_end(s: Seq<char>, i: nat, e: nat)
    ensures
        i <= zeros_end(s, i, e),
        i <= e ==> zeros_end(s, i, e) <= e,
        forall|k: int| i <= k < zeros_end(s, i, e) ==> #[trigger] s[k] == '0',
        zeros_end(s, i, e) < e && zeros_end(s, i, e) < s.len() ==> s[zeros_end(s, i, e) as int] != '0',
    decreases e - i,
{
    if i < e && i < s.len() && s[i as int] == '0' {
        lemma_zeros_end(s, i + 1, e);
    }
}

/// The natural order of `a[i..]` and `b[j..]` for names that are already
/// lowercase: digit runs by value, everything else by character.
pub open spec fn lowered_order_at(a: Seq<char>, b: Seq<char>, i: nat, j: nat) -> Order
    decreases a.len() - i + b.len() - j,
{
    if i >= a.len() {
        if j >= b.len() {
            Order::Equal
        } else {
            Order::Less
        }
    } else if j >= b.len() {
        Order::Greater
    } else if is_digit(a[i as int]) && is_digit(b[j as int]) {
        let ea = digit_end(a, i);
        let eb = digit_end(b, j);
        proof {
            lemma_digit_end(a, i);
            lemma_digit_end(b, j);
        }
        match number_order(a, i, ea, b, j, eb) {
            Order::Equal => lowered_order_at(a, b, ea, eb),
            other => other,
        }
    } else {
        match char_order(a[i as int], b[j as int]) {
            Order::Equal => lowered_order_at(a, b, i + 1, j + 1),
            other => other,
        }
    }
}

/// How a pure case difference between `l` and `r` is settled: the lowercased
/// names decide first, and only if they are identical does the character.
pub open spec fn case_tie_order(a: Seq<char>, b: Seq<char>, l: char, r: char) -> Order {
    match lowered_order_at(lowercase_all(a), lowercase_all(b), 0, 0) {
        Order::Equal => char_order(l, r),
        other => other,
    }
}

/// The natural order of the names `a` and `b`, looking at `a[i..]` and `b[j..]`.
pub open spec fn natural_order_at(a: Seq<char>, b: Seq<char>, i: nat, j: nat) -> Order
    decreases a.len() - i + b.len() - j,
{
    if i >= a.len() {
        if j >= b.len() {
            Order::Equal
        } else {
            Order::Less
        }
    } else if j >= b.len() {
        Order::Greater
    } else if is_digit(a[i as int]) && is_digit(b[j as int]) {
        let ea = digit_end(a, i);
        let eb = digit_end(b, j);
        proof {
            lemma_digit_end(a, i);
            lemma_digit_end(b, j);
        }
        match number_order(a, i, ea, b, j, eb) {
            Order::Equal => natural_order_at(a, b, ea, eb),
            other => other,
        }
    } else {
        match char_order(lower_of(a[i as int]), lower_of(b[j as int])) {
            Order::Equal => if a[i as int] == b[j as int] {
                natural_order_at(a, b, i + 1, j + 1)
            } else {
                case_tie_order(a, b, a[i as int], b[j as int])
            },
            other => other,
        }
    }
}

/// The natural order of two names.
pub open spec fn natural_order(a: Seq<char>, b: Seq<char>) -> Order {
    natural_order_at(a, b, 0, 0)
}

// ---------------------------------------------------------------------------
// Trusted: Unicode lowercasing
// ---------------------------------------------------------------------------

/// Calls `char::to_lowercase` and collects what it yields. Its documentation
/// promises one or more chars; which ones is left to `lowercase_chars`.
#[verifier::external_body]
fn to_lowercase(c: char) -> (r: Vec<char>)
    ensures
        r@ == lowercase_chars(c),
        r@.len() >= 1,
{
    c.to_lowercase().collect()
}

// ---------------------------------------------------------------------------
// The implementation
// ---------------------------------------------------------------------------

fn is_ascii_digit(c: char) -> (r: bool)
    ensures
        r == is_digit(c),
{
    '0' <= c && c <= '9'
}

fn lower(c: char) -> (r: char)
    ensures
        r == lower_of(c),
{
    let lowered = to_lowercase(c);
    if lowered.len() > 0 {
        lowered[0]
    } else {
        c
    }
}

fn compare_chars(x: char, y: char) -> (r: Order)
    ensures
        r == char_order(x, y),
{
    if x < y {
        Order::Less
    } else if y < x {
        Order::Greater
    } else {
        Order::Equal
    }
}

fn compare_counts(x: usize, y: usize) -> (r: Order)
    ensures
        r == int_order(x as int, y as int),
{
    if x < y {
        Order::Less
    } else if y < x {
        Order::Greater
    } else {
        Order::Equal
    }
}

/// Consumes the digit run that starts at `start`, returning its digits without
/// leading zeros, the number of leading zeros stripped, and where the run ends.
fn take_number(chars: &Vec<char>, start: usize) -> (res: (Vec<char>, usize, usize))
    requires
        start < chars.len(),
        is_digit(chars@[start as int]),
    ensures
        res.2 == digit_end(chars@, start as nat),
        start < res.2 <= chars.len(),
        res.1 == zeros_end(chars@, start as nat, res.2 as nat) - start,
        res.0@ == chars@.subrange(zeros_end(chars@, start as nat, res.2 as nat) as int, res.2 as int),
{
    proof {
        lemma_digit_end(chars@, start as nat);
    }
    let mut end = start;
    while end < chars.len() && is_ascii_digit(chars[end])
        invariant
            start <= end <= chars.len(),
            digit_end(chars@, end as nat) == digit_end(chars@, start as nat),
        decreases chars.len() - end,
    {
        end = end + 1;
    }
    let mut first = start;
    while first < end && chars[first] == '0'
        invariant
            start <= first <= end <= chars.len(),
            zeros_end(chars@, first as nat, end as nat) == zeros_end(chars@, start as nat, end as nat),
        decreases end - first,
    {
        first = first + 1;
    }
    let mut digits: Vec<char> = Vec::new();
    let mut k = first;
    while k < end
        invariant
            first <= k <= end <= chars.len(),
            digits@ == chars@.subrange(first as int, k as int),
        decreases end - k,
    {
        digits.push(chars[k]);
        proof {
            assert(chars@.subrange(first as int, k + 1) =~= chars@.subrange(first as int, k as int).push(chars@[k as int]));
        }
        k = k + 1;
    }
    (digits, first - start, end)
}

/// Compares two zero-stripped digit runs as numbers of unbounded length.
fn compare_numbers(a: &Vec<char>, b: &Vec<char>) -> (r: Order)
    ensures
        r == digits_order(a@, b@),
{
    match compare_counts(a.len(), b.len()) {
        Order::Equal => compare_lex(a, b),
        other => other,
    }
}

/// Character-by-character comparison, a proper prefix first.
fn compare_lex(a: &Vec<char>, b: &Vec<char>) -> (r: Order)
    ensures
        r == lex_order(a@, b@),
{
    let mut k: usize = 0;
    proof {
        assert(a@.skip(0) =~= a@);
        assert(b@.skip(0) =~= b@);
    }
    while k < a.len() && k < b.len()
        invariant
            k <= a.len(),
            k <= b.len(),
            lex_order(a@.skip(k as int), b@.skip(k as int)) == lex_order(a@, b@),
        decreases a.len() - k,
    {
        match compare_chars(a[k], b[k]) {
            Order::Equal => {},
            other => {
                return other;
            },
        }
        proof {
            assert(a@.skip(k as int).drop_first() =~= a@.skip(k + 1));
            assert(b@.skip(k as int).drop_first() =~= b@.skip(k + 1));
        }
        k = k + 1;
    }
    compare_counts(a.len() - k, b.len() - k)
}

/// `chars` with every character replaced by its full lowercase mapping.
fn lowercase_vec(chars: &Vec<char>) -> (r: Vec<char>)
    ensures
        r@ == lowercase_all(chars@),
{
    let mut out: Vec<char> = Vec::new();
    let mut i: usize = 0;
    while i < chars.len()
        invariant
            i <= chars.len(),
            out@ == lowercase_all(chars@.take(i as int)),
        decreases chars.len() - i,
    {
        let lowered = to_lowercase(chars[i]);
        let ghost before = out@;
        let mut k: usize = 0;
        while k < lowered.len()
            invariant
                k <= lowered.len(),
                out@ == before + lowered@.take(k as int),
            decreases lowered.len() - k,
        {
            out.push(lowered[k]);
            proof {
                assert(lowered@.take(k + 1) =~= lowered@.take(k as int).push(lowered@[k as int]));
            }
            k = k + 1;
        }
        proof {
            assert(lowered@.take(lowered.len() as int) =~= lowered@);
            assert(chars@.take(i + 1).drop_last() =~= chars@.take(i as int));
        }
        i = i + 1;
    }
    proof {
        assert(chars@.take(chars.len() as int) =~= chars@);
    }
    out
}

/// The natural order of two names that are already lowercase: digit runs by
/// value, then fewer leading zeros first, everything else by character.
pub fn natural_order_lowercased(a: &Vec<char>, b: &Vec<char>) -> (r: Order)
    ensures
        r == lowered_order_at(a@, b@, 0, 0),
{
    let mut i: usize = 0;
    let mut j: usize = 0;
    loop
        invariant
            i <= a.len(),
            j <= b.len(),
            lowered_order_at(a@, b@, i as nat, j as nat) == lowered_order_at(a@, b@, 0, 0),
        decreases a.len() - i + b.len() - j,
    {
        if i >= a.len() {
            if j >= b.len() {
                return Order::Equal;
            }
            return Order::Less;
        }
        if j >= b.len() {
            return Order::Greater;
        }
        let l = a[i];
        let r = b[j];
        if is_ascii_digit(l) && is_ascii_digit(r) {
            let (l_digits, l_zeros, l_end) = take_number(a, i);
            let (r_digits, r_zeros, r_end) = take_number(b, j);
            match compare_numbers(&l_digits, &r_digits) {
                Order::Equal => match compare_counts(l_zeros, r_zeros) {
                    Order::Equal => {},
                    other => {
                        return other;
                    },
                },
                other => {
                    return other;
                },
            }
            i = l_end;
            j = r_end;
        } else {
            match compare_chars(l, r) {
                Order::Equal => {},
                other => {
                    return other;
                },
            }
            i = i + 1;
            j = j + 1;
        }
    }
}

/// Settles a pure case difference between the characters `l` and `r`, given
/// the two names already lowercased: the lowercased names decide first, and
/// only if they are identical does the character itself break the tie.
pub fn settle_case_tie(lower_a: &Vec<char>, lower_b: &Vec<char>, l: char, r: char) -> (res: Order)
    ensures
        res == (match lowered_order_at(lower_a@, lower_b@, 0, 0) {
            Order::Equal => char_order(l, r),
            other => other,
        }),
{
    match natural_order_lowercased(lower_a, lower_b) {
        Order::Equal => compare_chars(l, r),
        other => other,
    }
}

/// Resolves a pure case difference: the rest of both names decides first, and
/// only if they are otherwise identical does the character itself break the tie.
fn compare_tail(a: &Vec<char>, b: &Vec<char>, l: char, r: char) -> (res: Order)
    ensures
        res == case_tie_order(a@, b@, l, r),
{
    let lower_a = lowercase_vec(a);
    let lower_b = lowercase_vec(b);
    settle_case_tie(&lower_a, &lower_b, l, r)
}

/// The natural order of two names given as characters.
pub fn natural_order_of(a: &Vec<char>, b: &Vec<char>) -> (res: Order)
    ensures
        res == natural_order(a@, b@),
{
    let mut i: usize = 0;
    let mut j: usize = 0;
    loop
        invariant
            i <= a.len(),
            j <= b.len(),
            natural_order_at(a@, b@, i as nat, j as nat) == natural_order(a@, b@),
        decreases a.len() - i + b.len() - j,
    {
        if i >= a.len() {
            if j >= b.len() {
                return Order::Equal;
            }
            return Order::Less;
        }
        if j >= b.len() {
            return Order::Greater;
        }
        let l = a[i];
        let r = b[j];
        if is_ascii_digit(l) && is_ascii_digit(r) {
            let (l_digits, l_zeros, l_end) = take_number(a, i);
            let (r_digits, r_zeros, r_end) = take_number(b, j);
            match compare_numbers(&l_digits, &r_digits) {
                // `01` and `1` are numerically equal; the one with fewer
                // leading zeros comes first.
                Order::Equal => match compare_counts(l_zeros, r_zeros) {
                    Order::Equal => {},
                    other => {
                        return other;
                    },
                },
                other => {
                    return other;
                },
            }
            i = l_end;
            j = r_end;
        } else {
            i = i + 1;
            j = j + 1;
            match compare_chars(lower(l), lower(r)) {
                Order::Equal => match compare_chars(l, r) {
                    Order::Equal => {},
                    // A case difference only decides the comparison when the
                    // rest of the names are equal.
                    _ => {
                        return compare_tail(a, b, l, r);
                    },
                },
                other => {
                    return other;
                },
            }
        }
    }
}


// ---------------------------------------------------------------------------
// The public comparisons
// ---------------------------------------------------------------------------

/// The standard library's ordering for a three-way result.
pub open spec fn to_ordering(o: Order) -> Ordering {
    match o {
        Order::Less => Ordering::Less,
        Order::Equal => Ordering::Equal,
        Order::Greater => Ordering::Greater,
    }
}

fn into_ordering(o: Order) -> (r: Ordering)
    ensures
        r == to_ordering(o),
{
    match o {
        Order::Less => Ordering::Less,
        Order::Equal => Ordering::Equal,
        Order::Greater => Ordering::Greater,
    }
}

/// Compares two names in natural order.
pub fn natural_cmp(a: &str, b: &str) -> (r: Ordering)
    ensures
        r == to_ordering(natural_order(a@, b@)),
{
    let left = chars_of(a);
    let right = chars_of(b);
    into_ordering(natural_order_of(&left, &right))
}

/// Compares two names that are already lowercase in natural order: digit
/// runs by value, then fewer leading zeros first, everything else by
/// character.
pub fn natural_cmp_lowercased(a: &str, b: &str) -> (r: Ordering)
    ensures
        r == to_ordering(lowered_order_at(a@, b@, 0, 0)),
{
    let left = chars_of(a);
    let right = chars_of(b);
    into_ordering(natural_order_lowercased(&left, &right))
}

/// Calls `Path::file_name` on `path` and converts the name it finds to a
/// `String`. Which component is the last one depends on the platform's
/// separators, so in general only this is stated: a name it returns is a
/// non-empty piece of the path's text. For plain names joined by `/` (which
/// separates on every platform) the file name is the last of them.
#[verifier::external_body]
fn file_name(path: &str) -> (r: Option<String>)
    ensures
        r matches Some(name) ==> name@.len() > 0 && occurs_in(name@, path@),
        plain_path(path@) ==> option_chars(r) == Some(last_name(path@)),
{
    std::path::Path::new(path).file_name().and_then(|name| name.to_str()).map(String::from)
}

/// Compares two paths by the natural order of their file names, ignoring any
/// directory part. A path without a file name compares as the empty name.
pub fn natural_cmp_paths(a: &str, b: &str) -> (r: Ordering)
    ensures
        plain_path(a@) && plain_path(b@) ==> r == to_ordering(natural_order(last_name(a@), last_name(b@))),
        exists|name_a: Seq<char>, name_b: Seq<char>|
            (name_a.len() == 0 || occurs_in(name_a, a@)) && (name_b.len() == 0 || occurs_in(name_b, b@))
                && r == to_ordering(natural_order(name_a, name_b)),
{
    let name_a = match file_name(a) {
        Some(name) => name,
        None => String::new(),
    };
    let name_b = match file_name(b) {
        Some(name) => name,
        None => String::new(),
    };
    let r = natural_cmp(name_a.as_str(), name_b.as_str());
    proof {
        assert((name_a@.len() == 0 || occurs_in(name_a@, a@)) && (name_b@.len() == 0 || occurs_in(name_b@, b@))
            && r == to_ordering(natural_order(name_a@, name_b@)));
    }
    r
}

// ---------------------------------------------------------------------------
// Laws
// ---------------------------------------------------------------------------

proof fn lemma_lex_reflexive(x: Seq<char>)
    ensures
        lex_order(x, x) == Order::Equal,
    decreases x.len(),
{
    if x.len() > 0 {
        lemma_lex_reflexive(x.drop_first());
    }
}

proof fn lemma_lex_antisymmetric(x: Seq<char>, y: Seq<char>)
    ensures
        lex_order(y, x) == reversed(lex_order(x, y)),
    decreases x.len(),
{
    if x.len() > 0 && y.len() > 0 {
        lemma_lex_antisymmetric(x.drop_first(), y.drop_first());
    }
}

proof fn lemma_lex_equal(x: Seq<char>, y: Seq<char>)
    requires
        lex_order(x, y) == Order::Equal,
    ensures
        x == y,
    decreases x.len(),
{
    if x.len() > 0 && y.len() > 0 {
        lemma_lex_equal(x.drop_first(), y.drop_first());
        assert(x =~= seq![x[0]] + x.drop_first());
        assert(y =~= seq![y[0]] + y.drop_first());
    } else {
        assert(x =~= y);
    }
}

proof fn lemma_number_reflexive(a: Seq<char>, i: nat, e: nat)
    ensures
        number_order(a, i, e, a, i, e) == Order::Equal,
{
    let z = zeros_end(a, i, e);
    lemma_lex_reflexive(a.subrange(z as int, e as int));
}

proof fn lemma_number_antisymmetric(a: Seq<char>, i: nat, ea: nat, b: Seq<char>, j: nat, eb: nat)
    ensures
        number_order(b, j, eb, a, i, ea) == reversed(number_order(a, i, ea, b, j, eb)),
{
    let za = zeros_end(a, i, ea);
    let zb = zeros_end(b, j, eb);
    lemma_lex_antisymmetric(a.subrange(za as int, ea as int), b.subrange(zb as int, eb as int));
}

/// Equal numbers with equal zero counts are the very same digit runs.
proof fn lemma_number_equal(a: Seq<char>, i: nat, b: Seq<char>, j: nat)
    requires
        i < a.len(),
        j < b.len(),
        number_order(a, i, digit_end(a, i), b, j, digit_end(b, j)) == Order::Equal,
    ensures
        digit_end(a, i) - i == digit_end(b, j) - j,
        a.subrange(i as int, digit_end(a, i) as int) == b.subrange(j as int, digit_end(b, j) as int),
{
    let ea = digit_end(a, i);
    let eb = digit_end(b, j);
    lemma_digit_end(a, i);
    lemma_digit_end(b, j);
    lemma_zeros_end(a, i, ea);
    lemma_zeros_end(b, j, eb);
    let za = zeros_end(a, i, ea);
    let zb = zeros_end(b, j, eb);
    let x = a.subrange(za as int, ea as int);
    let y = b.subrange(zb as int, eb as int);
    assert(digits_order(x, y) == Order::Equal);
    assert(x.len() == y.len());
    lemma_lex_equal(x, y);
    assert(za - i == zb - j);
    let sa = a.subrange(i as int, ea as int);
    let sb = b.subrange(j as int, eb as int);
    assert forall|k: int| 0 <= k < ea - i implies #[trigger] sa[k] == sb[k] by {
        assert(sa[k] == a[i + k]);
        assert(sb[k] == b[j + k]);
        if k < za - i {
            assert(a[i + k] == '0');
            assert(b[j + k] == '0');
        } else {
            assert(x[k - (za - i)] == a[i + k]);
            assert(y[k - (zb - j)] == b[j + k]);
        }
    }
    assert(sa =~= sb);
}

proof fn lemma_lowered_reflexive(a: Seq<char>, i: nat)
    ensures
        lowered_order_at(a, a, i, i) == Order::Equal,
    decreases a.len() - i,
{
    if i < a.len() {
        if is_digit(a[i as int]) {
            let e = digit_end(a, i);
            lemma_digit_end(a, i);
            lemma_number_reflexive(a, i, e);
            lemma_lowered_reflexive(a, e);
        } else {
            lemma_lowered_reflexive(a, i + 1);
        }
    }
}

proof fn lemma_lowered_antisymmetric(a: Seq<char>, b: Seq<char>, i: nat, j: nat)
    ensures
        lowered_order_at(b, a, j, i) == reversed(lowered_order_at(a, b, i, j)),
    decreases a.len() - i + b.len() - j,
{
    if i < a.len() && j < b.len() {
        if is_digit(a[i as int]) && is_digit(b[j as int]) {
            let ea = digit_end(a, i);
            let eb = digit_end(b, j);
            lemma_digit_end(a, i);
            lemma_digit_end(b, j);
            lemma_number_antisymmetric(a, i, ea, b, j, eb);
            lemma_lowered_antisymmetric(a, b, ea, eb);
        } else {
            lemma_lowered_antisymmetric(a, b, i + 1, j + 1);
        }
    }
}

proof fn lemma_natural_reflexive_at(a: Seq<char>, i: nat)
    ensures
        natural_order_at(a, a, i, i) == Order::Equal,
    decreases a.len() - i,
{
    if i < a.len() {
        if is_digit(a[i as int]) {
            let e = digit_end(a, i);
            lemma_digit_end(a, i);
            lemma_number_reflexive(a, i, e);
            lemma_natural_reflexive_at(a, e);
        } else {
            lemma_natural_reflexive_at(a, i + 1);
        }
    }
}

proof fn lemma_natural_antisymmetric_at(a: Seq<char>, b: Seq<char>, i: nat, j: nat)
    ensures
        natural_order_at(b, a, j, i) == reversed(natural_order_at(a, b, i, j)),
    decreases a.len() - i + b.len() - j,
{
    if i < a.len() && j < b.len() {
        if is_digit(a[i as int]) && is_digit(b[j as int]) {
            let ea = digit_end(a, i);
            let eb = digit_end(b, j);
            lemma_digit_end(a, i);
            lemma_digit_end(b, j);
            lemma_number_antisymmetric(a, i, ea, b, j, eb);
            lemma_natural_antisymmetric_at(a, b, ea, eb);
        } else {
            lemma_natural_antisymmetric_at(a, b, i + 1, j + 1);
            lemma_lowered_antisymmetric(lowercase_all(a), lowercase_all(b), 0, 0);
        }
    }
}

proof fn lemma_natural_equal_at(a: Seq<char>, b: Seq<char>, i: nat, j: nat)
    requires
        i <= a.len(),
        j <= b.len(),
        natural_order_at(a, b, i, j) == Order::Equal,
    ensures
        a.skip(i as int) == b.skip(j as int),
    decreases a.len() - i + b.len() - j,
{
    if i < a.len() && j < b.len() {
        if is_digit(a[i as int]) && is_digit(b[j as int]) {
            let ea = digit_end(a, i);
            let eb = digit_end(b, j);
            lemma_digit_end(a, i);
            lemma_digit_end(b, j);
            lemma_number_equal(a, i, b, j);
            lemma_natural_equal_at(a, b, ea, eb);
            assert(a.skip(i as int) =~= a.subrange(i as int, ea as int) + a.skip(ea as int));
            assert(b.skip(j as int) =~= b.subrange(j as int, eb as int) + b.skip(eb as int));
        } else {
            assert(a[i as int] == b[j as int]);
            lemma_natural_equal_at(a, b, i + 1, j + 1);
            assert(a.skip(i as int) =~= seq![a[i as int]] + a.skip(i + 1 as int));
            assert(b.skip(j as int) =~= seq![b[j as int]] + b.skip(j + 1 as int));
        }
    } else {
        assert(a.skip(i as int) =~= b.skip(j as int));
    }
}

/// Every name is in natural order equal to itself.
pub proof fn natural_order_is_reflexive(a: Seq<char>)
    ensures
        natural_order(a, a) == Order::Equal,
{
    lemma_natural_reflexive_at(a, 0);
}

/// Swapping the two names reverses their natural order.
pub proof fn natural_order_is_antisymmetric(a: Seq<char>, b: Seq<char>)
    ensures
        natural_order(b, a) == reversed(natural_order(a, b)),
{
    lemma_natural_antisymmetric_at(a, b, 0, 0);
}

/// Two names are equal in natural order exactly when they are the same name:
/// neither leading zeros nor a difference of case alone makes them equal.
pub proof fn natural_order_equal_only_for_identical(a: Seq<char>, b: Seq<char>)
    ensures
        (natural_order(a, b) == Order::Equal) == (a == b),
{
    if natural_order(a, b) == Order::Equal {
        lemma_natural_equal_at(a, b, 0, 0);
        assert(a =~= a.skip(0));
        assert(b =~= b.skip(0));
    }
    if a == b {
        lemma_natural_reflexive_at(a, 0);
    }
}

} // verus!
