//! Natural order is a total order: besides being reflexive and antisymmetric
//! (proved beside its definition), it is transitive, so sorting by it is
//! consistent.
use vstd::prelude::*;

use crate::natural_sort::{
    digit_end, is_digit, lemma_digit_end, lemma_zeros_end, lower_of, lowercase_all, lowercase_chars,
    lowered_order_at, natural_order, natural_order_at, number_order, zeros_end, digits_order, lex_order,
};
use crate::text::{char_order, decimal, digit_char, int_order, Order};

verus! {

/// `o` is not `Greater`.
pub open spec fn at_most(o: Order) -> bool {
    o != Order::Greater
}

proof fn lemma_lex_transitive(x: Seq<char>, y: Seq<char>, z: Seq<char>)
    requires
        at_most(lex_order(x, y)),
        at_most(lex_order(y, z)),
    ensures
        at_most(lex_order(x, z)),
        lex_order(x, y) == Order::Less || lex_order(y, z) == Order::Less ==> lex_order(x, z) == Order::Less,
    decreases x.len(),
{
    if x.len() > 0 && y.len() > 0 && z.len() > 0 {
        if x[0] == y[0] && y[0] == z[0] {
            lemma_lex_transitive(x.drop_first(), y.drop_first(), z.drop_first());
        }
    }
}

proof fn lemma_lex_equal_is_identical(x: Seq<char>, y: Seq<char>)
    requires
        lex_order(x, y) == Order::Equal,
    ensures
        x == y,
    decreases x.len(),
{
    if x.len() > 0 && y.len() > 0 {
        lemma_lex_equal_is_identical(x.drop_first(), y.drop_first());
        assert(x =~= seq![x[0]] + x.drop_first());
        assert(y =~= seq![y[0]] + y.drop_first());
    } else {
        assert(x =~= y);
    }
}

proof fn lemma_digits_transitive(x: Seq<char>, y: Seq<char>, z: Seq<char>)
    requires
        at_most(digits_order(x, y)),
        at_most(digits_order(y, z)),
    ensures
        at_most(digits_order(x, z)),
        digits_order(x, y) == Order::Less || digits_order(y, z) == Order::Less ==> digits_order(x, z)
            == Order::Less,
{
    if x.len() == y.len() && y.len() == z.len() {
        lemma_lex_transitive(x, y, z);
    }
}

proof fn lemma_digits_equal_is_identical(x: Seq<char>, y: Seq<char>)
    requires
        digits_order(x, y) == Order::Equal,
    ensures
        x == y,
{
    lemma_lex_equal_is_identical(x, y);
}

/// Two digit runs that compare equal are the same characters.
proof fn lemma_run_equal(a: Seq<char>, i: nat, b: Seq<char>, j: nat)
    requires
        i < a.len(),
        j < b.len(),
        number_order(a, i, digit_end(a, i), b, j, digit_end(b, j)) == Order::Equal,
    ensures
        digit_end(a, i) - i == digit_end(b, j) - j,
        a.subrange(i as int, digit_end(a, i) as int) == b.subrange(j as int, digit_end(b, j) as int),
        zeros_end(a, i, digit_end(a, i)) - i == zeros_end(b, j, digit_end(b, j)) - j,
        a.subrange(zeros_end(a, i, digit_end(a, i)) as int, digit_end(a, i) as int) == b.subrange(
            zeros_end(b, j, digit_end(b, j)) as int,
            digit_end(b, j) as int,
        ),
{
    let ea = digit_end(a, i);
    let eb = digit_end(b, j);
    lemma_digit_end(a, i);
    lemma_digit_end(b, j);
    lemma_zeros_end(a, i, ea);
    lemma_zeros_end(b, j, eb);
    let za = zeros_end(a, i, ea);
    let zb = zeros_end(b, j, eb);
    lemma_digits_equal_is_identical(a.subrange(za as int, ea as int), b.subrange(zb as int, eb as int));
    let sa = a.subrange(i as int, ea as int);
    let sb = b.subrange(j as int, eb as int);
    assert forall|m: int| 0 <= m < ea - i implies #[trigger] sa[m] == sb[m] by {
        assert(sa[m] == a[i + m]);
        assert(sb[m] == b[j + m]);
        if m < za - i {
            assert(a[i + m] == '0');
            assert(b[j + m] == '0');
        } else {
            assert(a.subrange(za as int, ea as int)[m - (za - i)] == a[i + m]);
            assert(b.subrange(zb as int, eb as int)[m - (zb - j)] == b[j + m]);
        }
    }
    assert(sa =~= sb);
}

proof fn lemma_number_transitive(a: Seq<char>, i: nat, b: Seq<char>, j: nat, c: Seq<char>, k: nat)
    requires
        i < a.len(),
        j < b.len(),
        k < c.len(),
        at_most(number_order(a, i, digit_end(a, i), b, j, digit_end(b, j))),
        at_most(number_order(b, j, digit_end(b, j), c, k, digit_end(c, k))),
    ensures
        at_most(number_order(a, i, digit_end(a, i), c, k, digit_end(c, k))),
        number_order(a, i, digit_end(a, i), b, j, digit_end(b, j)) == Order::Less || number_order(
            b,
            j,
            digit_end(b, j),
            c,
            k,
            digit_end(c, k),
        ) == Order::Less ==> number_order(a, i, digit_end(a, i), c, k, digit_end(c, k)) == Order::Less,
{
    let ea = digit_end(a, i);
    let eb = digit_end(b, j);
    let ec = digit_end(c, k);
    let za = zeros_end(a, i, ea);
    let zb = zeros_end(b, j, eb);
    let zc = zeros_end(c, k, ec);
    let x = a.subrange(za as int, ea as int);
    let y = b.subrange(zb as int, eb as int);
    let z = c.subrange(zc as int, ec as int);
    lemma_digits_transitive(x, y, z);
    if digits_order(x, y) == Order::Equal {
        lemma_digits_equal_is_identical(x, y);
    }
    if digits_order(y, z) == Order::Equal {
        lemma_digits_equal_is_identical(y, z);
    }
}

/// Transitivity of the order on already-lowercased names, from any three
/// positions on.
proof fn lemma_lowered_transitive_at(a: Seq<char>, b: Seq<char>, c: Seq<char>, i: nat, j: nat, k: nat)
    requires
        at_most(lowered_order_at(a, b, i, j)),
        at_most(lowered_order_at(b, c, j, k)),
    ensures
        at_most(lowered_order_at(a, c, i, k)),
        lowered_order_at(a, b, i, j) == Order::Less || lowered_order_at(b, c, j, k) == Order::Less
            ==> lowered_order_at(a, c, i, k) == Order::Less,
    decreases a.len() - i + b.len() - j + c.len() - k,
{
    if i < a.len() && j < b.len() && k < c.len() {
        let x = a[i as int];
        let y = b[j as int];
        let z = c[k as int];
        lemma_digit_end(a, i);
        lemma_digit_end(b, j);
        lemma_digit_end(c, k);
        if is_digit(x) && is_digit(y) && is_digit(z) {
            lemma_number_transitive(a, i, b, j, c, k);
            let ea = digit_end(a, i);
            let eb = digit_end(b, j);
            let ec = digit_end(c, k);
            if number_order(a, i, ea, b, j, eb) == Order::Equal && number_order(b, j, eb, c, k, ec)
                == Order::Equal {
                lemma_lowered_transitive_at(a, b, c, ea, eb, ec);
            }
        } else if x == y && y == z {
            lemma_lowered_transitive_at(a, b, c, i + 1, j + 1, k + 1);
        }
    }
}

// ---------------------------------------------------------------------------
// Lowercasing keeps digits apart
// ---------------------------------------------------------------------------

/// What Unicode's lowercase mapping does for every character: it yields at
/// least one character, an ASCII digit maps to itself, and no other
/// character maps to anything that contains an ASCII digit.
pub open spec fn lowercase_keeps_digits(c: char) -> bool {
    &&& lowercase_chars(c).len() >= 1
    &&& is_digit(c) ==> lowercase_chars(c) == seq![c]
    &&& !is_digit(c) ==> forall|k: int| 0 <= k < lowercase_chars(c).len() ==> !is_digit(#[trigger] lowercase_chars(c)[k])
}

/// Every character of `s` lowercases as [`lowercase_keeps_digits`] says.
pub open spec fn lowercase_keeps_digits_in(s: Seq<char>) -> bool {
    forall|m: int| 0 <= m < s.len() ==> lowercase_keeps_digits(#[trigger] s[m])
}

/// The order of the first position from `i` and `j` at which two names
/// differ; a name that ends first is smaller.
pub open spec fn first_difference_at(a: Seq<char>, b: Seq<char>, i: nat, j: nat) -> Order
    decreases a.len() - i,
{
    if i >= a.len() || j >= b.len() {
        int_order(a.len() - i, b.len() - j)
    } else if a[i as int] == b[j as int] {
        first_difference_at(a, b, i + 1, j + 1)
    } else {
        char_order(a[i as int], b[j as int])
    }
}

/// Where position `i` of `s` lands in the lowercased name.
pub open spec fn offset(s: Seq<char>, i: nat) -> nat {
    lowercase_all(s.take(i as int)).len()
}

proof fn lemma_lowercase_all_append(s: Seq<char>, t: Seq<char>)
    ensures
        lowercase_all(s + t) == lowercase_all(s) + lowercase_all(t),
    decreases t.len(),
{
    if t.len() == 0 {
        assert(s + t =~= s);
        assert(lowercase_all(s) + lowercase_all(t) =~= lowercase_all(s));
    } else {
        lemma_lowercase_all_append(s, t.drop_last());
        assert((s + t).drop_last() =~= s + t.drop_last());
        assert((s + t).last() == t.last());
        assert(lowercase_all(s + t) =~= lowercase_all(s) + lowercase_all(t));
    }
}

/// The lowercased name, split at position `i`.
proof fn lemma_offset(s: Seq<char>, i: nat)
    requires
        i < s.len(),
    ensures
        lowercase_all(s) == lowercase_all(s.take(i as int)) + lowercase_chars(s[i as int]) + lowercase_all(
            s.skip(i + 1 as int),
        ),
        offset(s, i + 1) == offset(s, i) + lowercase_chars(s[i as int]).len(),
        offset(s, i + 1) <= lowercase_all(s).len(),
        forall|k: int|
            0 <= k < lowercase_chars(s[i as int]).len() ==> lowercase_all(s)[offset(s, i) + k]
                == #[trigger] lowercase_chars(s[i as int])[k],
{
    let c = s[i as int];
    let pre = s.take(i as int);
    let rest = s.skip(i + 1 as int);
    assert(s =~= (pre + seq![c]) + rest);
    assert(s.take(i + 1 as int) =~= pre + seq![c]);
    assert(seq![c].drop_last() =~= Seq::<char>::empty());
    assert(seq![c].last() == c);
    assert(lowercase_all(Seq::<char>::empty()) =~= Seq::<char>::empty());
    assert(lowercase_all(seq![c]) =~= lowercase_chars(c));
    lemma_lowercase_all_append(pre + seq![c], rest);
    lemma_lowercase_all_append(pre, seq![c]);
}

proof fn lemma_offset_bound(s: Seq<char>, i: nat)
    requires
        i <= s.len(),
    ensures
        offset(s, i) <= lowercase_all(s).len(),
{
    assert(s =~= s.take(i as int) + s.skip(i as int));
    lemma_lowercase_all_append(s.take(i as int), s.skip(i as int));
}

proof fn lemma_offset_end(s: Seq<char>)
    ensures
        offset(s, s.len()) == lowercase_all(s).len(),
{
    assert(s.take(s.len() as int) =~= s);
}

/// A digit run sits unchanged in the lowercased name.
proof fn lemma_run_lowered(a: Seq<char>, i: nat)
    requires
        lowercase_keeps_digits_in(a),
        i <= a.len(),
    ensures
        offset(a, digit_end(a, i)) == offset(a, i) + (digit_end(a, i) - i),
        digit_end(lowercase_all(a), offset(a, i)) == offset(a, digit_end(a, i)),
        lowercase_all(a).subrange(offset(a, i) as int, offset(a, digit_end(a, i)) as int) == a.subrange(
            i as int,
            digit_end(a, i) as int,
        ),
    decreases a.len() - i,
{
    let la = lowercase_all(a);
    lemma_digit_end(a, i);
    if i < a.len() {
        lemma_offset(a, i);
        assert(lowercase_keeps_digits(a[i as int]));
        if is_digit(a[i as int]) {
            assert(lowercase_chars(a[i as int])[0] == a[i as int]);
            lemma_run_lowered(a, i + 1);
            let e = digit_end(a, i);
            lemma_offset_bound(a, e);
            assert(la[offset(a, i) as int] == a[i as int]);
            assert(la.subrange(offset(a, i) as int, offset(a, e) as int) =~= seq![a[i as int]] + la.subrange(
                offset(a, i + 1) as int,
                offset(a, e) as int,
            ));
            assert(a.subrange(i as int, e as int) =~= seq![a[i as int]] + a.subrange(i + 1 as int, e as int));
        } else {
            assert(!is_digit(lowercase_chars(a[i as int])[0]));
        }
    } else {
        lemma_offset_end(a);
    }
}

/// `s[i..e]` and `t[j..f]` hold the same characters.
pub open spec fn same_chars(s: Seq<char>, i: nat, e: nat, t: Seq<char>, j: nat, f: nat) -> bool {
    &&& i <= e <= s.len()
    &&& j <= f <= t.len()
    &&& e - i == f - j
    &&& forall|k: int| 0 <= k < e - i ==> #[trigger] s[i + k] == t[j + k]
}

proof fn lemma_same_chars(s: Seq<char>, i: nat, e: nat, t: Seq<char>, j: nat, f: nat)
    requires
        i <= e <= s.len(),
        j <= f <= t.len(),
        s.subrange(i as int, e as int) == t.subrange(j as int, f as int),
    ensures
        same_chars(s, i, e, t, j, f),
{
    let x = s.subrange(i as int, e as int);
    let y = t.subrange(j as int, f as int);
    assert(x.len() == y.len());
    assert forall|k: int| 0 <= k < e - i implies #[trigger] s[i + k] == t[j + k] by {
        assert(x[k] == s[i + k]);
        assert(y[k] == t[j + k]);
    }
}

/// Where a run of zeros ends depends only on the characters of the run.
proof fn lemma_zeros_shift(s: Seq<char>, i: nat, e: nat, t: Seq<char>, j: nat, f: nat)
    requires
        same_chars(s, i, e, t, j, f),
    ensures
        zeros_end(s, i, e) - i == zeros_end(t, j, f) - j,
    decreases e - i,
{
    if i < e {
        assert(s[i + 0int] == t[j + 0int]);
        if s[i as int] == '0' {
            assert forall|k: int| 0 <= k < e - (i + 1) implies #[trigger] s[(i + 1) + k] == t[(j + 1) + k] by {
                assert(s[i + (k + 1)] == t[j + (k + 1)]);
            }
            lemma_zeros_shift(s, i + 1, e, t, j + 1, f);
        }
    }
}

/// Comparing two digit runs depends only on their characters.
proof fn lemma_number_order_shift(
    a: Seq<char>,
    i: nat,
    ea: nat,
    b: Seq<char>,
    j: nat,
    eb: nat,
    a2: Seq<char>,
    i2: nat,
    ea2: nat,
    b2: Seq<char>,
    j2: nat,
    eb2: nat,
)
    requires
        same_chars(a, i, ea, a2, i2, ea2),
        same_chars(b, j, eb, b2, j2, eb2),
    ensures
        number_order(a, i, ea, b, j, eb) == number_order(a2, i2, ea2, b2, j2, eb2),
{
    lemma_zeros_shift(a, i, ea, a2, i2, ea2);
    lemma_zeros_shift(b, j, eb, b2, j2, eb2);
    lemma_zeros_end(a, i, ea);
    lemma_zeros_end(a2, i2, ea2);
    lemma_zeros_end(b, j, eb);
    lemma_zeros_end(b2, j2, eb2);
    let za = zeros_end(a, i, ea);
    let za2 = zeros_end(a2, i2, ea2);
    let zb = zeros_end(b, j, eb);
    let zb2 = zeros_end(b2, j2, eb2);
    let x = a.subrange(za as int, ea as int);
    let x2 = a2.subrange(za2 as int, ea2 as int);
    let y = b.subrange(zb as int, eb as int);
    let y2 = b2.subrange(zb2 as int, eb2 as int);
    assert(x.len() == x2.len());
    assert(y.len() == y2.len());
    assert forall|m: int| 0 <= m < x.len() implies #[trigger] x[m] == x2[m] by {
        assert(a[i + (za - i + m)] == a2[i2 + (za - i + m)]);
    }
    assert forall|m: int| 0 <= m < y.len() implies #[trigger] y[m] == y2[m] by {
        assert(b[j + (zb - j + m)] == b2[j2 + (zb - j + m)]);
    }
    assert(x =~= x2);
    assert(y =~= y2);
}

/// Identical characters without digits are passed over by the order of
/// lowercased names.
proof fn lemma_lowered_skip(p: Seq<char>, q: Seq<char>, k: nat, m: nat)
    requires
        k + m <= p.len(),
        k + m <= q.len(),
        forall|n: int| k <= n < k + m ==> p[n] == q[n] && !is_digit(#[trigger] p[n]),
    ensures
        lowered_order_at(p, q, k, k) == lowered_order_at(p, q, k + m, k + m),
    decreases m,
{
    if m > 0 {
        assert(p[k as int] == q[k as int] && !is_digit(p[k as int]));
        lemma_lowered_skip(p, q, k + 1, (m - 1) as nat);
    }
}

/// A run of identical characters is passed over by `first_difference_at`.
proof fn lemma_first_difference_skips(a: Seq<char>, b: Seq<char>, i: nat, j: nat, n: nat)
    requires
        i + n <= a.len(),
        j + n <= b.len(),
        a.subrange(i as int, (i + n) as int) == b.subrange(j as int, (j + n) as int),
    ensures
        first_difference_at(a, b, i, j) == first_difference_at(a, b, i + n, j + n),
    decreases n,
{
    if n > 0 {
        assert(a.subrange(i as int, (i + n) as int)[0] == a[i as int]);
        assert(b.subrange(j as int, (j + n) as int)[0] == b[j as int]);
        assert(a.subrange(i + 1 as int, (i + n) as int) =~= a.subrange(i as int, (i + n) as int).drop_first());
        assert(b.subrange(j + 1 as int, (j + n) as int) =~= b.subrange(j as int, (j + n) as int).drop_first());
        lemma_first_difference_skips(a, b, i + 1, j + 1, (n - 1) as nat);
    }
}

/// Natural order compares the lowercased names first, and only when those
/// are identical does the first position at which the names differ decide.
proof fn lemma_natural_is_lowered_then_case(a: Seq<char>, b: Seq<char>, i: nat)
    requires
        lowercase_keeps_digits_in(a),
        lowercase_keeps_digits_in(b),
        i <= a.len(),
        i <= b.len(),
        a.take(i as int) == b.take(i as int),
        lowered_order_at(lowercase_all(a), lowercase_all(b), 0, 0) == lowered_order_at(
            lowercase_all(a),
            lowercase_all(b),
            offset(a, i),
            offset(b, i),
        ),
    ensures
        natural_order_at(a, b, i, i) == match lowered_order_at(
            lowercase_all(a),
            lowercase_all(b),
            offset(a, i),
            offset(b, i),
        ) {
            Order::Equal => first_difference_at(a, b, i, i),
            other => other,
        },
    decreases a.len() - i,
{
    let la = lowercase_all(a);
    let lb = lowercase_all(b);
    let oa = offset(a, i);
    let ob = offset(b, i);
    assert(oa == ob);
    if i < a.len() && i < b.len() {
        let x = a[i as int];
        let y = b[i as int];
        assert(lowercase_keeps_digits(x));
        assert(lowercase_keeps_digits(y));
        lemma_offset(a, i);
        lemma_offset(b, i);
        lemma_digit_end(a, i);
        lemma_digit_end(b, i);
        if is_digit(x) && is_digit(y) {
            let ea = digit_end(a, i);
            let eb = digit_end(b, i);
            lemma_run_lowered(a, i);
            lemma_run_lowered(b, i);
            lemma_offset_bound(a, ea);
            lemma_offset_bound(b, eb);
            assert(lowercase_chars(x)[0] == x);
            assert(lowercase_chars(y)[0] == y);
            assert(la[oa as int] == x);
            assert(lb[ob as int] == y);
            lemma_same_chars(la, oa, offset(a, ea), a, i, ea);
            lemma_same_chars(lb, ob, offset(b, eb), b, i, eb);
            lemma_number_order_shift(la, oa, offset(a, ea), lb, ob, offset(b, eb), a, i, ea, b, i, eb);
            if number_order(a, i, ea, b, i, eb) == Order::Equal {
                lemma_run_equal(a, i, b, i);
                assert(ea == eb);
                assert(a.take(ea as int) =~= a.take(i as int) + a.subrange(i as int, ea as int));
                assert(b.take(eb as int) =~= b.take(i as int) + b.subrange(i as int, eb as int));
                lemma_first_difference_skips(a, b, i, i, (ea - i) as nat);
                lemma_natural_is_lowered_then_case(a, b, ea);
            }
        } else {
            assert(la[oa as int] == lowercase_chars(x)[0]);
            assert(lb[ob as int] == lowercase_chars(y)[0]);
            if x == y {
                assert(!is_digit(x));
                assert forall|n: int| oa <= n < oa + lowercase_chars(x).len() implies la[n] == lb[n] && !is_digit(
                    #[trigger] la[n],
                ) by {
                    assert(la[oa + (n - oa)] == lowercase_chars(x)[n - oa]);
                    assert(lb[ob + (n - ob)] == lowercase_chars(y)[n - ob]);
                }
                lemma_lowered_skip(la, lb, oa, lowercase_chars(x).len());
                assert(a.take(i + 1 as int) =~= a.take(i as int).push(x));
                assert(b.take(i + 1 as int) =~= b.take(i as int).push(y));
                lemma_natural_is_lowered_then_case(a, b, i + 1);
            } else if lower_of(x) == lower_of(y) {
                assert(!is_digit(lowercase_chars(x)[0]) || !is_digit(lowercase_chars(y)[0]));
            } else {
                assert(!is_digit(lowercase_chars(x)[0]) || !is_digit(lowercase_chars(y)[0]));
            }
        }
    } else {
        if i < a.len() {
            lemma_offset(a, i);
        } else {
            lemma_offset_end(a);
        }
        if i < b.len() {
            lemma_offset(b, i);
        } else {
            lemma_offset_end(b);
        }
    }
}

proof fn lemma_lowered_equal_is_identical(a: Seq<char>, b: Seq<char>, i: nat, j: nat)
    requires
        i <= a.len(),
        j <= b.len(),
        lowered_order_at(a, b, i, j) == Order::Equal,
    ensures
        a.skip(i as int) == b.skip(j as int),
    decreases a.len() - i + b.len() - j,
{
    if i < a.len() && j < b.len() {
        if is_digit(a[i as int]) && is_digit(b[j as int]) {
            let ea = digit_end(a, i);
            let eb = digit_end(b, j);
            lemma_digit_end(a, i);
            lemma_digit_end(b, j);
            lemma_run_equal(a, i, b, j);
            lemma_lowered_equal_is_identical(a, b, ea, eb);
            assert(a.skip(i as int) =~= a.subrange(i as int, ea as int) + a.skip(ea as int));
            assert(b.skip(j as int) =~= b.subrange(j as int, eb as int) + b.skip(eb as int));
        } else {
            lemma_lowered_equal_is_identical(a, b, i + 1, j + 1);
            assert(a.skip(i as int) =~= seq![a[i as int]] + a.skip(i + 1 as int));
            assert(b.skip(j as int) =~= seq![b[j as int]] + b.skip(j + 1 as int));
        }
    } else {
        assert(a.skip(i as int) =~= b.skip(j as int));
    }
}

proof fn lemma_first_difference_transitive(a: Seq<char>, b: Seq<char>, c: Seq<char>, i: nat)
    requires
        i <= a.len(),
        i <= b.len(),
        i <= c.len(),
        at_most(first_difference_at(a, b, i, i)),
        at_most(first_difference_at(b, c, i, i)),
    ensures
        at_most(first_difference_at(a, c, i, i)),
        first_difference_at(a, b, i, i) == Order::Less || first_difference_at(b, c, i, i) == Order::Less
            ==> first_difference_at(a, c, i, i) == Order::Less,
    decreases a.len() - i,
{
    if i < a.len() && i < b.len() && i < c.len() {
        if a[i as int] == b[i as int] && b[i as int] == c[i as int] {
            lemma_first_difference_transitive(a, b, c, i + 1);
        }
    }
}

/// Natural order is the order of the lowercased names (digit runs by value,
/// then fewer leading zeros first), with the raw characters, compared one by
/// one and a shorter name first, deciding only a complete tie between the
/// lowercased names. Stated for names whose characters lowercase as
/// Unicode's mapping does ([`lowercase_keeps_digits`]).
pub proof fn natural_order_is_lowercased_then_raw(a: Seq<char>, b: Seq<char>)
    requires
        lowercase_keeps_digits_in(a),
        lowercase_keeps_digits_in(b),
    ensures
        natural_order(a, b) == match lowered_order_at(lowercase_all(a), lowercase_all(b), 0, 0) {
            Order::Equal => first_difference_at(a, b, 0, 0),
            other => other,
        },
{
    assert(a.take(0) =~= Seq::<char>::empty());
    assert(b.take(0) =~= Seq::<char>::empty());
    lemma_natural_is_lowered_then_case(a, b, 0);
}

/// Natural order is transitive: if `a` comes no later than `b` and `b` no
/// later than `c`, then `a` comes no later than `c`, and strictly earlier if
/// either step was strict. Stated for names whose characters lowercase as
/// Unicode's mapping does ([`lowercase_keeps_digits`]), which is every name.
pub proof fn natural_order_is_transitive(a: Seq<char>, b: Seq<char>, c: Seq<char>)
    requires
        lowercase_keeps_digits_in(a),
        lowercase_keeps_digits_in(b),
        lowercase_keeps_digits_in(c),
        natural_order(a, b) != Order::Greater,
        natural_order(b, c) != Order::Greater,
    ensures
        natural_order(a, c) != Order::Greater,
        natural_order(a, b) == Order::Less || natural_order(b, c) == Order::Less ==> natural_order(a, c)
            == Order::Less,
{
    let la = lowercase_all(a);
    let lb = lowercase_all(b);
    let lc = lowercase_all(c);
    assert(a.take(0) =~= b.take(0));
    assert(b.take(0) =~= c.take(0));
    assert(a.take(0) =~= c.take(0));
    assert(a.take(0) =~= Seq::<char>::empty());
    assert(b.take(0) =~= Seq::<char>::empty());
    assert(c.take(0) =~= Seq::<char>::empty());
    lemma_natural_is_lowered_then_case(a, b, 0);
    lemma_natural_is_lowered_then_case(b, c, 0);
    lemma_natural_is_lowered_then_case(a, c, 0);
    let pab = lowered_order_at(la, lb, 0, 0);
    let pbc = lowered_order_at(lb, lc, 0, 0);
    assert(at_most(pab));
    assert(at_most(pbc));
    lemma_lowered_transitive_at(la, lb, lc, 0, 0, 0);
    if pab == Order::Equal && pbc == Order::Equal {
        lemma_lowered_equal_is_identical(la, lb, 0, 0);
        lemma_lowered_equal_is_identical(lb, lc, 0, 0);
        assert(la =~= la.skip(0));
        assert(lb =~= lb.skip(0));
        assert(lc =~= lc.skip(0));
        lemma_first_difference_transitive(a, b, c, 0);
    }
}

// ---------------------------------------------------------------------------
// Digit runs compare by value
// ---------------------------------------------------------------------------

proof fn lemma_digit_char_value(d: nat)
    requires
        d < 10,
    ensures
        digit_char(d) as int == '0' as int + d,
        is_digit(digit_char(d)),
{
}

proof fn lemma_decimal_shape(n: nat)
    ensures
        decimal(n).len() >= 1,
        n < 10 <==> decimal(n).len() == 1,
        forall|i: int| 0 <= i < decimal(n).len() ==> is_digit(#[trigger] decimal(n)[i]),
        n > 0 ==> decimal(n)[0] != '0',
    decreases n,
{
    if n < 10 {
        lemma_digit_char_value(n);
    } else {
        lemma_decimal_shape(n / 10);
        lemma_digit_char_value(n % 10);
        assert forall|i: int| 0 <= i < decimal(n).len() implies is_digit(#[trigger] decimal(n)[i]) by {
            if i < decimal(n).len() - 1 {
                assert(decimal(n)[i] == decimal(n / 10)[i]);
            }
        }
        assert(decimal(n)[0] == decimal(n / 10)[0]);
    }
}

proof fn lemma_decimal_len_monotonic(m: nat, n: nat)
    requires
        m <= n,
    ensures
        decimal(m).len() <= decimal(n).len(),
    decreases n,
{
    lemma_decimal_shape(m);
    lemma_decimal_shape(n);
    if m >= 10 {
        assert(m / 10 <= n / 10) by (nonlinear_arith)
            requires
                m <= n,
        ;
        lemma_decimal_len_monotonic(m / 10, n / 10);
    }
}

proof fn lemma_lex_push(x: Seq<char>, y: Seq<char>, c: char, d: char)
    requires
        x.len() == y.len(),
    ensures
        lex_order(x.push(c), y.push(d)) == match lex_order(x, y) {
            Order::Equal => char_order(c, d),
            other => other,
        },
    decreases x.len(),
{
    if x.len() == 0 {
        assert(x.push(c).drop_first() =~= Seq::<char>::empty());
        assert(y.push(d).drop_first() =~= Seq::<char>::empty());
        assert(lex_order(Seq::<char>::empty(), Seq::<char>::empty()) == Order::Equal);
        assert(x =~= Seq::<char>::empty());
        assert(y =~= Seq::<char>::empty());
        assert(x.push(c)[0] == c && y.push(d)[0] == d);
    } else {
        assert(x.push(c)[0] == x[0] && y.push(d)[0] == y[0]);
        assert(x.push(c).drop_first() =~= x.drop_first().push(c));
        assert(y.push(d).drop_first() =~= y.drop_first().push(d));
        lemma_lex_push(x.drop_first(), y.drop_first(), c, d);
    }
}

/// Digit runs compare as the numbers they spell: two numbers written in
/// decimal compare, as digit runs, exactly as the numbers do.
pub proof fn digit_runs_compare_by_value(m: nat, n: nat)
    ensures
        digits_order(decimal(m), decimal(n)) == int_order(m as int, n as int),
    decreases n,
{
    lemma_decimal_shape(m);
    lemma_decimal_shape(n);
    if decimal(m).len() < decimal(n).len() {
        if n <= m {
            lemma_decimal_len_monotonic(n, m);
        }
    } else if decimal(n).len() < decimal(m).len() {
        if m <= n {
            lemma_decimal_len_monotonic(m, n);
        }
    } else if n < 10 {
        lemma_digit_char_value(m);
        lemma_digit_char_value(n);
        lemma_lex_push(Seq::<char>::empty(), Seq::<char>::empty(), digit_char(m), digit_char(n));
        assert(Seq::<char>::empty().push(digit_char(m)) =~= decimal(m));
        assert(Seq::<char>::empty().push(digit_char(n)) =~= decimal(n));
    } else {
        lemma_decimal_shape(m / 10);
        lemma_decimal_shape(n / 10);
        digit_runs_compare_by_value(m / 10, n / 10);
        lemma_digit_char_value(m % 10);
        lemma_digit_char_value(n % 10);
        lemma_lex_push(decimal(m / 10), decimal(n / 10), digit_char(m % 10), digit_char(n % 10));
        assert(m == (m / 10) * 10 + m % 10 && n == (n / 10) * 10 + n % 10) by (nonlinear_arith);
        if m / 10 < n / 10 {
            assert(m < n) by (nonlinear_arith)
                requires
                    m / 10 < n / 10,
                    m == (m / 10) * 10 + m % 10,
                    n == (n / 10) * 10 + n % 10,
                    m % 10 < 10,
            ;
        } else if n / 10 < m / 10 {
            assert(n < m) by (nonlinear_arith)
                requires
                    n / 10 < m / 10,
                    m == (m / 10) * 10 + m % 10,
                    n == (n / 10) * 10 + n % 10,
                    n % 10 < 10,
            ;
        }
    }
}

proof fn lemma_lex_self(x: Seq<char>)
    ensures
        lex_order(x, x) == Order::Equal,
    decreases x.len(),
{
    if x.len() > 0 {
        lemma_lex_self(x.drop_first());
    }
}

/// A digit run spanning `i..e` and followed by no digit ends at `e`.
proof fn lemma_digit_end_at(a: Seq<char>, i: nat, e: nat)
    requires
        i <= e <= a.len(),
        forall|k: int| i <= k < e ==> is_digit(#[trigger] a[k]),
        e == a.len() || !is_digit(a[e as int]),
    ensures
        digit_end(a, i) == e,
    decreases e - i,
{
    if i < e {
        lemma_digit_end_at(a, i + 1, e);
    }
}

/// Two names that agree up to `q`, where the shared part ends in no digit,
/// compare as they do from `q` on.
proof fn lemma_skip_shared(a: Seq<char>, b: Seq<char>, i: nat, q: nat)
    requires
        i <= q <= a.len(),
        q <= b.len(),
        forall|k: int| 0 <= k < q ==> #[trigger] a[k] == b[k],
        q == 0 || !is_digit(a[q - 1]),
    ensures
        natural_order_at(a, b, i, i) == natural_order_at(a, b, q, q),
    decreases q - i,
{
    if i < q {
        let x = a[i as int];
        assert(b[i as int] == x);
        lemma_digit_end(a, i);
        lemma_digit_end(b, i);
        if is_digit(x) {
            let e = digit_end(a, i);
            // The run stops before the shared part's last character.
            assert(e < q) by {
                if e >= q {
                    assert(is_digit(a[q - 1]));
                }
            }
            assert forall|k: int| i <= k < e implies is_digit(#[trigger] b[k]) by {
                assert(is_digit(a[k]));
            }
            assert(!is_digit(b[e as int]));
            lemma_digit_end_at(b, i, e);
            assert(a.subrange(i as int, e as int) =~= b.subrange(i as int, e as int));
            lemma_same_chars(a, i, e, a, i, e);
            lemma_same_chars(b, i, e, a, i, e);
            lemma_number_order_shift(a, i, e, b, i, e, a, i, e, a, i, e);
            lemma_zeros_end(a, i, e);
            lemma_lex_self(a.subrange(zeros_end(a, i, e) as int, e as int));
            assert(number_order(a, i, e, a, i, e) == Order::Equal);
            lemma_skip_shared(a, b, e, q);
        } else {
            lemma_skip_shared(a, b, i + 1, q);
        }
    }
}

/// A larger number sorts later: two names that differ only in a number, in
/// the same place and not run together with other digits, compare as the
/// numbers do, whatever follows them.
pub proof fn larger_numbers_sort_later(p: Seq<char>, m: nat, s: Seq<char>, n: nat, t: Seq<char>)
    requires
        m < n,
        p.len() == 0 || !is_digit(p.last()),
        s.len() == 0 || !is_digit(s[0]),
        t.len() == 0 || !is_digit(t[0]),
    ensures
        natural_order(p + decimal(m) + s, p + decimal(n) + t) == Order::Less,
{
    let a = p + decimal(m) + s;
    let b = p + decimal(n) + t;
    let q = p.len();
    let dm = decimal(m);
    let dn = decimal(n);
    lemma_decimal_shape(m);
    lemma_decimal_shape(n);
    assert forall|k: int| 0 <= k < q implies #[trigger] a[k] == b[k] by {
        assert(a[k] == p[k] && b[k] == p[k]);
    }
    if q > 0 {
        assert(a[q - 1] == p.last());
    }
    lemma_skip_shared(a, b, 0, q);
    let ea = q + dm.len();
    let eb = q + dn.len();
    assert forall|k: int| q <= k < ea implies is_digit(#[trigger] a[k]) by {
        assert(a[k] == dm[k - q]);
    }
    assert forall|k: int| q <= k < eb implies is_digit(#[trigger] b[k]) by {
        assert(b[k] == dn[k - q]);
    }
    if ea < a.len() {
        assert(a[ea as int] == s[0]);
    }
    if eb < b.len() {
        assert(b[eb as int] == t[0]);
    }
    lemma_digit_end_at(a, q, ea as nat);
    lemma_digit_end_at(b, q, eb as nat);
    assert(a[q as int] == dm[0] && b[q as int] == dn[0]);
    assert(b.subrange(q as int, eb as int) =~= dn);
    assert(zeros_end(b, q, eb as nat) == q);
    if m == 0 {
        assert(dm[0] == '0');
        assert(zeros_end(a, q + 1, ea as nat) == q + 1);
        assert(zeros_end(a, q, ea as nat) == q + 1);
        assert(a.subrange(ea as int, ea as int) =~= Seq::<char>::empty());
    } else {
        assert(zeros_end(a, q, ea as nat) == q);
        assert(a.subrange(q as int, ea as int) =~= dm);
        digit_runs_compare_by_value(m, n);
    }
}

/// `z` zeros.
pub open spec fn zeros(z: nat) -> Seq<char> {
    Seq::new(z, |i: int| '0')
}

/// A run of zeros spanning `i..f` and followed, before `e`, by something
/// else ends at `f`.
proof fn lemma_zeros_end_at(a: Seq<char>, i: nat, f: nat, e: nat)
    requires
        i <= f <= e <= a.len(),
        forall|k: int| i <= k < f ==> #[trigger] a[k] == '0',
        f == e || a[f as int] != '0',
    ensures
        zeros_end(a, i, e) == f,
    decreases f - i,
{
    if i < f {
        lemma_zeros_end_at(a, i + 1, f, e);
    }
}

/// A digit run `r` placed after `p` and before `s`, neither of which runs
/// into it, is one whole run of the name.
proof fn lemma_run_in(p: Seq<char>, r: Seq<char>, s: Seq<char>)
    requires
        r.len() > 0,
        forall|k: int| 0 <= k < r.len() ==> is_digit(#[trigger] r[k]),
        s.len() == 0 || !is_digit(s[0]),
    ensures
        digit_end(p + r + s, p.len()) == p.len() + r.len(),
        (p + r + s).subrange(p.len() as int, (p.len() + r.len()) as int) == r,
        forall|k: int| 0 <= k < p.len() ==> #[trigger] (p + r + s)[k] == p[k],
        is_digit((p + r + s)[p.len() as int]),
{
    let a = p + r + s;
    let q = p.len();
    let e = q + r.len();
    assert forall|k: int| q <= k < e implies is_digit(#[trigger] a[k]) by {
        assert(a[k] == r[k - q]);
    }
    if e < a.len() {
        assert(a[e as int] == s[0]);
    }
    lemma_digit_end_at(a, q, e as nat);
    assert(a.subrange(q as int, e as int) =~= r);
    assert(a[q as int] == r[0]);
}

/// Two runs of the same number behind different numbers of zeros: the one
/// with fewer zeros comes first.
proof fn lemma_zero_padded_runs(y: nat, z: nat, n: nat)
    requires
        y < z,
        n > 0,
    ensures
        number_order(
            zeros(y) + decimal(n),
            0,
            y + decimal(n).len(),
            zeros(z) + decimal(n),
            0,
            z + decimal(n).len(),
        ) == Order::Less,
{
    let dn = decimal(n);
    let ra = zeros(y) + dn;
    let rb = zeros(z) + dn;
    lemma_decimal_shape(n);
    assert forall|k: int| 0 <= k < y implies #[trigger] ra[k] == '0' by {}
    assert forall|k: int| 0 <= k < z implies #[trigger] rb[k] == '0' by {}
    assert(ra[y as int] == dn[0]);
    assert(rb[z as int] == dn[0]);
    lemma_zeros_end_at(ra, 0, y, (y + dn.len()) as nat);
    lemma_zeros_end_at(rb, 0, z, (z + dn.len()) as nat);
    assert(ra.subrange(y as int, (y + dn.len()) as int) =~= dn);
    assert(rb.subrange(z as int, (z + dn.len()) as int) =~= dn);
    lemma_lex_self(dn);
}

/// Equal numbers sort by their leading zeros, fewer first: `img7` before
/// `img07` before `img007`, whatever follows them.
pub proof fn fewer_leading_zeros_sort_first(p: Seq<char>, y: nat, z: nat, n: nat, s: Seq<char>, t: Seq<char>)
    requires
        y < z,
        n > 0,
        p.len() == 0 || !is_digit(p.last()),
        s.len() == 0 || !is_digit(s[0]),
        t.len() == 0 || !is_digit(t[0]),
    ensures
        natural_order(p + zeros(y) + decimal(n) + s, p + zeros(z) + decimal(n) + t) == Order::Less,
{
    let dn = decimal(n);
    let ra = zeros(y) + dn;
    let rb = zeros(z) + dn;
    let a = p + ra + s;
    let b = p + rb + t;
    assert(a =~= p + zeros(y) + decimal(n) + s);
    assert(b =~= p + zeros(z) + decimal(n) + t);
    let q = p.len();
    lemma_decimal_shape(n);
    assert forall|k: int| 0 <= k < ra.len() implies is_digit(#[trigger] ra[k]) by {
        if k >= y {
            assert(ra[k] == dn[k - y]);
        }
    }
    assert forall|k: int| 0 <= k < rb.len() implies is_digit(#[trigger] rb[k]) by {
        if k >= z {
            assert(rb[k] == dn[k - z]);
        }
    }
    lemma_run_in(p, ra, s);
    lemma_run_in(p, rb, t);
    assert forall|k: int| 0 <= k < q implies #[trigger] a[k] == b[k] by {
        assert(a[k] == p[k] && b[k] == p[k]);
    }
    if q > 0 {
        assert(a[q - 1] == p.last());
    }
    lemma_skip_shared(a, b, 0, q);
    let ea = (q + ra.len()) as nat;
    let eb = (q + rb.len()) as nat;
    assert(ra.subrange(0, ra.len() as int) =~= ra);
    assert(rb.subrange(0, rb.len() as int) =~= rb);
    lemma_same_chars(a, q, ea, ra, 0, ra.len());
    lemma_same_chars(b, q, eb, rb, 0, rb.len());
    lemma_number_order_shift(a, q, ea, b, q, eb, ra, 0, ra.len(), rb, 0, rb.len());
    lemma_zero_padded_runs(y, z, n);
}

} // verus!
