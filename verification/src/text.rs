//! Small text helpers shared by the modules: a three-way order, the
//! characters of a string, and decimal rendering of integers.
use vstd::prelude::*;

verus! {

/// Appending a character, as `String::push` documents it.
pub assume_specification[ String::push ](s: &mut String, ch: char)
    ensures
        final(s)@ == old(s)@.push(ch),
;

/// Appending a string slice, as `String::push_str` documents it.
pub assume_specification[ String::push_str ](s: &mut String, string: &str)
    ensures
        final(s)@ == old(s)@ + string@,
;

/// A three-way comparison result.
#[derive(Clone, Copy, Debug, PartialEq, Eq, Structural)]
pub enum Order {
    Less,
    Equal,
    Greater,
}

/// The opposite result, as from swapping the two sides.
pub open spec fn reversed(o: Order) -> Order {
    match o {
        Order::Less => Order::Greater,
        Order::Equal => Order::Equal,
        Order::Greater => Order::Less,
    }
}

pub open spec fn int_order(x: int, y: int) -> Order {
    if x < y {
        Order::Less
    } else if y < x {
        Order::Greater
    } else {
        Order::Equal
    }
}

pub open spec fn char_order(x: char, y: char) -> Order {
    if x < y {
        Order::Less
    } else if y < x {
        Order::Greater
    } else {
        Order::Equal
    }
}

/// Whether `part` appears as a contiguous piece of `whole`.
pub open spec fn occurs_in(part: Seq<char>, whole: Seq<char>) -> bool {
    exists|k: int| 0 <= k && k + part.len() <= whole.len() && #[trigger] whole.subrange(k, k + part.len()) == part
}

/// The characters of an optional string.
pub open spec fn option_chars(s: Option<String>) -> Option<Seq<char>> {
    match s {
        Some(t) => Some(t@),
        None => None,
    }
}

/// Whether `c` is an ASCII letter.
pub open spec fn is_ascii_letter(c: char) -> bool {
    ('a' <= c && c <= 'z') || ('A' <= c && c <= 'Z')
}

/// A path that is one plain name: not empty, neither `.` nor `..`, free of
/// `/` and `\`, and not starting like a drive (a letter and `:`), so that
/// every platform reads it as a single normal component with no directory
/// and no drive.
pub open spec fn is_plain_name(s: Seq<char>) -> bool {
    &&& s.len() > 0
    &&& s != seq!['.']
    &&& s != seq!['.', '.']
    &&& forall|i: int| 0 <= i < s.len() ==> s[i] != '/' && s[i] != '\\'
    &&& !(s.len() >= 2 && s[1] == ':' && is_ascii_letter(s[0]))
}

/// The index of the last `/` among the first `n` characters of `s`, or -1.
pub open spec fn last_slash_before(s: Seq<char>, n: int) -> int
    decreases n,
{
    if n <= 0 {
        -1
    } else if s[n - 1] == '/' {
        n - 1
    } else {
        last_slash_before(s, n - 1)
    }
}

/// What follows the last `/` of `p` (all of `p` when it has none).
pub open spec fn last_name(p: Seq<char>) -> Seq<char> {
    p.subrange(last_slash_before(p, p.len() as int) + 1, p.len() as int)
}

/// A path made of plain names joined by `/`, optionally after a leading `/`:
/// `n`, `/n`, `a/n`, `/a/b/n` and so on. `/` separates components on every
/// platform, and no name holds another separator or a drive, so the last
/// name is the path's file name everywhere.
pub open spec fn plain_path(p: Seq<char>) -> bool
    decreases p.len(),
{
    let k = last_slash_before(p, p.len() as int);
    &&& is_plain_name(p.subrange(k + 1, p.len() as int))
    &&& (k <= 0 || (k < p.len() && plain_path(p.subrange(0, k))))
}

/// Whether `c` separates path components on some platform: `/` everywhere,
/// `\\` on Windows.
pub open spec fn is_separator(c: char) -> bool {
    c == '/' || c == '\\'
}

/// The index of the last separator among the first `n` characters of `s`, or -1.
pub open spec fn last_separator_before(s: Seq<char>, n: int) -> int
    decreases n,
{
    if n <= 0 {
        -1
    } else if is_separator(s[n - 1]) {
        n - 1
    } else {
        last_separator_before(s, n - 1)
    }
}

/// What follows the last separator of `p`, either kind.
pub open spec fn last_segment(p: Seq<char>) -> Seq<char> {
    p.subrange(last_separator_before(p, p.len() as int) + 1, p.len() as int)
}

/// A component name no platform reads specially: not empty, neither `.` nor
/// `..`, and free of `/`, `\\` and `:`.
pub open spec fn is_segment_name(s: Seq<char>) -> bool {
    &&& s.len() > 0
    &&& s != seq!['.']
    &&& s != seq!['.', '.']
    &&& forall|i: int| 0 <= i < s.len() ==> !is_separator(s[i]) && s[i] != ':'
}

/// A path of segment names joined by `/` or `\\`, optionally after a leading
/// separator or a drive and a separator: `C:\\Users\\me\\a.png`, `a\\b.png`,
/// `/x/y.png`. On Windows its file name is the last segment; elsewhere the
/// file name ends with it.
pub open spec fn segment_path(p: Seq<char>) -> bool
    decreases p.len(),
{
    let k = last_separator_before(p, p.len() as int);
    &&& is_segment_name(p.subrange(k + 1, p.len() as int))
    &&& (k <= 0 || (k == 2 && is_ascii_letter(p[0]) && p[1] == ':') || (k < p.len() && segment_path(
        p.subrange(0, k),
    )))
}

/// The index of the last `.` among the first `n` characters of `s`, or -1.
pub open spec fn last_dot_before(s: Seq<char>, n: int) -> int
    decreases n,
{
    if n <= 0 {
        -1
    } else if s[n - 1] == '.' {
        n - 1
    } else {
        last_dot_before(s, n - 1)
    }
}

/// The extension of a file name as `Path::extension` documents it: what
/// follows the last `.`, unless there is no `.` or the only one starts the
/// name.
pub open spec fn name_extension(name: Seq<char>) -> Option<Seq<char>> {
    let d = last_dot_before(name, name.len() as int);
    if d > 0 {
        Some(name.subrange(d + 1, name.len() as int))
    } else {
        None
    }
}

/// The characters of `s`, in order.
pub fn chars_of(s: &str) -> (v: Vec<char>)
    ensures
        v@ == s@,
{
    let mut v: Vec<char> = Vec::new();
    for c in it: s.chars()
        invariant
            v@ == it.seq().take(it.index() as int),
            it.seq() == s@,
    {
        v.push(c);
    }
    v
}

/// The decimal digit character for `d < 10`.
pub open spec fn digit_char(d: nat) -> char {
    if d == 0 {
        '0'
    } else if d == 1 {
        '1'
    } else if d == 2 {
        '2'
    } else if d == 3 {
        '3'
    } else if d == 4 {
        '4'
    } else if d == 5 {
        '5'
    } else if d == 6 {
        '6'
    } else if d == 7 {
        '7'
    } else if d == 8 {
        '8'
    } else {
        '9'
    }
}

/// The decimal rendering of `n`, without leading zeros.
pub open spec fn decimal(n: nat) -> Seq<char>
    decreases n,
{
    if n < 10 {
        seq![digit_char(n)]
    } else {
        decimal(n / 10).push(digit_char(n % 10))
    }
}

/// The decimal rendering of `n`, with a leading `-` when it is negative.
pub open spec fn signed_decimal(n: int) -> Seq<char> {
    if n < 0 {
        seq!['-'] + decimal((-n) as nat)
    } else {
        decimal(n as nat)
    }
}

/// The value of a decimal digit character.
pub open spec fn digit_value(c: char) -> int {
    (c as int) - ('0' as int)
}

/// The value a reader gives a run of decimal digits.
pub open spec fn decimal_value(s: Seq<char>) -> int
    decreases s.len(),
{
    if s.len() == 0 {
        0
    } else {
        decimal_value(s.drop_last()) * 10 + digit_value(s.last())
    }
}

/// The value a reader gives an integer written with an optional `-`.
pub open spec fn signed_value(s: Seq<char>) -> int {
    if s.len() > 0 && s[0] == '-' {
        -decimal_value(s.drop_first())
    } else {
        decimal_value(s)
    }
}

/// Every integer written in decimal reads back as itself.
pub proof fn decimal_reads_back(n: nat)
    ensures
        decimal_value(decimal(n)) == n,
        decimal(n).len() > 0,
        decimal(n)[0] != '-',
    decreases n,
{
    if n < 10 {
        assert(decimal(n).drop_last() =~= Seq::<char>::empty());
        assert(decimal_value(Seq::<char>::empty()) == 0);
        assert(decimal(n).last() == digit_char(n));
        assert(digit_value(digit_char(n)) == n);
    } else {
        decimal_reads_back(n / 10);
        assert(decimal(n).drop_last() =~= decimal(n / 10));
        assert(decimal(n).last() == digit_char(n % 10));
        assert(digit_value(digit_char(n % 10)) == n % 10);
        assert((n / 10) * 10 + n % 10 == n) by (nonlinear_arith);
    }
}

/// Every integer written with its sign reads back as itself.
pub proof fn signed_decimal_reads_back(n: int)
    ensures
        signed_value(signed_decimal(n)) == n,
{
    if n < 0 {
        decimal_reads_back((-n) as nat);
        assert((seq!['-'] + decimal((-n) as nat)).drop_first() =~= decimal((-n) as nat));
    } else {
        decimal_reads_back(n as nat);
    }
}

fn digit(d: u64) -> (c: char)
    requires
        d < 10,
    ensures
        c == digit_char(d as nat),
{
    match d {
        0 => '0',
        1 => '1',
        2 => '2',
        3 => '3',
        4 => '4',
        5 => '5',
        6 => '6',
        7 => '7',
        8 => '8',
        _ => '9',
    }
}

/// Appends the decimal rendering of `n`.
pub fn push_decimal(out: &mut String, n: u64)
    ensures
        final(out)@ == old(out)@ + decimal(n as nat),
    decreases n,
{
    if n >= 10 {
        push_decimal(out, n / 10);
    }
    out.push(digit(n % 10));
    proof {
        if n >= 10 {
            assert(decimal(n as nat) == decimal((n / 10) as nat).push(digit_char((n % 10) as nat)));
        }
    }
}

/// Appends the decimal rendering of `n`, signed.
pub fn push_signed(out: &mut String, n: i64)
    ensures
        final(out)@ == old(out)@ + signed_decimal(n as int),
{
    if n < 0 {
        out.push('-');
        let magnitude: u64 = if n == i64::MIN {
            9223372036854775808u64
        } else {
            (-n) as u64
        };
        push_decimal(out, magnitude);
    } else {
        push_decimal(out, n as u64);
    }
}

} // verus!
