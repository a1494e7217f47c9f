//! Character-sequence helpers: equality, ordering, trimming and integer parsing.
use vstd::prelude::*;

verus! {

/// Code-point order on characters.
pub open spec fn char_lt(a: char, b: char) -> bool {
    (a as int) < (b as int)
}

/// Lexicographic strict order on character sequences (the order of `String`).
pub open spec fn seq_lt(a: Seq<char>, b: Seq<char>) -> bool
    decreases a.len(),
{
    if b.len() == 0 {
        false
    } else if a.len() == 0 {
        true
    } else if a[0] != b[0] {
        char_lt(a[0], b[0])
    } else {
        seq_lt(a.drop_first(), b.drop_first())
    }
}

/// No sequence sorts before itself.
pub proof fn lemma_seq_lt_irreflexive(a: Seq<char>)
    ensures
        !seq_lt(a, a),
    decreases a.len(),
{
    if a.len() > 0 {
        lemma_seq_lt_irreflexive(a.drop_first());
    }
}

/// Of two different sequences exactly one sorts first.
pub proof fn lemma_seq_lt_total(a: Seq<char>, b: Seq<char>)
    ensures
        a == b || seq_lt(a, b) || seq_lt(b, a),
        !(seq_lt(a, b) && seq_lt(b, a)),
    decreases a.len(),
{
    if a.len() > 0 && b.len() > 0 && a[0] == b[0] {
        lemma_seq_lt_total(a.drop_first(), b.drop_first());
        if a.drop_first() == b.drop_first() {
            assert(a =~= seq![a[0]] + a.drop_first());
            assert(b =~= seq![b[0]] + b.drop_first());
        }
    } else if a.len() == 0 && b.len() == 0 {
        assert(a =~= b);
    } else if a.len() > 0 && b.len() > 0 {
        assert((a[0] as int) != (b[0] as int));
    }
}

/// The order is transitive.
pub proof fn lemma_seq_lt_transitive(a: Seq<char>, b: Seq<char>, c: Seq<char>)
    requires
        seq_lt(a, b),
        seq_lt(b, c),
    ensures
        seq_lt(a, c),
    decreases a.len(),
{
    if a.len() > 0 && a[0] == b[0] && b[0] == c[0] {
        lemma_seq_lt_transitive(a.drop_first(), b.drop_first(), c.drop_first());
    }
}

proof fn lemma_seq_lt_skip(a: Seq<char>, b: Seq<char>, i: int)
    requires
        0 <= i < a.len(),
        i < b.len(),
        a[i] == b[i],
    ensures
        seq_lt(a.skip(i), b.skip(i)) == seq_lt(a.skip(i + 1), b.skip(i + 1)),
{
    assert(a.skip(i).drop_first() =~= a.skip(i + 1));
    assert(b.skip(i).drop_first() =~= b.skip(i + 1));
}

/// Whether `a` sorts strictly before `b`.
pub fn str_lt(a: &str, b: &str) -> (r: bool)
    ensures
        r == seq_lt(a@, b@),
{
    let la = a.unicode_len();
    let lb = b.unicode_len();
    let mut i: usize = 0;
    assert(a@.skip(0) =~= a@);
    assert(b@.skip(0) =~= b@);
    while i < la && i < lb
        invariant
            la == a@.len(),
            lb == b@.len(),
            i <= la,
            i <= lb,
            seq_lt(a@, b@) == seq_lt(a@.skip(i as int), b@.skip(i as int)),
        decreases la - i,
    {
        let ca = a.get_char(i);
        let cb = b.get_char(i);
        if ca != cb {
            return (ca as u32) < (cb as u32);
        }
        proof {
            lemma_seq_lt_skip(a@, b@, i as int);
        }
        i += 1;
    }
    i == la && i < lb
}

/// Whether two strings hold the same characters.
pub fn str_eq(a: &str, b: &str) -> (r: bool)
    ensures
        r == (a@ == b@),
{
    let la = a.unicode_len();
    let lb = b.unicode_len();
    if la != lb {
        return false;
    }
    let mut i: usize = 0;
    while i < la
        invariant
            la == a@.len(),
            lb == b@.len(),
            la == lb,
            i <= la,
            a@.take(i as int) =~= b@.take(i as int),
        decreases la - i,
    {
        let ca = a.get_char(i);
        let cb = b.get_char(i);
        if ca != cb {
            return false;
        }
        assert(a@.take(i + 1) =~= a@.take(i as int).push(ca));
        assert(b@.take(i + 1) =~= b@.take(i as int).push(cb));
        i += 1;
    }
    assert(a@ =~= a@.take(la as int));
    assert(b@ =~= b@.take(lb as int));
    true
}

/// The characters with the Unicode `White_Space` property, which `str::trim` removes.
pub open spec fn is_white_space(c: char) -> bool {
    let u = c as int;
    ||| 0x09 <= u <= 0x0d
    ||| u == 0x20
    ||| u == 0x85
    ||| u == 0xa0
    ||| u == 0x1680
    ||| 0x2000 <= u <= 0x200a
    ||| u == 0x2028
    ||| u == 0x2029
    ||| u == 0x202f
    ||| u == 0x205f
    ||| u == 0x3000
}

/// Whether `c` is white space in the sense of `is_white_space`.
pub fn white_space(c: char) -> (r: bool)
    ensures
        r == is_white_space(c),
{
    let u = c as u32;
    (0x09 <= u && u <= 0x0d) || u == 0x20 || u == 0x85 || u == 0xa0 || u == 0x1680 || (0x2000
        <= u && u <= 0x200a) || u == 0x2028 || u == 0x2029 || u == 0x202f || u == 0x205f || u
        == 0x3000
}

/// Number of leading white-space characters of `s`.
pub open spec fn leading_ws(s: Seq<char>) -> nat
    decreases s.len(),
{
    if s.len() > 0 && is_white_space(s[0]) {
        1 + leading_ws(s.drop_first())
    } else {
        0
    }
}

/// Number of trailing white-space characters of `s`.
pub open spec fn trailing_ws(s: Seq<char>) -> nat
    decreases s.len(),
{
    if s.len() > 0 && is_white_space(s.last()) {
        1 + trailing_ws(s.drop_last())
    } else {
        0
    }
}

/// `s` without its leading and trailing white space.
pub open spec fn trimmed(s: Seq<char>) -> Seq<char> {
    let front = s.skip(leading_ws(s) as int);
    front.take(front.len() - trailing_ws(front))
}

proof fn lemma_leading_ws(s: Seq<char>, i: int)
    requires
        0 <= i <= s.len(),
        forall|j: int| 0 <= j < i ==> is_white_space(#[trigger] s[j]),
        i == s.len() || !is_white_space(s[i]),
    ensures
        leading_ws(s) == i,
    decreases i,
{
    if i > 0 {
        let t = s.drop_first();
        assert forall|j: int| 0 <= j < i - 1 implies is_white_space(#[trigger] t[j]) by {
            assert(t[j] == s[j + 1]);
        }
        lemma_leading_ws(t, i - 1);
    }
}

proof fn lemma_trailing_ws(s: Seq<char>, k: int)
    requires
        0 <= k <= s.len(),
        forall|j: int| s.len() - k <= j < s.len() ==> is_white_space(#[trigger] s[j]),
        k == s.len() || !is_white_space(s[s.len() - k - 1]),
    ensures
        trailing_ws(s) == k,
    decreases k,
{
    if k > 0 {
        let t = s.drop_last();
        assert forall|j: int| t.len() - (k - 1) <= j < t.len() implies is_white_space(
            #[trigger] t[j],
        ) by {
            assert(t[j] == s[j]);
        }
        lemma_trailing_ws(t, k - 1);
    }
}

/// `s` without leading and trailing white space, as `str::trim` gives it.
pub fn trim(s: &str) -> (r: &str)
    ensures
        r@ == trimmed(s@),
{
    let n = s.unicode_len();
    let mut start: usize = 0;
    while start < n && white_space(s.get_char(start))
        invariant
            n == s@.len(),
            start <= n,
            forall|j: int| 0 <= j < start ==> is_white_space(#[trigger] s@[j]),
        decreases n - start,
    {
        start += 1;
    }
    proof {
        lemma_leading_ws(s@, start as int);
    }
    let mut end: usize = n;
    while end > start && white_space(s.get_char(end - 1))
        invariant
            n == s@.len(),
            start <= end <= n,
            forall|j: int| end <= j < n ==> is_white_space(#[trigger] s@[j]),
        decreases end - start,
    {
        end -= 1;
    }
    proof {
        let front = s@.skip(start as int);
        assert forall|j: int| front.len() - (n - end) <= j < front.len() implies is_white_space(
            #[trigger] front[j],
        ) by {
            assert(front[j] == s@[j + start]);
        }
        if end > start {
            assert(front[front.len() - (n - end) - 1] == s@[end - 1]);
        }
        lemma_trailing_ws(front, (n - end) as int);
        assert(trimmed(s@) =~= s@.subrange(start as int, end as int));
    }
    s.substring_char(start, end)
}

/// Why a string is not a decimal `i64`, as `std::num::IntErrorKind` tells it.
#[derive(Clone, Copy, Debug, PartialEq, Eq, Structural)]
pub enum IntErrorKind {
    Empty,
    InvalidDigit,
    PosOverflow,
    NegOverflow,
}

impl IntErrorKind {
    /// The sentence that `ParseIntError` displays for this kind.
    pub open spec fn spec_text(self) -> Seq<char> {
        match self {
            IntErrorKind::Empty => "cannot parse integer from empty string"@,
            IntErrorKind::InvalidDigit => "invalid digit found in string"@,
            IntErrorKind::PosOverflow => "number too large to fit in target type"@,
            IntErrorKind::NegOverflow => "number too small to fit in target type"@,
        }
    }

    /// The sentence that `ParseIntError` displays for this kind.
    pub fn text(&self) -> (r: &'static str)
        ensures
            r@ == self.spec_text(),
    {
        match self {
            IntErrorKind::Empty => "cannot parse integer from empty string",
            IntErrorKind::InvalidDigit => "invalid digit found in string",
            IntErrorKind::PosOverflow => "number too large to fit in target type",
            IntErrorKind::NegOverflow => "number too small to fit in target type",
        }
    }
}

/// Whether `c` is one of `0` to `9`.
pub open spec fn is_digit(c: char) -> bool {
    48 <= (c as int) <= 57
}

/// The value of the decimal digit `c`.
pub open spec fn digit_value(c: char) -> int {
    (c as int) - 48
}

/// Whether `c` is one of `0` to `9`.
pub fn ascii_digit(c: char) -> (r: bool)
    ensures
        r == is_digit(c),
{
    let u = c as u32;
    48 <= u && u <= 57
}

/// Reads the digits of `ds` onto `acc` (`acc * 10 + d` each), as the value of a
/// non-negative number; fails at the first non-digit or at the first step past `i64::MAX`.
pub open spec fn parse_up(ds: Seq<char>, acc: int) -> Result<int, IntErrorKind>
    decreases ds.len(),
{
    if ds.len() == 0 {
        Ok(acc)
    } else if !is_digit(ds[0]) {
        Err(IntErrorKind::InvalidDigit)
    } else if acc * 10 + digit_value(ds[0]) > i64::MAX {
        Err(IntErrorKind::PosOverflow)
    } else {
        parse_up(ds.drop_first(), acc * 10 + digit_value(ds[0]))
    }
}

/// Reads the digits of `ds` onto `acc` (`acc * 10 - d` each), as the value of a
/// negative number; fails at the first non-digit or at the first step below `i64::MIN`.
pub open spec fn parse_down(ds: Seq<char>, acc: int) -> Result<int, IntErrorKind>
    decreases ds.len(),
{
    if ds.len() == 0 {
        Ok(acc)
    } else if !is_digit(ds[0]) {
        Err(IntErrorKind::InvalidDigit)
    } else if acc * 10 - digit_value(ds[0]) < i64::MIN {
        Err(IntErrorKind::NegOverflow)
    } else {
        parse_down(ds.drop_first(), acc * 10 - digit_value(ds[0]))
    }
}

/// What `str::parse::<i64>` gives for `s`: an optional `+` or `-` sign, then one or
/// more decimal digits, whose value fits in `i64`.
pub open spec fn parse_i64_spec(s: Seq<char>) -> Result<i64, IntErrorKind> {
    let r = if s.len() == 0 {
        Err(IntErrorKind::Empty)
    } else if s.len() == 1 && (s[0] == '+' || s[0] == '-') {
        Err(IntErrorKind::InvalidDigit)
    } else if s[0] == '+' {
        parse_up(s.drop_first(), 0)
    } else if s[0] == '-' {
        parse_down(s.drop_first(), 0)
    } else {
        parse_up(s, 0)
    };
    match r {
        Ok(v) => Ok(v as i64),
        Err(e) => Err(e),
    }
}

/// Reads the digits of `s` from position `start`, as `parse_up` or `parse_down` says.
fn parse_digits(s: &str, start: usize, negative: bool) -> (r: Result<i64, IntErrorKind>)
    requires
        start <= s@.len(),
    ensures
        negative ==> r == (match parse_down(s@.skip(start as int), 0) {
            Ok(v) => Ok(v as i64),
            Err(e) => Err(e),
        }),
        !negative ==> r == (match parse_up(s@.skip(start as int), 0) {
            Ok(v) => Ok(v as i64),
            Err(e) => Err(e),
        }),
{
    let n = s.unicode_len();
    let mut i = start;
    let mut acc: i64 = 0;
    while i < n
        invariant
            n == s@.len(),
            start <= i <= n,
            negative ==> acc <= 0,
            !negative ==> acc >= 0,
            negative ==> parse_down(s@.skip(start as int), 0) == parse_down(
                s@.skip(i as int),
                acc as int,
            ),
            !negative ==> parse_up(s@.skip(start as int), 0) == parse_up(
                s@.skip(i as int),
                acc as int,
            ),
        decreases n - i,
    {
        let c = s.get_char(i);
        let u = c as u32;
        proof {
            assert(s@.skip(i as int)[0] == c);
            assert(s@.skip(i as int).drop_first() =~= s@.skip(i + 1));
        }
        if u < 48 || u > 57 {
            return Err(IntErrorKind::InvalidDigit);
        }
        let d = (u - 48) as i128;
        let next: i128 = if negative {
            acc as i128 * 10 - d
        } else {
            acc as i128 * 10 + d
        };
        if negative && next < i64::MIN as i128 {
            return Err(IntErrorKind::NegOverflow);
        }
        if !negative && next > i64::MAX as i128 {
            return Err(IntErrorKind::PosOverflow);
        }
        acc = next as i64;
        i += 1;
    }
    proof {
        assert(s@.skip(i as int).len() == 0);
    }
    Ok(acc)
}

/// Parses `s` as `str::parse::<i64>` does.
pub fn parse_i64(s: &str) -> (r: Result<i64, IntErrorKind>)
    ensures
        r == parse_i64_spec(s@),
{
    let n = s.unicode_len();
    if n == 0 {
        return Err(IntErrorKind::Empty);
    }
    let c0 = s.get_char(0);
    if n == 1 && (c0 == '+' || c0 == '-') {
        return Err(IntErrorKind::InvalidDigit);
    }
    proof {
        assert(s@.skip(1) =~= s@.drop_first());
        assert(s@.skip(0) =~= s@);
    }
    if c0 == '+' {
        parse_digits(s, 1, false)
    } else if c0 == '-' {
        parse_digits(s, 1, true)
    } else {
        parse_digits(s, 0, false)
    }
}

/// The decimal digit `d` (0 to 9) as text.
pub open spec fn digit_text(d: int) -> Seq<char> {
    if d == 0 {
        "0"@
    } else if d == 1 {
        "1"@
    } else if d == 2 {
        "2"@
    } else if d == 3 {
        "3"@
    } else if d == 4 {
        "4"@
    } else if d == 5 {
        "5"@
    } else if d == 6 {
        "6"@
    } else if d == 7 {
        "7"@
    } else if d == 8 {
        "8"@
    } else {
        "9"@
    }
}

/// `n` in decimal, without leading zeros.
pub open spec fn nat_text(n: nat) -> Seq<char>
    decreases n,
{
    if n < 10 {
        digit_text(n as int)
    } else {
        nat_text(n / 10) + digit_text((n % 10) as int)
    }
}

/// `v` in decimal, with a leading `-` when negative (as `Display` writes integers).
pub open spec fn int_text(v: int) -> Seq<char> {
    if v < 0 {
        "-"@ + nat_text((-v) as nat)
    } else {
        nat_text(v as nat)
    }
}

fn digit_str(d: u64) -> (r: &'static str)
    requires
        d < 10,
    ensures
        r@ == digit_text(d as int),
{
    if d == 0 {
        "0"
    } else if d == 1 {
        "1"
    } else if d == 2 {
        "2"
    } else if d == 3 {
        "3"
    } else if d == 4 {
        "4"
    } else if d == 5 {
        "5"
    } else if d == 6 {
        "6"
    } else if d == 7 {
        "7"
    } else if d == 8 {
        "8"
    } else {
        "9"
    }
}

fn push_nat(n: u64, out: &mut String)
    ensures
        final(out)@ == old(out)@ + nat_text(n as nat),
    decreases n,
{
    if n >= 10 {
        push_nat(n / 10, out);
    }
    out.append(digit_str(n % 10));
    assert(n < 10 ==> (n % 10) == n);
}

/// Appends `v` in decimal to `out`.
pub fn push_int(v: i64, out: &mut String)
    ensures
        final(out)@ == old(out)@ + int_text(v as int),
{
    if v < 0 {
        out.append("-");
        let m: u64 = (0i128 - v as i128) as u64;
        push_nat(m, out);
        assert(final(out)@ =~= old(out)@ + int_text(v as int));
    } else {
        push_nat(v as u64, out);
    }
}

/// The parts joined, with `sep` between neighbours.
pub open spec fn join(parts: Seq<Seq<char>>, sep: Seq<char>) -> Seq<char>
    decreases parts.len(),
{
    if parts.len() == 0 {
        Seq::empty()
    } else if parts.len() == 1 {
        parts[0]
    } else {
        join(parts.drop_last(), sep) + sep + parts.last()
    }
}

/// The strings joined, with `sep` between neighbours.
pub fn join_strings(parts: &Vec<String>, sep: &str) -> (r: String)
    ensures
        r@ == join(crate::sorting::views(parts@), sep@),
{
    let ghost pv = crate::sorting::views(parts@);
    let mut out = String::new();
    let mut k: usize = 0;
    assert(pv.take(0) =~= Seq::<Seq<char>>::empty());
    while k < parts.len()
        invariant
            k <= parts@.len(),
            pv == crate::sorting::views(parts@),
            out@ == join(pv.take(k as int), sep@),
        decreases parts.len() - k,
    {
        assert(pv.take(k + 1).drop_last() =~= pv.take(k as int));
        assert(pv.take(k + 1).last() == parts@[k as int]@);
        if k > 0 {
            out.append(sep);
        } else {
            assert(out@ =~= Seq::<char>::empty());
        }
        out.append(parts[k].as_str());
        k += 1;
    }
    assert(pv.take(k as int) =~= pv);
    out
}

} // verus!
