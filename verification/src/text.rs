//! Small things done with text: cutting, comparing, padding and numbers.
//!
//! Text is handled as a sequence of characters; [`chars_of`] and [`text_of`] go
//! from strings to characters and back.

use vstd::prelude::*;
use vstd::slice::slice_subrange;

verus! {

/// `String::push` adds one character to the end.
pub assume_specification[ String::push ](s: &mut String, c: char)
    ensures
        final(s)@ == old(s)@.push(c),
;

/// The characters of a string.
pub fn chars_of(s: &str) -> (out: Vec<char>)
    ensures
        out@ == s@,
{
    let mut out: Vec<char> = Vec::new();
    for c in it: s.chars()
        invariant
            it.seq() == s@,
            out@ == s@.take(it.index() as int),
    {
        out.push(c);
    }
    out
}

/// The string of these characters.
pub fn text_of(chars: &[char]) -> (out: String)
    ensures
        out@ == chars@,
{
    let mut out = String::new();
    let mut i: usize = 0;
    while i < chars.len()
        invariant
            i <= chars.len(),
            out@ == chars@.take(i as int),
        decreases chars.len() - i,
    {
        out.push(chars[i]);
        i = i + 1;
        assert(chars@.take(i as int) == chars@.take(i - 1).push(chars[i - 1]));
    }
    assert(chars@.take(i as int) == chars@);
    out
}

// ---- comparing --------------------------------------------------------------

/// Whether two pieces of text are the same.
pub fn same(a: &[char], b: &[char]) -> (r: bool)
    ensures
        r == (a@ == b@),
{
    if a.len() != b.len() {
        return false;
    }
    let mut i: usize = 0;
    while i < a.len()
        invariant
            i <= a.len(),
            a.len() == b.len(),
            a@.take(i as int) == b@.take(i as int),
        decreases a.len() - i,
    {
        if a[i] != b[i] {
            return false;
        }
        i = i + 1;
        assert(a@.take(i as int) == a@.take(i - 1).push(a[i - 1]));
        assert(b@.take(i as int) == b@.take(i - 1).push(b[i - 1]));
    }
    assert(a@.take(i as int) == a@);
    assert(b@.take(i as int) == b@);
    true
}

/// Whether two strings are the same.
pub fn same_text(a: &str, b: &str) -> (r: bool)
    ensures
        r == (a@ == b@),
{
    same(&chars_of(a), &chars_of(b))
}

/// `s` begins with `p`.
pub open spec fn begins(s: Seq<char>, p: Seq<char>) -> bool {
    p.len() <= s.len() && s.take(p.len() as int) == p
}

/// `s` ends with `p`.
pub open spec fn finishes(s: Seq<char>, p: Seq<char>) -> bool {
    p.len() <= s.len() && s.skip(s.len() - p.len()) == p
}

/// `p` stands in `s` at `i`.
pub open spec fn stands(s: Seq<char>, p: Seq<char>, i: int) -> bool {
    0 <= i && i + p.len() <= s.len() && s.subrange(i, i + p.len()) == p
}

/// `p` stands somewhere in `s`.
pub open spec fn holds(s: Seq<char>, p: Seq<char>) -> bool {
    exists|i: int| stands(s, p, i)
}

pub fn has_prefix(s: &[char], p: &str) -> (r: bool)
    ensures
        r == begins(s@, p@),
{
    let q = chars_of(p);
    if q.len() > s.len() {
        return false;
    }
    same(slice_subrange(s, 0, q.len()), &q)
}

pub fn has_suffix(s: &[char], p: &str) -> (r: bool)
    ensures
        r == finishes(s@, p@),
{
    let q = chars_of(p);
    if q.len() > s.len() {
        return false;
    }
    let end = slice_subrange(s, s.len() - q.len(), s.len());
    assert(end@ == s@.skip(s.len() - q.len()));
    same(end, &q)
}

pub fn has(s: &[char], p: &str) -> (r: bool)
    ensures
        r == holds(s@, p@),
{
    let q = chars_of(p);
    let mut i: usize = 0;
    while i <= s.len() && q.len() <= s.len() - i
        invariant
            i <= s.len() + 1,
            i > s.len() ==> i - 1 + q.len() <= s.len(),
            q@ == p@,
            forall|j: int| 0 <= j < i ==> !stands(s@, p@, j),
        decreases s.len() + 1 - i,
    {
        if same(slice_subrange(s, i, i + q.len()), &q) {
            assert(stands(s@, p@, i as int));
            return true;
        }
        if i == s.len() {
            return false;
        }
        i = i + 1;
    }
    assert forall|j: int| !stands(s@, p@, j) by {
        if j >= i {
        }
    }
    false
}

/// An ASCII letter in lower case; any other character as it is.
pub open spec fn lower_char(c: char) -> char {
    if 'A' <= c <= 'Z' {
        (c as u32 + 32) as char
    } else {
        c
    }
}

/// Text with its ASCII letters in lower case.
pub open spec fn lower(s: Seq<char>) -> Seq<char> {
    s.map_values(|c: char| lower_char(c))
}

fn to_lower(c: char) -> (r: char)
    ensures
        r == lower_char(c),
{
    if 'A' <= c && c <= 'Z' {
        (c as u8 + 32) as char
    } else {
        c
    }
}

pub fn lowered(s: &[char]) -> (out: Vec<char>)
    ensures
        out@ == lower(s@),
{
    let mut out: Vec<char> = Vec::new();
    let mut i: usize = 0;
    while i < s.len()
        invariant
            i <= s.len(),
            out@ == lower(s@.take(i as int)),
        decreases s.len() - i,
    {
        out.push(to_lower(s[i]));
        i = i + 1;
        assert(lower(s@.take(i as int)) == lower(s@.take(i - 1)).push(lower_char(s[i - 1])));
    }
    assert(s@.take(i as int) == s@);
    out
}

/// Characters come before one another by their code points; a text comes before
/// another by the first character in which they differ, the shorter one first.
pub open spec fn before(a: Seq<char>, b: Seq<char>) -> bool
    decreases a.len(),
{
    if b.len() == 0 {
        false
    } else if a.len() == 0 {
        true
    } else if a[0] != b[0] {
        a[0] < b[0]
    } else {
        before(a.drop_first(), b.drop_first())
    }
}

/// Two texts come before one another at most one way round, and neither way only
/// when they are the same.
pub proof fn lemma_before_total(a: Seq<char>, b: Seq<char>)
    ensures
        !(before(a, b) && before(b, a)),
        before(a, b) || before(b, a) || a == b,
    decreases a.len(),
{
    if a.len() > 0 && b.len() > 0 && a[0] == b[0] {
        lemma_before_total(a.drop_first(), b.drop_first());
        if a.drop_first() == b.drop_first() {
            assert(a == seq![a[0]] + a.drop_first());
            assert(b == seq![b[0]] + b.drop_first());
        }
    } else if a.len() == 0 && b.len() == 0 {
        assert(a == b);
    }
}

pub proof fn lemma_before_transitive(a: Seq<char>, b: Seq<char>, c: Seq<char>)
    requires
        before(a, b),
        before(b, c),
    ensures
        before(a, c),
    decreases a.len(),
{
    if a.len() > 0 && a[0] == b[0] && b[0] == c[0] {
        lemma_before_transitive(a.drop_first(), b.drop_first(), c.drop_first());
    }
}

pub fn is_before(a: &[char], b: &[char]) -> (r: bool)
    ensures
        r == before(a@, b@),
{
    assert(a@.skip(0) == a@ && b@.skip(0) == b@);
    let mut i: usize = 0;
    while i < a.len() && i < b.len()
        invariant
            i <= a.len(),
            i <= b.len(),
            before(a@, b@) == before(a@.skip(i as int), b@.skip(i as int)),
        decreases a.len() - i,
    {
        proof {
            assert(a@.skip(i as int)[0] == a[i as int]);
            assert(b@.skip(i as int)[0] == b[i as int]);
            assert(a@.skip(i as int).drop_first() == a@.skip(i + 1));
            assert(b@.skip(i as int).drop_first() == b@.skip(i + 1));
        }
        if a[i] != b[i] {
            return a[i] < b[i];
        }
        i = i + 1;
    }
    i < b.len()
}

// ---- cutting ----------------------------------------------------------------

/// The characters that Unicode calls white space.
pub open spec fn is_space(c: char) -> bool {
    let n = c as u32;
    ||| 0x09 <= n <= 0x0D
    ||| n == 0x20
    ||| n == 0x85
    ||| n == 0xA0
    ||| n == 0x1680
    ||| 0x2000 <= n <= 0x200A
    ||| n == 0x2028
    ||| n == 0x2029
    ||| n == 0x202F
    ||| n == 0x205F
    ||| n == 0x3000
}

fn space(c: char) -> (r: bool)
    ensures
        r == is_space(c),
{
    let n = c as u32;
    (0x09 <= n && n <= 0x0D) || n == 0x20 || n == 0x85 || n == 0xA0 || n == 0x1680 || (0x2000 <= n
        && n <= 0x200A) || n == 0x2028 || n == 0x2029 || n == 0x202F || n == 0x205F || n == 0x3000
}

/// Text without its leading white space.
pub open spec fn trimmed_start(s: Seq<char>) -> Seq<char>
    decreases s.len(),
{
    if s.len() > 0 && is_space(s[0]) {
        trimmed_start(s.drop_first())
    } else {
        s
    }
}

/// Text without its trailing white space.
pub open spec fn trimmed_end(s: Seq<char>) -> Seq<char>
    decreases s.len(),
{
    if s.len() > 0 && is_space(s.last()) {
        trimmed_end(s.drop_last())
    } else {
        s
    }
}

/// Text without white space at either end.
pub open spec fn trimmed(s: Seq<char>) -> Seq<char> {
    trimmed_end(trimmed_start(s))
}

pub fn trim_end<'a>(s: &'a [char]) -> (r: &'a [char])
    ensures
        r@ == trimmed_end(s@),
{
    assert(s@.take(s.len() as int) == s@);
    let mut b: usize = s.len();
    while b > 0
        invariant_except_break
            b <= s.len(),
            trimmed_end(s@) == trimmed_end(s@.take(b as int)),
        ensures
            b <= s.len(),
            trimmed_end(s@) == s@.take(b as int),
        decreases b,
    {
        let ghost t = s@.take(b as int);
        assert(t.last() == s[b - 1]);
        if !space(s[b - 1]) {
            break;
        }
        assert(t.drop_last() == s@.take(b - 1));
        b = b - 1;
    }
    slice_subrange(s, 0, b)
}

pub fn trim<'a>(s: &'a [char]) -> (r: &'a [char])
    ensures
        r@ == trimmed(s@),
{
    assert(s@.skip(0) == s@);
    let mut a: usize = 0;
    while a < s.len()
        invariant_except_break
            a <= s.len(),
            trimmed_start(s@) == trimmed_start(s@.skip(a as int)),
        ensures
            a <= s.len(),
            trimmed_start(s@) == s@.skip(a as int),
        decreases s.len() - a,
    {
        let ghost t = s@.skip(a as int);
        assert(t[0] == s[a as int]);
        if !space(s[a]) {
            break;
        }
        assert(t.drop_first() == s@.skip(a + 1));
        a = a + 1;
    }
    let rest = slice_subrange(s, a, s.len());
    assert(rest@ == s@.skip(a as int));
    trim_end(rest)
}

/// Text without the characters `c` that it begins with.
pub open spec fn without_leading(s: Seq<char>, c: char) -> Seq<char>
    decreases s.len(),
{
    if s.len() > 0 && s[0] == c {
        without_leading(s.drop_first(), c)
    } else {
        s
    }
}

/// Text without the characters `c` that it ends with.
pub open spec fn without_trailing(s: Seq<char>, c: char) -> Seq<char>
    decreases s.len(),
{
    if s.len() > 0 && s.last() == c {
        without_trailing(s.drop_last(), c)
    } else {
        s
    }
}

pub fn cut_leading<'a>(s: &'a [char], c: char) -> (r: &'a [char])
    ensures
        r@ == without_leading(s@, c),
{
    assert(s@.skip(0) == s@);
    let mut a: usize = 0;
    while a < s.len()
        invariant_except_break
            a <= s.len(),
            without_leading(s@, c) == without_leading(s@.skip(a as int), c),
        ensures
            a <= s.len(),
            without_leading(s@, c) == s@.skip(a as int),
        decreases s.len() - a,
    {
        let ghost t = s@.skip(a as int);
        assert(t[0] == s[a as int]);
        if s[a] != c {
            break;
        }
        assert(t.drop_first() == s@.skip(a + 1));
        a = a + 1;
    }
    let rest = slice_subrange(s, a, s.len());
    assert(rest@ == s@.skip(a as int));
    rest
}

pub fn cut_trailing<'a>(s: &'a [char], c: char) -> (r: &'a [char])
    ensures
        r@ == without_trailing(s@, c),
{
    assert(s@.take(s.len() as int) == s@);
    let mut b: usize = s.len();
    while b > 0
        invariant_except_break
            b <= s.len(),
            without_trailing(s@, c) == without_trailing(s@.take(b as int), c),
        ensures
            b <= s.len(),
            without_trailing(s@, c) == s@.take(b as int),
        decreases b,
    {
        let ghost t = s@.take(b as int);
        assert(t.last() == s[b - 1]);
        if s[b - 1] != c {
            break;
        }
        assert(t.drop_last() == s@.take(b - 1));
        b = b - 1;
    }
    slice_subrange(s, 0, b)
}

/// Where `c` first stands in `s`, from `i` on.
pub open spec fn place_of(s: Seq<char>, c: char, i: int) -> Option<int>
    decreases s.len() - i,
{
    if i < 0 || i >= s.len() {
        None
    } else if s[i] == c {
        Some(i)
    } else {
        place_of(s, c, i + 1)
    }
}

pub proof fn lemma_place_of(s: Seq<char>, c: char, i: int)
    requires
        0 <= i,
    ensures
        match place_of(s, c, i) {
            Some(p) => i <= p < s.len() && s[p] == c && forall|j: int|
                i <= j < p ==> #[trigger] s[j] != c,
            None => forall|j: int| i <= j < s.len() ==> #[trigger] s[j] != c,
        },
    decreases s.len() - i,
{
    if i < s.len() && s[i] != c {
        lemma_place_of(s, c, i + 1);
    }
}

/// The text is found where it first is.
pub proof fn lemma_place_is(s: Seq<char>, c: char, i: int, p: int)
    requires
        0 <= i <= p < s.len(),
        s[p] == c,
        forall|j: int| i <= j < p ==> #[trigger] s[j] != c,
    ensures
        place_of(s, c, i) == Some(p),
{
    lemma_place_of(s, c, i);
}

pub fn find_char(s: &[char], c: char, from: usize) -> (r: Option<usize>)
    ensures
        match place_of(s@, c, from as int) {
            Some(p) => r matches Some(q) && q == p && from <= q < s.len(),
            None => r is None,
        },
{
    let mut i: usize = from;
    while i < s.len()
        invariant
            from <= i,
            place_of(s@, c, from as int) == place_of(s@, c, i as int),
        decreases s.len() - i,
    {
        if s[i] == c {
            return Some(i);
        }
        i = i + 1;
    }
    None
}

/// What stands before and after the first `c`.
pub open spec fn split(s: Seq<char>, c: char) -> Option<(Seq<char>, Seq<char>)> {
    match place_of(s, c, 0) {
        Some(p) => Some((s.take(p), s.skip(p + 1))),
        None => None,
    }
}

pub fn split_once<'a>(s: &'a [char], c: char) -> (r: Option<(&'a [char], &'a [char])>)
    ensures
        match split(s@, c) {
            Some((a, b)) => r matches Some((x, y)) && x@ == a && y@ == b,
            None => r is None,
        },
{
    match find_char(s, c, 0) {
        None => None,
        Some(p) => {
            let a = slice_subrange(s, 0, p);
            let b = slice_subrange(s, p + 1, s.len());
            assert(a@ == s@.take(p as int));
            assert(b@ == s@.skip(p + 1));
            Some((a, b))
        },
    }
}

/// The first `n` characters.
pub open spec fn shortened(s: Seq<char>, n: nat) -> Seq<char> {
    if s.len() <= n {
        s
    } else {
        s.take(n as int)
    }
}

pub fn shorten(s: &[char], n: usize) -> (out: String)
    ensures
        out@ == shortened(s@, n as nat),
{
    if s.len() <= n {
        text_of(s)
    } else {
        text_of(slice_subrange(s, 0, n))
    }
}

// ---- putting together -------------------------------------------------------

/// A row of `n` characters.
pub open spec fn row(c: char, n: nat) -> Seq<char> {
    Seq::new(n, |i: int| c)
}

pub fn repeated(c: char, n: usize) -> (out: String)
    ensures
        out@ == row(c, n as nat),
{
    let mut out = String::new();
    let mut i: usize = 0;
    while i < n
        invariant
            i <= n,
            out@ == row(c, i as nat),
        decreases n - i,
    {
        out.push(c);
        i = i + 1;
        assert(row(c, i as nat) == row(c, (i - 1) as nat).push(c));
    }
    out
}

/// A decimal digit.
pub open spec fn digit(d: nat) -> char {
    ('0' as u32 + d) as char
}

/// A number in decimal, without leading zeros.
pub open spec fn decimal(n: nat) -> Seq<char>
    decreases n,
{
    if n < 10 {
        seq![digit(n)]
    } else {
        decimal(n / 10).push(digit(n % 10))
    }
}

/// Text filled up on the left to at least `width` characters.
pub open spec fn padded(s: Seq<char>, width: nat, fill: char) -> Seq<char> {
    if s.len() >= width {
        s
    } else {
        row(fill, (width - s.len()) as nat) + s
    }
}

/// Text filled up on the right to at least `width` characters.
pub open spec fn padded_right(s: Seq<char>, width: nat, fill: char) -> Seq<char> {
    if s.len() >= width {
        s
    } else {
        s + row(fill, (width - s.len()) as nat)
    }
}

/// A number in decimal with at least `width` digits.
pub open spec fn zero_padded(n: nat, width: nat) -> Seq<char> {
    padded(decimal(n), width, '0')
}

pub fn number(n: u64) -> (out: String)
    ensures
        out@ == decimal(n as nat),
    decreases n,
{
    let d = (48 + (n % 10) as u8) as char;
    let mut out = if n < 10 {
        String::new()
    } else {
        number(n / 10)
    };
    out.push(d);
    assert(n < 10 ==> out@ == decimal(n as nat));
    out
}

pub fn pad_left(s: &str, width: usize, fill: char) -> (out: String)
    ensures
        out@ == padded(s@, width as nat, fill),
{
    let n = chars_of(s).len();
    let mut out = if n >= width {
        String::new()
    } else {
        repeated(fill, width - n)
    };
    out.append(s);
    assert(n >= width ==> out@ == s@);
    out
}

pub fn pad_right(s: &str, width: usize, fill: char) -> (out: String)
    ensures
        out@ == padded_right(s@, width as nat, fill),
{
    let n = chars_of(s).len();
    let mut out = s.to_owned();
    if n < width {
        out.append(&repeated(fill, width - n));
    }
    out
}

pub fn padded_number(n: u64, width: usize) -> (out: String)
    ensures
        out@ == zero_padded(n as nat, width as nat),
{
    pad_left(&number(n), width, '0')
}

/// A number in decimal, with a minus sign where it is negative.
pub open spec fn signed(n: int) -> Seq<char> {
    if n < 0 {
        "-"@ + decimal((-n) as nat)
    } else {
        decimal(n as nat)
    }
}

pub fn signed_number(n: i64) -> (out: String)
    requires
        n > i64::MIN,
    ensures
        out@ == signed(n as int),
{
    if n < 0 {
        String::from_str("-").concat(&number((-n) as u64))
    } else {
        number(n as u64)
    }
}

/// A decimal digit is not lost: a number is read back from its digits.
pub open spec fn value(s: Seq<char>) -> nat
    decreases s.len(),
{
    if s.len() == 0 {
        0
    } else {
        value(s.drop_last()) * 10 + (s.last() as u32 - '0' as u32) as nat
    }
}

/// The digits of a number give it back, so no two numbers have the same.
pub proof fn law_decimal_is_read_back(n: nat)
    ensures
        value(decimal(n)) == n,
        decimal(n).len() > 0,
        forall|i: int| 0 <= i < decimal(n).len() ==> '0' <= #[trigger] decimal(n)[i] <= '9',
    decreases n,
{
    if n < 10 {
        assert(decimal(n).drop_last() == Seq::<char>::empty());
        assert(value(Seq::<char>::empty()) == 0);
    } else {
        law_decimal_is_read_back(n / 10);
        assert(decimal(n).drop_last() == decimal(n / 10));
    }
}

// ---- the order of texts -----------------------------------------------------

/// A text comes before another when it is lower at the first place where they
/// differ, or ends there.
pub proof fn lemma_before_at(a: Seq<char>, b: Seq<char>, i: int)
    requires
        0 <= i <= a.len(),
        i < b.len(),
        forall|j: int| 0 <= j < i ==> a[j] == #[trigger] b[j],
        i == a.len() || a[i] < b[i],
    ensures
        before(a, b),
    decreases i,
{
    if i > 0 {
        let x = a.drop_first();
        let y = b.drop_first();
        assert(a[0] == b[0]);
        assert forall|j: int| 0 <= j < i - 1 implies x[j] == #[trigger] y[j] by {
            assert(a[j + 1] == b[j + 1]);
        }
        lemma_before_at(x, y, i - 1);
    }
}

/// What two texts have in common at the beginning does not matter to their order.
pub proof fn lemma_before_behind(p: Seq<char>, x: Seq<char>, y: Seq<char>)
    ensures
        before(p + x, p + y) == before(x, y),
    decreases p.len(),
{
    if p.len() > 0 {
        lemma_before_behind(p.drop_first(), x, y);
        assert((p + x).drop_first() =~= p.drop_first() + x);
        assert((p + y).drop_first() =~= p.drop_first() + y);
    } else {
        assert(p + x =~= x);
        assert(p + y =~= y);
    }
}

pub open spec fn pow10(n: nat) -> nat
    decreases n,
{
    if n == 0 {
        1
    } else {
        10 * pow10((n - 1) as nat)
    }
}

proof fn lemma_padded_step(n: nat, width: nat)
    requires
        width >= 2,
    ensures
        zero_padded(n, width) == zero_padded(n / 10, (width - 1) as nat).push(digit(n % 10)),
{
    let d = decimal(n / 10);
    if n < 10 {
        assert(d == seq![digit(0)]);
        assert(zero_padded(n / 10, (width - 1) as nat) =~= row('0', (width - 1) as nat));
    }
    assert(zero_padded(n, width) =~= zero_padded(n / 10, (width - 1) as nat).push(digit(n % 10)));
}

/// A number that fits is filled up to the width, with digits.
pub proof fn lemma_padded(n: nat, width: nat)
    requires
        1 <= width,
        n < pow10(width),
    ensures
        zero_padded(n, width).len() == width,
        forall|i: int| 0 <= i < width ==> '0' <= #[trigger] zero_padded(n, width)[i] <= '9',
    decreases width,
{
    if width == 1 {
        assert(pow10(1) == 10) by {
            reveal_with_fuel(pow10, 2);
        }
    } else {
        lemma_padded_step(n, width);
        lemma_padded(n / 10, (width - 1) as nat);
    }
}

/// The first place where two numbers of one width differ.
proof fn lemma_padded_differ(n: nat, m: nat, width: nat) -> (i: int)
    requires
        1 <= width,
        n < m < pow10(width),
    ensures
        0 <= i < width,
        forall|j: int|
            0 <= j < i ==> zero_padded(n, width)[j] == #[trigger] zero_padded(m, width)[j],
        zero_padded(n, width)[i] < zero_padded(m, width)[i],
    decreases width,
{
    lemma_padded(n, width);
    lemma_padded(m, width);
    if width == 1 {
        assert(pow10(1) == 10) by {
            reveal_with_fuel(pow10, 2);
        }
        0
    } else {
        let w = (width - 1) as nat;
        lemma_padded_step(n, width);
        lemma_padded_step(m, width);
        lemma_padded(n / 10, w);
        lemma_padded(m / 10, w);
        if n / 10 < m / 10 {
            let i = lemma_padded_differ(n / 10, m / 10, w);
            assert forall|j: int| 0 <= j < i implies zero_padded(n, width)[j]
                == #[trigger] zero_padded(m, width)[j] by {
                assert(zero_padded(n / 10, w)[j] == zero_padded(m / 10, w)[j]);
            }
            i
        } else {
            w as int
        }
    }
}

/// Numbers of one width are ordered as texts are, and what follows them decides
/// where they are the same.
pub proof fn lemma_padded_order(n: nat, m: nat, width: nat, x: Seq<char>, y: Seq<char>)
    requires
        1 <= width,
        n < pow10(width),
        m < pow10(width),
        n < m || (n == m && before(x, y)),
    ensures
        before(zero_padded(n, width) + x, zero_padded(m, width) + y),
{
    if n < m {
        lemma_padded(n, width);
        lemma_padded(m, width);
        let i = lemma_padded_differ(n, m, width);
        let a = zero_padded(n, width) + x;
        let b = zero_padded(m, width) + y;
        assert forall|j: int| 0 <= j < i implies a[j] == #[trigger] b[j] by {
            assert(zero_padded(n, width)[j] == zero_padded(m, width)[j]);
        }
        lemma_before_at(a, b, i);
    } else {
        lemma_before_behind(zero_padded(n, width), x, y);
    }
}

/// What is cut off the end is all the same, and what stands before it is not.
pub proof fn lemma_without_trailing(s: Seq<char>, c: char)
    ensures
        ({
            let k = without_trailing(s, c).len();
            &&& k <= s.len()
            &&& without_trailing(s, c) == s.take(k as int)
            &&& k > 0 ==> s[k - 1] != c
            &&& forall|j: int| k <= j < s.len() ==> #[trigger] s[j] == c
        }),
    decreases s.len(),
{
    if s.len() > 0 && s.last() == c {
        let front = s.drop_last();
        lemma_without_trailing(front, c);
        let k = without_trailing(s, c).len();
        assert(front.take(k as int) =~= s.take(k as int));
        assert forall|j: int| k <= j < s.len() implies #[trigger] s[j] == c by {
            if j < front.len() {
                assert(front[j] == s[j]);
            }
        }
    } else {
        assert(s.take(s.len() as int) =~= s);
    }
}

/// Fractions are ordered as numbers of one width are, without the zeros they end
/// with.
pub proof fn lemma_fraction_order(n: nat, m: nat, width: nat)
    requires
        1 <= width,
        n < m < pow10(width),
    ensures
        before(
            without_trailing(zero_padded(n, width), '0'),
            without_trailing(zero_padded(m, width), '0'),
        ),
{
    let a = zero_padded(n, width);
    let b = zero_padded(m, width);
    lemma_padded(n, width);
    lemma_padded(m, width);
    let i = lemma_padded_differ(n, m, width);
    lemma_without_trailing(a, '0');
    lemma_without_trailing(b, '0');
    let x = without_trailing(a, '0');
    let y = without_trailing(b, '0');
    assert(b[i] > '0');
    assert(i < y.len());
    let at = if x.len() < i {
        x.len() as int
    } else {
        i
    };
    assert forall|j: int| 0 <= j < at implies x[j] == #[trigger] y[j] by {
        assert(a[j] == b[j]);
    }
    lemma_before_at(x, y, at);
}

} // verus!
