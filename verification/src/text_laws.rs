//! What the functions on text do, character by character.

use vstd::prelude::*;

use crate::text;

verus! {

// ---- finding ----------------------------------------------------------------

/// A text begins, ends and holds another where its characters are the other's.
pub proof fn law_finding_compares_characters(s: Seq<char>, p: Seq<char>)
    ensures
        text::begins(s, p) <==> p.len() <= s.len() && forall|i: int|
            0 <= i < p.len() ==> s[i] == #[trigger] p[i],
        text::finishes(s, p) <==> p.len() <= s.len() && forall|i: int|
            0 <= i < p.len() ==> s[s.len() - p.len() + i] == #[trigger] p[i],
        text::holds(s, p) <==> exists|k: int|
            0 <= k <= s.len() - p.len() && #[trigger] matches_at(s, p, k),
{
    assert(text::begins(s, p) <==> p.len() <= s.len() && forall|i: int|
        0 <= i < p.len() ==> s[i] == #[trigger] p[i]) by {
        if p.len() <= s.len() {
            let t = s.take(p.len() as int);
            if t == p {
                assert forall|i: int| 0 <= i < p.len() implies s[i] == #[trigger] p[i] by {
                    assert(t[i] == s[i]);
                }
            }
            if forall|i: int| 0 <= i < p.len() ==> s[i] == #[trigger] p[i] {
                assert(t =~= p);
            }
        }
    }
    assert(text::finishes(s, p) <==> p.len() <= s.len() && forall|i: int|
        0 <= i < p.len() ==> s[s.len() - p.len() + i] == #[trigger] p[i]) by {
        if p.len() <= s.len() {
            let t = s.skip(s.len() - p.len());
            if t == p {
                assert forall|i: int| 0 <= i < p.len() implies s[s.len() - p.len() + i]
                    == #[trigger] p[i] by {
                    assert(t[i] == s[s.len() - p.len() + i]);
                }
            }
            if forall|i: int| 0 <= i < p.len() ==> s[s.len() - p.len() + i] == #[trigger] p[i] {
                assert(t =~= p);
            }
        }
    }
    assert forall|k: int| #[trigger] text::stands(s, p, k) <==> 0 <= k <= s.len() - p.len()
        && matches_at(s, p, k) by {
        if 0 <= k <= s.len() - p.len() {
            let t = s.subrange(k, k + p.len());
            if t == p {
                assert forall|i: int| 0 <= i < p.len() implies s[k + i] == #[trigger] p[i] by {
                    assert(t[i] == s[k + i]);
                }
            }
            if matches_at(s, p, k) {
                assert(t =~= p);
            }
        }
    }
    if text::holds(s, p) {
        let k = choose|k: int| text::stands(s, p, k);
        assert(matches_at(s, p, k));
    }
    if exists|k: int| 0 <= k <= s.len() - p.len() && #[trigger] matches_at(s, p, k) {
        let k = choose|k: int| 0 <= k <= s.len() - p.len() && #[trigger] matches_at(s, p, k);
        assert(text::stands(s, p, k));
    }
}

/// The characters of `p` are those of `s` from `k` on.
pub open spec fn matches_at(s: Seq<char>, p: Seq<char>, k: int) -> bool {
    forall|i: int| 0 <= i < p.len() ==> s[k + i] == #[trigger] p[i]
}

/// In lower case the letters A to Z are a to z, and all else is the same.
pub proof fn law_lower_case_changes_letters_alone(s: Seq<char>, i: int)
    requires
        0 <= i < s.len(),
    ensures
        text::lower(s).len() == s.len(),
        65 <= s[i] as u32 <= 90 ==> text::lower(s)[i] as u32 == s[i] as u32 + 32,
        !(65 <= s[i] as u32 <= 90) ==> text::lower(s)[i] == s[i],
{
}

/// The texts agree in their first `k` characters, and there the first one ends, or has
/// the lower character.
pub open spec fn parts_at(a: Seq<char>, b: Seq<char>, k: int) -> bool {
    &&& 0 <= k <= a.len()
    &&& k < b.len()
    &&& forall|i: int| 0 <= i < k ==> #[trigger] a[i] == b[i]
    &&& k == a.len() || a[k] < b[k]
}

/// A text comes before another by the first character in which they differ; one that
/// the other begins with comes first.
pub proof fn law_texts_are_ordered_by_their_characters(a: Seq<char>, b: Seq<char>)
    ensures
        text::before(a, b) <==> exists|k: int| #[trigger] parts_at(a, b, k),
    decreases a.len(),
{
    if a.len() > 0 && b.len() > 0 && a[0] == b[0] {
        let c = a.drop_first();
        let d = b.drop_first();
        law_texts_are_ordered_by_their_characters(c, d);
        if text::before(a, b) {
            let k = choose|k: int| #[trigger] parts_at(c, d, k);
            assert forall|i: int| 0 <= i < k + 1 implies #[trigger] a[i] == b[i] by {
                if i > 0 {
                    assert(c[i - 1] == d[i - 1]);
                }
            }
            assert(parts_at(a, b, k + 1));
        }
        if exists|k: int| #[trigger] parts_at(a, b, k) {
            let k = choose|k: int| #[trigger] parts_at(a, b, k);
            assert(k > 0);
            assert forall|i: int| 0 <= i < k - 1 implies #[trigger] c[i] == d[i] by {
                assert(a[i + 1] == b[i + 1]);
            }
            assert(parts_at(c, d, k - 1));
        }
    } else if text::before(a, b) {
        assert(parts_at(a, b, 0));
    } else if exists|k: int| #[trigger] parts_at(a, b, k) {
        let k = choose|k: int| #[trigger] parts_at(a, b, k);
        if k > 0 {
            assert(a[0] == b[0]);
        }
    }
}

// ---- cutting ----------------------------------------------------------------

/// The white space of Unicode.
pub open spec fn is_white(c: char) -> bool {
    let n = c as u32;
    9 <= n <= 13 || n == 32 || n == 0x85 || n == 0xA0 || n == 0x1680 || 0x2000 <= n <= 0x200A || n
        == 0x2028 || n == 0x2029 || n == 0x202F || n == 0x205F || n == 0x3000
}

proof fn lemma_trimmed_start(s: Seq<char>) -> (a: int)
    ensures
        0 <= a <= s.len(),
        text::trimmed_start(s) == s.skip(a),
        forall|i: int| 0 <= i < a ==> is_white(#[trigger] s[i]),
        a < s.len() ==> !is_white(s[a]),
    decreases s.len(),
{
    if s.len() > 0 && is_white(s[0]) {
        let t = s.drop_first();
        let a = lemma_trimmed_start(t);
        assert(t.skip(a) =~= s.skip(a + 1));
        assert forall|i: int| 0 <= i < a + 1 implies is_white(#[trigger] s[i]) by {
            if i > 0 {
                assert(t[i - 1] == s[i]);
            }
        }
        a + 1
    } else {
        assert(s.skip(0) =~= s);
        0
    }
}

proof fn lemma_trimmed_end(s: Seq<char>) -> (b: int)
    ensures
        0 <= b <= s.len(),
        text::trimmed_end(s) == s.take(b),
        forall|i: int| b <= i < s.len() ==> is_white(#[trigger] s[i]),
        b > 0 ==> !is_white(s[b - 1]),
    decreases s.len(),
{
    if s.len() > 0 && is_white(s.last()) {
        let t = s.drop_last();
        let b = lemma_trimmed_end(t);
        assert(t.take(b) =~= s.take(b));
        assert forall|i: int| b <= i < s.len() implies is_white(#[trigger] s[i]) by {
            if i < t.len() {
                assert(t[i] == s[i]);
            }
        }
        b
    } else {
        assert(s.take(s.len() as int) =~= s);
        s.len() as int
    }
}

/// The part of `s` from `a` to `b` is what is left when it is trimmed.
pub open spec fn is_core(s: Seq<char>, a: int, b: int) -> bool {
    &&& 0 <= a <= b <= s.len()
    &&& forall|i: int| 0 <= i < a || b <= i < s.len() ==> is_white(#[trigger] s[i])
    &&& a < b ==> !is_white(s[a]) && !is_white(s[b - 1])
}

/// Trimming takes away all white space at both ends, and nothing else.
pub proof fn law_trimming_takes_white_space_at_the_ends(s: Seq<char>)
    ensures
        exists|a: int, b: int| #[trigger] is_core(s, a, b) && text::trimmed(s) == s.subrange(a, b),
{
    let a = lemma_trimmed_start(s);
    let t = s.skip(a);
    let b = lemma_trimmed_end(t);
    assert(t.take(b) =~= s.subrange(a, a + b));
    assert forall|i: int| 0 <= i < a || a + b <= i < s.len() implies is_white(#[trigger] s[i]) by {
        if i >= a + b {
            assert(t[i - a] == s[i]);
        }
    }
    if b > 0 {
        assert(t[b - 1] == s[a + b - 1]);
    }
    assert(is_core(s, a, a + b));
}

/// Cutting a character off an end takes all of them there, and nothing else.
pub proof fn law_cutting_takes_one_character_at_an_end(s: Seq<char>, c: char)
    ensures
        ({
            let front = text::without_trailing(s, c);
            let n = front.len() as int;
            &&& n <= s.len()
            &&& front == s.take(n)
            &&& forall|i: int| n <= i < s.len() ==> #[trigger] s[i] == c
            &&& n > 0 ==> s[n - 1] != c
        }),
        ({
            let rest = text::without_leading(s, c);
            let n = s.len() - rest.len();
            &&& n >= 0
            &&& rest == s.skip(n)
            &&& forall|i: int| 0 <= i < n ==> #[trigger] s[i] == c
            &&& n < s.len() ==> s[n] != c
        }),
{
    lemma_cut_end(s, c);
    lemma_cut_start(s, c);
}

proof fn lemma_cut_end(s: Seq<char>, c: char)
    ensures
        ({
            let front = text::without_trailing(s, c);
            let n = front.len() as int;
            &&& n <= s.len()
            &&& front == s.take(n)
            &&& forall|i: int| n <= i < s.len() ==> #[trigger] s[i] == c
            &&& n > 0 ==> s[n - 1] != c
        }),
    decreases s.len(),
{
    if s.len() > 0 && s.last() == c {
        let t = s.drop_last();
        lemma_cut_end(t, c);
        let n = text::without_trailing(t, c).len() as int;
        assert(t.take(n) =~= s.take(n));
        assert forall|i: int| n <= i < s.len() implies #[trigger] s[i] == c by {
            if i < t.len() {
                assert(t[i] == s[i]);
            }
        }
    } else {
        assert(s.take(s.len() as int) =~= s);
    }
}

proof fn lemma_cut_start(s: Seq<char>, c: char)
    ensures
        ({
            let rest = text::without_leading(s, c);
            let n = s.len() - rest.len();
            &&& n >= 0
            &&& rest == s.skip(n)
            &&& forall|i: int| 0 <= i < n ==> #[trigger] s[i] == c
            &&& n < s.len() ==> s[n] != c
        }),
    decreases s.len(),
{
    if s.len() > 0 && s[0] == c {
        let t = s.drop_first();
        lemma_cut_start(t, c);
        let n = t.len() - text::without_leading(t, c).len();
        assert(t.skip(n) =~= s.skip(n + 1));
        assert forall|i: int| 0 <= i < n + 1 implies #[trigger] s[i] == c by {
            if i > 0 {
                assert(t[i - 1] == s[i]);
            }
        }
    } else {
        assert(s.skip(0) =~= s);
    }
}

/// Splitting at a character parts a text at the first one there is.
pub proof fn law_splitting_is_at_the_first(s: Seq<char>, c: char)
    ensures
        match text::split(s, c) {
            Some((a, b)) => s == a.push(c) + b && !a.contains(c),
            None => !s.contains(c),
        },
{
    text::lemma_place_of(s, c, 0);
    if let Some(p) = text::place_of(s, c, 0) {
        let a = s.take(p);
        assert(s =~= a.push(c) + s.skip(p + 1));
        assert(!a.contains(c)) by {
            if a.contains(c) {
                let i = choose|i: int| 0 <= i < a.len() && a[i] == c;
                assert(s[i] == c);
            }
        }
    }
}

/// A shortened text is the first characters of the text, as many as asked for or all
/// of them.
pub proof fn law_shortening_keeps_the_first_characters(s: Seq<char>, n: nat)
    ensures
        text::shortened(s, n).len() == if s.len() < n {
            s.len()
        } else {
            n
        },
        forall|i: int|
            0 <= i < text::shortened(s, n).len() ==> #[trigger] text::shortened(s, n)[i] == s[i],
{
}

// ---- numbers ----------------------------------------------------------------

pub open spec fn is_digit(c: char) -> bool {
    48 <= c as u32 <= 57
}

/// The number that decimal digits spell.
pub open spec fn spelled(s: Seq<char>) -> int
    decreases s.len(),
{
    if s.len() == 0 {
        0
    } else {
        10 * spelled(s.drop_last()) + (s.last() as u32 - 48)
    }
}

proof fn lemma_decimal(n: nat)
    ensures
        text::decimal(n).len() > 0,
        forall|i: int|
            0 <= i < text::decimal(n).len() ==> is_digit(#[trigger] text::decimal(n)[i]),
        spelled(text::decimal(n)) == n,
        n > 0 ==> text::decimal(n)[0] as u32 != 48,
        n < 10 ==> text::decimal(n).len() == 1,
    decreases n,
{
    let s = text::decimal(n);
    if n < 10 {
        assert(spelled(s.drop_last()) == 0);
    } else {
        lemma_decimal(n / 10);
        let t = text::decimal(n / 10);
        assert(s.drop_last() =~= t);
        assert forall|i: int| 0 <= i < s.len() implies is_digit(#[trigger] s[i]) by {
            if i < t.len() {
                assert(is_digit(t[i]));
            }
        }
        assert(s[0] == t[0]);
    }
}

proof fn lemma_zeros(n: nat, s: Seq<char>)
    ensures
        spelled(text::row('0', n) + s) == spelled(s),
    decreases s.len(),
{
    let z = text::row('0', n);
    if s.len() == 0 {
        assert(z + s =~= z);
        lemma_all_zeros(n);
    } else {
        lemma_zeros(n, s.drop_last());
        assert((z + s).drop_last() =~= z + s.drop_last());
    }
}

proof fn lemma_all_zeros(n: nat)
    ensures
        spelled(text::row('0', n)) == 0,
    decreases n,
{
    if n > 0 {
        lemma_all_zeros((n - 1) as nat);
        assert(text::row('0', n).drop_last() =~= text::row('0', (n - 1) as nat));
    }
}

/// A number is written with its decimal digits, without leading zeros; with a width it
/// has at least so many, and zeros alone are added.
pub proof fn law_numbers_are_written_in_decimal(n: nat, width: nat)
    ensures
        ({
            let s = text::decimal(n);
            &&& spelled(s) == n
            &&& s.len() > 0
            &&& forall|i: int| 0 <= i < s.len() ==> is_digit(#[trigger] s[i])
            &&& s.len() > 1 ==> s[0] as u32 != 48
        }),
        ({
            let s = text::zero_padded(n, width);
            &&& spelled(s) == n
            &&& forall|i: int| 0 <= i < s.len() ==> is_digit(#[trigger] s[i])
            &&& s.len() == if text::decimal(n).len() < width {
                width
            } else {
                text::decimal(n).len()
            }
        }),
        text::signed(-n) == if n == 0 {
            text::decimal(n)
        } else {
            "-"@ + text::decimal(n)
        },
        text::signed(n as int) == text::decimal(n),
{
    lemma_decimal(n);
    let s = text::decimal(n);
    if s.len() < width {
        let k = (width - s.len()) as nat;
        lemma_zeros(k, s);
        let p = text::zero_padded(n, width);
        assert forall|i: int| 0 <= i < p.len() implies is_digit(#[trigger] p[i]) by {
            if i >= k {
                assert(is_digit(s[i - k]));
            }
        }
    }
}

/// Filling up puts the character before the text, or after it, until it is wide
/// enough, and leaves a text that is.
pub proof fn law_filling_up_makes_a_text_wide_enough(s: Seq<char>, width: nat, fill: char)
    ensures
        ({
            let l = text::padded(s, width, fill);
            let r = text::padded_right(s, width, fill);
            let n: nat = if s.len() < width {
                width
            } else {
                s.len()
            };
            let k = n - s.len();
            &&& l.len() == n && r.len() == n
            &&& forall|i: int| 0 <= i < k ==> #[trigger] l[i] == fill
            &&& forall|i: int| 0 <= i < s.len() ==> l[k + i] == #[trigger] s[i]
            &&& forall|i: int| 0 <= i < s.len() ==> r[i] == #[trigger] s[i]
            &&& forall|i: int| s.len() <= i < n ==> #[trigger] r[i] == fill
        }),
{
}

} // verus!
