//! Pairing links and tokens.

use vstd::prelude::*;
use vstd::slice::slice_subrange;
use vstd::utf8::*;

use crate::text;
use crate::text_laws;

verus! {

/// URL scheme the Notizli pair page opens.
pub const SCHEME: &'static str = "notizli-sh";

// ---- tokens -----------------------------------------------------------------

/// A character of base64url.
pub open spec fn is_token_char(c: char) -> bool {
    'a' <= c <= 'z' || 'A' <= c <= 'Z' || '0' <= c <= '9' || c == '-' || c == '_' || c == '='
}

/// A well-formed pairing token: its prefix, then 8 to 512 characters of
/// base64url.
pub open spec fn well_formed(token: Seq<char>) -> bool {
    &&& text::begins(token, "ccp_pair_"@)
    &&& 8 <= token.len() - 9 <= 512
    &&& forall|i: int| 9 <= i < token.len() ==> is_token_char(#[trigger] token[i])
}

fn token_char(c: char) -> (r: bool)
    ensures
        r == is_token_char(c),
{
    ('a' <= c && c <= 'z') || ('A' <= c && c <= 'Z') || ('0' <= c && c <= '9') || c == '-' || c
        == '_' || c == '='
}

fn is_token(t: &[char]) -> (r: bool)
    ensures
        r == well_formed(t@),
{
    proof {
        reveal_strlit("ccp_pair_");
    }
    if !text::has_prefix(t, "ccp_pair_") {
        return false;
    }
    if t.len() < 17 || t.len() > 521 {
        return false;
    }
    let mut i: usize = 9;
    while i < t.len()
        invariant
            9 <= i <= t.len(),
            forall|j: int| 9 <= j < i ==> is_token_char(#[trigger] t@[j]),
        decreases t.len() - i,
    {
        if !token_char(t[i]) {
            return false;
        }
        i = i + 1;
    }
    true
}

/// A pairing token as issued by notizli.ch: `ccp_pair_` + base64url.
pub fn is_pairing_token(token: &str) -> (r: bool)
    ensures
        r == well_formed(token@),
{
    is_token(&text::chars_of(token))
}

// ---- percent-encoding -------------------------------------------------------

/// `%` in ASCII.
pub const PERCENT: u8 = 0x25;

/// `+` in ASCII.
pub const PLUS: u8 = 0x2B;

/// A space in ASCII.
pub const SPACE: u8 = 0x20;

/// The value of a hexadecimal digit, `0` to `9` and `a` to `f` in either case.
pub open spec fn hex_digit(b: u8) -> Option<u8> {
    if 0x30 <= b <= 0x39 {
        Some((b - 0x30) as u8)
    } else if 0x61 <= b <= 0x66 {
        Some((b - 0x61 + 10) as u8)
    } else if 0x41 <= b <= 0x46 {
        Some((b - 0x41 + 10) as u8)
    } else {
        None
    }
}

/// The value of what stands after a percent sign: two hexadecimal digits, or one
/// with a plus sign before it.
pub open spec fn hex_pair(a: u8, b: u8) -> Option<u8> {
    match hex_digit(b) {
        None => None,
        Some(low) => if a == PLUS {
            Some(low)
        } else {
            match hex_digit(a) {
                None => None,
                Some(high) => Some((high * 16 + low) as u8),
            }
        },
    }
}

/// Bytes with their escapes replaced, added to `out`; `None` when an escape is
/// not one.
pub open spec fn unescaped(b: Seq<u8>, out: Seq<u8>) -> Option<Seq<u8>>
    decreases b.len(),
{
    if b.len() == 0 {
        Some(out)
    } else if b[0] == PERCENT {
        if b.len() < 3 {
            None
        } else {
            match hex_pair(b[1], b[2]) {
                None => None,
                Some(v) => unescaped(b.skip(3), out.push(v)),
            }
        }
    } else if b[0] == PLUS {
        unescaped(b.skip(1), out.push(SPACE))
    } else {
        unescaped(b.skip(1), out.push(b[0]))
    }
}

/// Text with its escapes replaced; `None` when an escape is not one, or when what
/// comes out is not UTF-8.
pub open spec fn decoded(s: Seq<char>) -> Option<Seq<char>> {
    match unescaped(encode_utf8(s), Seq::empty()) {
        None => None,
        Some(b) => if valid_utf8(b) {
            Some(decode_utf8(b))
        } else {
            None
        },
    }
}

fn hex_of(b: u8) -> (r: Option<u8>)
    ensures
        r == hex_digit(b),
        r matches Some(d) ==> d < 16,
{
    if 0x30 <= b && b <= 0x39 {
        Some(b - 0x30)
    } else if 0x61 <= b && b <= 0x66 {
        Some(b - 0x61 + 10)
    } else if 0x41 <= b && b <= 0x46 {
        Some(b - 0x41 + 10)
    } else {
        None
    }
}

fn hex_pair_of(a: u8, b: u8) -> (r: Option<u8>)
    ensures
        r == hex_pair(a, b),
{
    match hex_of(b) {
        None => None,
        Some(low) => if a == PLUS {
            Some(low)
        } else {
            match hex_of(a) {
                None => None,
                Some(high) => Some(high * 16 + low),
            }
        },
    }
}

/// `String::from_utf8` gives the text of bytes that are UTF-8, and nothing for
/// others.
#[verifier::external_body]
fn utf8_text(bytes: Vec<u8>) -> (r: Option<String>)
    ensures
        match r {
            Some(s) => valid_utf8(bytes@) && s@ == decode_utf8(bytes@),
            None => !valid_utf8(bytes@),
        },
{
    String::from_utf8(bytes).ok()
}

pub fn percent_decode(s: &str) -> (r: Option<String>)
    ensures
        match decoded(s@) {
            Some(t) => r matches Some(x) && x@ == t,
            None => r is None,
        },
{
    let bytes = s.as_bytes();
    let mut out: Vec<u8> = Vec::new();
    let mut i: usize = 0;
    assert(bytes@.skip(0) == bytes@);
    while i < bytes.len()
        invariant
            i <= bytes.len(),
            bytes@ == encode_utf8(s@),
            unescaped(bytes@, Seq::empty()) == unescaped(bytes@.skip(i as int), out@),
        decreases bytes.len() - i,
    {
        let b = bytes[i];
        let ghost rest = bytes@.skip(i as int);
        assert(rest[0] == b);
        assert(rest.skip(1) == bytes@.skip(i + 1));
        if b == PERCENT {
            if bytes.len() - i < 3 {
                return None;
            }
            assert(rest[1] == bytes[i + 1] && rest[2] == bytes[i + 2]);
            assert(rest.skip(3) == bytes@.skip(i + 3));
            match hex_pair_of(bytes[i + 1], bytes[i + 2]) {
                None => {
                    return None;
                },
                Some(v) => {
                    out.push(v);
                },
            }
            i = i + 3;
        } else if b == PLUS {
            out.push(SPACE);
            i = i + 1;
        } else {
            out.push(b);
            i = i + 1;
        }
    }
    utf8_text(out)
}

// ---- links ------------------------------------------------------------------

/// The query of a pairing link: what follows `notizli-sh:pair?`, with any slashes
/// around the `pair` and in any case of letters.
pub open spec fn link_query(link: Seq<char>) -> Option<Seq<char>> {
    match text::split(text::trimmed(link), ':') {
        None => None,
        Some((scheme, rest)) => if text::lower(scheme) != SCHEME@ {
            None
        } else {
            match text::split(text::without_leading(rest, '/'), '?') {
                None => None,
                Some((target, query)) => if text::lower(text::without_trailing(target, '/'))
                    != "pair"@ {
                    None
                } else {
                    Some(query)
                },
            }
        },
    }
}

/// The value of the first `token=` in a query.
pub open spec fn token_param(query: Seq<char>) -> Option<Seq<char>>
    decreases query.len(),
{
    match text::split(query, '&') {
        None => if text::begins(query, "token="@) {
            Some(query.skip(6))
        } else {
            None
        },
        Some((kv, rest)) => if text::begins(kv, "token="@) {
            Some(kv.skip(6))
        } else if rest.len() < query.len() {
            token_param(rest)
        } else {
            None
        },
    }
}

/// The token of a pairing link.
pub open spec fn link_token(link: Seq<char>) -> Option<Seq<char>> {
    match link_query(link) {
        None => None,
        Some(query) => match token_param(query) {
            None => None,
            Some(value) => match decoded(value) {
                None => None,
                Some(token) => if well_formed(token) {
                    Some(token)
                } else {
                    None
                },
            },
        },
    }
}

/// The token in what the user pasted.
pub open spec fn pasted_token(paste: Seq<char>) -> Option<Seq<char>> {
    if well_formed(text::trimmed(paste)) {
        Some(text::trimmed(paste))
    } else {
        link_token(text::trimmed(paste))
    }
}

fn find_query<'a>(link: &'a [char]) -> (r: Option<&'a [char]>)
    ensures
        match link_query(link@) {
            Some(q) => r matches Some(x) && x@ == q,
            None => r is None,
        },
{
    let link = text::trim(link);
    match text::split_once(link, ':') {
        None => None,
        Some((scheme, rest)) => {
            if !text::same(&text::lowered(scheme), &text::chars_of(SCHEME)) {
                return None;
            }
            match text::split_once(text::cut_leading(rest, '/'), '?') {
                None => None,
                Some((target, query)) => {
                    let target = text::cut_trailing(target, '/');
                    if !text::same(&text::lowered(target), &text::chars_of("pair")) {
                        return None;
                    }
                    Some(query)
                },
            }
        },
    }
}

fn find_token(query: &[char]) -> (r: Option<String>)
    ensures
        match token_param(query@) {
            Some(v) => r matches Some(x) && x@ == v,
            None => r is None,
        },
    decreases query@.len(),
{
    proof {
        reveal_strlit("token=");
        text::lemma_place_of(query@, '&', 0);
    }
    match text::split_once(query, '&') {
        None => {
            if text::has_prefix(query, "token=") {
                let v = slice_subrange(query, 6, query.len());
                assert(v@ == query@.skip(6));
                Some(text::text_of(v))
            } else {
                None
            }
        },
        Some((kv, rest)) => {
            if text::has_prefix(kv, "token=") {
                let v = slice_subrange(kv, 6, kv.len());
                assert(v@ == kv@.skip(6));
                Some(text::text_of(v))
            } else {
                find_token(rest)
            }
        },
    }
}

/// The pairing token in a `notizli-sh://pair?token=…` link, if the link is
/// exactly that and the token is well-formed. Anything else is ignored.
pub fn token_from_link(link: &str) -> (r: Option<String>)
    ensures
        match link_token(link@) {
            Some(t) => r matches Some(x) && x@ == t,
            None => r is None,
        },
{
    match find_query(&text::chars_of(link)) {
        None => None,
        Some(query) => match find_token(query) {
            None => None,
            Some(value) => match percent_decode(&value) {
                None => None,
                Some(token) => if is_pairing_token(&token) {
                    Some(token)
                } else {
                    None
                },
            },
        },
    }
}

/// What the user pasted: a bare token, or a whole pairing link.
pub fn token_from_paste(paste: &str) -> (r: Option<String>)
    ensures
        match pasted_token(paste@) {
            Some(t) => r matches Some(x) && x@ == t,
            None => r is None,
        },
{
    let all = text::chars_of(paste);
    let t = text::trim(&all);
    if is_token(t) {
        return Some(text::text_of(t));
    }
    token_from_link(&text::text_of(t))
}

// ---- this computer ----------------------------------------------------------

/// The name of an operating system as people write it.
pub open spec fn os_name(os: Seq<char>) -> Seq<char> {
    if os == "windows"@ {
        "Windows"@
    } else if os == "macos"@ {
        "macOS"@
    } else {
        os
    }
}

/// "Desktop (Windows)" / "Desktop (macOS)".
pub fn device_label(os: &str) -> (label: String)
    ensures
        label@ == "Desktop ("@ + os_name(os@) + ")"@,
{
    let mut label = String::from_str("Desktop (");
    if text::same_text(os, "windows") {
        label.append("Windows");
    } else if text::same_text(os, "macos") {
        label.append("macOS");
    } else {
        label.append(os);
    }
    label.append(")");
    label
}

// ---- laws -------------------------------------------------------------------

/// Whatever comes out of a link or a paste is a well-formed token.
pub proof fn law_only_well_formed_tokens_come_out(s: Seq<char>)
    ensures
        link_token(s) matches Some(t) ==> well_formed(t),
        pasted_token(s) matches Some(t) ==> well_formed(t),
{
}

proof fn lemma_ascii_bytes(s: Seq<char>)
    requires
        forall|i: int| 0 <= i < s.len() ==> (#[trigger] s[i]) as u32 <= 0x7F,
    ensures
        encode_utf8(s).len() == s.len(),
        forall|i: int| 0 <= i < s.len() ==> (#[trigger] encode_utf8(s)[i]) as u32 == s[i] as u32,
    decreases s.len(),
{
    if s.len() > 0 {
        let c = s[0] as u32;
        let rest = s.drop_first();
        lemma_ascii_bytes(rest);
        assert((c & 0x7F) as u8 == c) by (bit_vector)
            requires
                c <= 0x7F,
        ;
        assert(encode_utf8(s) == seq![(c & 0x7F) as u8] + encode_utf8(rest));
        assert forall|i: int| 0 <= i < s.len() implies (#[trigger] encode_utf8(s)[i]) as u32
            == s[i] as u32 by {
            if i > 0 {
                assert(encode_utf8(s)[i] == encode_utf8(rest)[i - 1]);
                assert(rest[i - 1] == s[i]);
            }
        }
    }
}

proof fn lemma_nothing_escaped(b: Seq<u8>, out: Seq<u8>)
    requires
        forall|i: int| 0 <= i < b.len() ==> (#[trigger] b[i]) != PERCENT && b[i] != PLUS,
    ensures
        unescaped(b, out) == Some(out + b),
    decreases b.len(),
{
    if b.len() > 0 {
        let rest = b.skip(1);
        assert forall|i: int| 0 <= i < rest.len() implies (#[trigger] rest[i]) != PERCENT && rest[i]
            != PLUS by {
            assert(rest[i] == b[i + 1]);
        }
        lemma_nothing_escaped(rest, out.push(b[0]));
        assert(out.push(b[0]) + rest == out + b);
    } else {
        assert(out + b == out);
    }
}

/// A token has nothing in it to decode.
proof fn lemma_token_decodes(t: Seq<char>)
    requires
        well_formed(t),
    ensures
        decoded(t) == Some(t),
        forall|i: int|
            0 <= i < t.len() ==> (is_token_char(#[trigger] t[i]) && t[i] != '&' && t[i] != '%'
                && t[i] != '+' && t[i] as u32 <= 0x7F && !text::is_space(t[i])),
{
    reveal_strlit("ccp_pair_");
    assert forall|i: int| 0 <= i < t.len() implies is_token_char(#[trigger] t[i]) by {
        if i < 9 {
            assert(t[i] == t.take(9)[i]);
            assert(t[i] == "ccp_pair_"@[i]);
        }
    }
    lemma_ascii_bytes(t);
    let b = encode_utf8(t);
    assert forall|i: int| 0 <= i < b.len() implies (#[trigger] b[i]) != PERCENT && b[i] != PLUS by {
        assert(b[i] as u32 == t[i] as u32);
    }
    lemma_nothing_escaped(b, Seq::empty());
    assert(Seq::<u8>::empty() + b == b);
    encode_utf8_valid_utf8(t);
    encode_utf8_decode_utf8(t);
}

/// The link of a well-formed token gives that token back, and so does the token
/// pasted on its own.
pub proof fn law_links_carry_tokens(t: Seq<char>)
    requires
        well_formed(t),
    ensures
        link_token("notizli-sh://pair?token="@ + t) == Some(t),
        pasted_token(t) == Some(t),
{
    let link = "notizli-sh://pair?token="@ + t;
    reveal_strlit("notizli-sh://pair?token=");
    reveal_strlit("notizli-sh");
    reveal_strlit("pair");
    reveal_strlit("token=");
    lemma_token_decodes(t);
    assert(t.len() >= 17);
    assert(text::trimmed_start(link) == link);
    assert(link.last() == t[t.len() - 1]);
    assert(text::trimmed(link) == link);
    assert(text::trimmed_start(t) == t) by {
        assert(!text::is_space(t[0]));
    }
    assert(text::trimmed(t) == t) by {
        assert(!text::is_space(t[t.len() - 1]));
    }
    text::lemma_place_is(link, ':', 0, 10);
    let scheme = link.take(10);
    let rest = link.skip(11);
    assert(text::lower(scheme) == "notizli-sh"@);
    let r1 = rest.drop_first();
    let r2 = r1.drop_first();
    assert(rest[0] == '/' && r1[0] == '/' && r2[0] == 'p');
    assert(text::without_leading(r2, '/') == r2);
    assert(text::without_leading(r1, '/') == r2);
    assert(text::without_leading(rest, '/') == r2);
    assert(r2 == "pair?token="@ + t) by {
        reveal_strlit("pair?token=");
        assert(r2 =~= "pair?token="@ + t);
    }
    reveal_strlit("pair?token=");
    text::lemma_place_is(r2, '?', 0, 4);
    let target = r2.take(4);
    let query = r2.skip(5);
    assert(target.last() == 'r');
    assert(text::without_trailing(target, '/') == target);
    assert(text::lower(target) == "pair"@);
    assert(query =~= "token="@ + t);
    text::lemma_place_of(query, '&', 0);
    assert forall|j: int| 0 <= j < query.len() implies #[trigger] query[j] != '&' by {
        if j >= 6 {
            assert(query[j] == t[j - 6]);
        } else {
            assert(query[j] == "token="@[j]);
        }
    }
    assert(text::split(query, '&') is None);
    assert(query.take(6) == "token="@);
    assert(query.skip(6) == t);
}

/// The value of a hexadecimal digit in ASCII; -1 for any other byte.
pub open spec fn digit_value(b: u8) -> int {
    if 48 <= b <= 57 {
        b - 48
    } else if 65 <= b <= 70 {
        b - 55
    } else if 97 <= b <= 102 {
        b - 87
    } else {
        -1
    }
}

/// Decoding goes from left to right: a percent sign and two hexadecimal digits make one
/// byte, a plus sign makes a space, and any other byte stays. A plus sign may stand for
/// the first digit, and then counts nothing; what is no escape fails.
pub proof fn law_escapes_are_decoded(h: u8, l: u8, c: u8, rest: Seq<u8>, out: Seq<u8>)
    ensures
        unescaped(Seq::empty(), out) == Some(out),
        unescaped(seq![0x25u8, h, l] + rest, out) == if digit_value(l) < 0 || (h != 0x2B
            && digit_value(h) < 0) {
            None
        } else if h == 0x2B {
            unescaped(rest, out.push(digit_value(l) as u8))
        } else {
            unescaped(rest, out.push((16 * digit_value(h) + digit_value(l)) as u8))
        },
        unescaped(seq![0x25u8], out) is None,
        unescaped(seq![0x25u8, h], out) is None,
        unescaped(seq![0x2Bu8] + rest, out) == unescaped(rest, out.push(0x20)),
        c != 0x25 && c != 0x2B ==> unescaped(seq![c] + rest, out) == unescaped(rest, out.push(c)),
{
    let e = seq![0x25u8, h, l] + rest;
    assert(e[0] == 0x25 && e[1] == h && e[2] == l);
    assert(e.skip(3) =~= rest);
    let p = seq![0x2Bu8] + rest;
    assert(p[0] == 0x2B);
    assert(p.skip(1) =~= rest);
    let o = seq![c] + rest;
    assert(o[0] == c);
    assert(o.skip(1) =~= rest);
}

/// A character of a token: an ASCII letter or digit, a hyphen, an underscore or an
/// equals sign.
pub open spec fn is_plain(c: char) -> bool {
    c == '-' || c == '_' || c == '=' || '0' <= c <= '9' || 'A' <= c <= 'Z' || 'a' <= c <= 'z'
}

/// A token is `ccp_pair_` and 8 to 512 plain characters.
pub proof fn law_tokens_have_a_form(t: Seq<char>)
    ensures
        well_formed(t) <==> 17 <= t.len() <= 521 && (forall|i: int|
            0 <= i < 9 ==> #[trigger] t[i] == "ccp_pair_"@[i]) && forall|i: int|
            9 <= i < t.len() ==> is_plain(#[trigger] t[i]),
{
    reveal_strlit("ccp_pair_");
    text_laws::law_finding_compares_characters(t, "ccp_pair_"@);
    let p = "ccp_pair_"@;
    if well_formed(t) {
        assert forall|i: int| 0 <= i < 9 implies #[trigger] t[i] == p[i] by {}
        assert forall|i: int| 9 <= i < t.len() implies is_plain(#[trigger] t[i]) by {
            assert(is_token_char(t[i]));
        }
    }
    if 17 <= t.len() <= 521 && (forall|i: int| 0 <= i < 9 ==> #[trigger] t[i] == p[i]) && (forall|
        i: int,
    |
        9 <= i < t.len() ==> is_plain(#[trigger] t[i])) {
        assert(t.take(9) =~= p) by {
            assert forall|i: int| 0 <= i < 9 implies t.take(9)[i] == p[i] by {
                assert(t[i] == p[i]);
            }
        }
        assert forall|i: int| 9 <= i < t.len() implies is_token_char(#[trigger] t[i]) by {
            assert(is_plain(t[i]));
        }
    }
}

/// The parts of a pairing link: its scheme and its target in any case of letters, with
/// any number of slashes before and after the target, and its query.
pub open spec fn is_link(
    s: Seq<char>,
    scheme: Seq<char>,
    a: nat,
    target: Seq<char>,
    b: nat,
    query: Seq<char>,
) -> bool {
    &&& s == scheme.push(':') + (text::row('/', a) + ((target + text::row('/', b)).push('?')
        + query))
    &&& text::lower(scheme) == "notizli-sh"@
    &&& text::lower(target) == "pair"@
}

/// No character that is not a letter becomes another one in lower case.
proof fn lemma_lower_lacks(s: Seq<char>, t: Seq<char>, c: char)
    requires
        text::lower(s) == t,
        !('A' <= c <= 'Z'),
        !t.contains(c),
    ensures
        !s.contains(c),
{
    if s.contains(c) {
        let i = choose|i: int| 0 <= i < s.len() && s[i] == c;
        assert(text::lower(s)[i] == c);
        assert(t[i] == c);
    }
}

proof fn lemma_parted(s: Seq<char>, c: char)
    requires
        text::split(s, c) is Some,
    ensures
        ({
            let (a, b) = text::split(s, c)->0;
            s == a.push(c) + b
        }),
{
    text_laws::law_splitting_is_at_the_first(s, c);
}

proof fn lemma_slashes_before(s: Seq<char>, c: char)
    ensures
        ({
            let rest = text::without_leading(s, c);
            rest.len() <= s.len() && s == text::row(c, (s.len() - rest.len()) as nat) + rest
        }),
{
    text_laws::law_cutting_takes_one_character_at_an_end(s, c);
    let rest = text::without_leading(s, c);
    assert(s =~= text::row(c, (s.len() - rest.len()) as nat) + rest);
}

proof fn lemma_slashes_after(s: Seq<char>, c: char)
    ensures
        ({
            let front = text::without_trailing(s, c);
            front.len() <= s.len() && s == front + text::row(c, (s.len() - front.len()) as nat)
        }),
{
    text_laws::law_cutting_takes_one_character_at_an_end(s, c);
    let front = text::without_trailing(s, c);
    assert(s =~= front + text::row(c, (s.len() - front.len()) as nat));
}

/// Whatever is taken for a pairing link has such parts.
pub proof fn law_links_have_parts(link: Seq<char>, query: Seq<char>)
    requires
        link_query(link) == Some(query),
    ensures
        exists|scheme: Seq<char>, a: nat, target: Seq<char>, b: nat| #[trigger]
            is_link(text::trimmed(link), scheme, a, target, b, query),
{
    let s = text::trimmed(link);
    let (scheme, rest) = text::split(s, ':')->0;
    lemma_parted(s, ':');
    let more = text::without_leading(rest, '/');
    lemma_slashes_before(rest, '/');
    let (full, q) = text::split(more, '?')->0;
    lemma_parted(more, '?');
    let target = text::without_trailing(full, '/');
    lemma_slashes_after(full, '/');
    let a = (rest.len() - more.len()) as nat;
    let b = (full.len() - target.len()) as nat;
    assert(q == query);
    assert(is_link(s, scheme, a, target, b, query));
}

proof fn lemma_leading(n: nat, x: Seq<char>, c: char)
    requires
        x.len() > 0,
        x[0] != c,
    ensures
        text::without_leading(text::row(c, n) + x, c) == x,
    decreases n,
{
    let s = text::row(c, n) + x;
    if n == 0 {
        assert(s =~= x);
    } else {
        assert(s.drop_first() =~= text::row(c, (n - 1) as nat) + x);
        lemma_leading((n - 1) as nat, x, c);
    }
}

proof fn lemma_trailing(n: nat, x: Seq<char>, c: char)
    requires
        x.len() > 0,
        x.last() != c,
    ensures
        text::without_trailing(x + text::row(c, n), c) == x,
    decreases n,
{
    let s = x + text::row(c, n);
    if n == 0 {
        assert(s =~= x);
    } else {
        assert(s.drop_last() =~= x + text::row(c, (n - 1) as nat));
        lemma_trailing((n - 1) as nat, x, c);
    }
}

proof fn lemma_split(a: Seq<char>, c: char, b: Seq<char>)
    requires
        !a.contains(c),
    ensures
        text::split(a.push(c) + b, c) == Some((a, b)),
{
    let s = a.push(c) + b;
    assert forall|j: int| 0 <= j < a.len() implies #[trigger] s[j] != c by {
        assert(a.contains(a[j]));
    }
    text::lemma_place_is(s, c, 0, a.len() as int);
    assert(s.take(a.len() as int) =~= a);
    assert(s.skip(a.len() as int + 1) =~= b);
}

/// A link of such parts is a pairing link.
pub proof fn law_parts_make_a_link(
    link: Seq<char>,
    scheme: Seq<char>,
    a: nat,
    target: Seq<char>,
    b: nat,
    query: Seq<char>,
)
    requires
        is_link(text::trimmed(link), scheme, a, target, b, query),
    ensures
        link_query(link) == Some(query),
{
    reveal_strlit("notizli-sh");
    reveal_strlit("pair");
    let full = target + text::row('/', b);
    let more = full.push('?') + query;
    let rest = text::row('/', a) + more;
    lemma_lower_lacks(scheme, "notizli-sh"@, ':');
    lemma_split(scheme, ':', rest);
    lemma_lower_lacks(target, "pair"@, '/');
    lemma_lower_lacks(target, "pair"@, '?');
    assert(target.len() == 4) by {
        assert(text::lower(target).len() == target.len());
    }
    assert(target.contains(target[0]) && target.contains(target[3]));
    assert(more[0] == target[0]);
    lemma_leading(a, more, '/');
    assert(!full.contains('?')) by {
        if full.contains('?') {
            let i = choose|i: int| 0 <= i < full.len() && full[i] == '?';
            if i < 4 {
                assert(target[i] == '?');
                assert(target.contains(target[i]));
            }
        }
    }
    lemma_split(full, '?', query);
    lemma_trailing(b, target, '/');
}

/// The token of a query is the value of its first parameter named `token`; the
/// parameters stand between ampersands.
pub proof fn law_the_first_token_counts(kv: Seq<char>, rest: Seq<char>)
    requires
        !kv.contains('&'),
    ensures
        token_param(kv) == if text::begins(kv, "token="@) {
            Some(kv.skip(6))
        } else {
            None
        },
        token_param(kv.push('&') + rest) == if text::begins(kv, "token="@) {
            Some(kv.skip(6))
        } else {
            token_param(rest)
        },
{
    lemma_split(kv, '&', rest);
    text::lemma_place_of(kv, '&', 0);
    if let Some(p) = text::place_of(kv, '&', 0) {
        assert(kv.contains(kv[p]));
    }
}

/// A pairing token comes from a link's query, decoded, if it is well-formed; or from
/// the paste itself, without the white space around it.
pub proof fn law_tokens_come_from_links_and_pastes(s: Seq<char>, t: Seq<char>)
    ensures
        link_token(s) == Some(t) <==> (link_query(s) matches Some(q) && (token_param(
            q,
        ) matches Some(v) && decoded(v) == Some(t) && well_formed(t))),
        well_formed(text::trimmed(s)) ==> pasted_token(s) == Some(text::trimmed(s)),
        !well_formed(text::trimmed(s)) ==> pasted_token(s) == link_token(text::trimmed(s)),
{
}

/// Windows and macOS are called by their names, and any other system as it calls
/// itself.
pub proof fn law_systems_are_called_by_their_names(os: Seq<char>)
    ensures
        os == "windows"@ ==> os_name(os) == "Windows"@,
        os == "macos"@ ==> os_name(os) == "macOS"@,
        os != "windows"@ && os != "macos"@ ==> os_name(os) == os,
{
    reveal_strlit("windows");
    reveal_strlit("macos");
    assert("windows"@.len() == 7 && "macos"@.len() == 5);
}

} // verus!
