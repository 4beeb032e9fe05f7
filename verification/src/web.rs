//! What the web panel is asked for, and what it answers.

use vstd::prelude::*;
use vstd::string::*;
use crate::hexcode::{hex_text, hex_value};
use crate::storage::TorrentEntry;
use crate::text::{chars_of, same_text};
use crate::types::info_hash_of;

verus! {

// ---------------------------------------------------------------------------
// Info-hashes and magnet links
// ---------------------------------------------------------------------------

/// White space, as Unicode has it.
pub open spec fn is_space(c: char) -> bool {
    ||| '\u{9}' <= c <= '\u{d}'
    ||| c == ' '
    ||| c == '\u{85}'
    ||| c == '\u{a0}'
    ||| c == '\u{1680}'
    ||| '\u{2000}' <= c <= '\u{200a}'
    ||| c == '\u{2028}'
    ||| c == '\u{2029}'
    ||| c == '\u{202f}'
    ||| c == '\u{205f}'
    ||| c == '\u{3000}'
}

/// A text without white space at its front.
pub open spec fn trim_front(s: Seq<char>) -> Seq<char>
    decreases s.len(),
{
    if s.len() > 0 && is_space(s[0]) {
        trim_front(s.skip(1))
    } else {
        s
    }
}

/// A text without white space at its end.
pub open spec fn trim_end(s: Seq<char>) -> Seq<char>
    decreases s.len(),
{
    if s.len() > 0 && is_space(s.last()) {
        trim_end(s.drop_last())
    } else {
        s
    }
}

/// A text without white space around it.
pub open spec fn trimmed(s: Seq<char>) -> Seq<char> {
    trim_end(trim_front(s))
}

/// A text stands at the front of another.
pub open spec fn begins_with(s: Seq<char>, p: Seq<char>) -> bool {
    p.len() <= s.len() && s.take(p.len() as int) == p
}

/// A hexadecimal digit.
pub open spec fn is_hex(c: char) -> bool {
    '0' <= c <= '9' || 'a' <= c <= 'f' || 'A' <= c <= 'F'
}

/// A hexadecimal digit in lower case.
pub open spec fn lower(c: char) -> char {
    if 'A' <= c <= 'F' {
        (c as u32 + 32) as char
    } else {
        c
    }
}

/// The info-hash that a text writes: forty hexadecimal digits, in lower case.
pub open spec fn hash_of(s: Seq<char>) -> Option<Seq<char>> {
    if s.len() == 40 && forall|i: int| 0 <= i < s.len() ==> is_hex(#[trigger] s[i]) {
        Some(s.map_values(|c: char| lower(c)))
    } else {
        None
    }
}

/// The info-hash that a part of a magnet link names.
pub open spec fn part_hash(part: Seq<char>) -> Option<Seq<char>> {
    if begins_with(part, "xt=urn:btih:"@) {
        hash_of(part.skip("xt=urn:btih:"@.len() as int))
    } else {
        None
    }
}

/// Where the first part of a magnet link ends.
pub open spec fn part_end(s: Seq<char>) -> int
    decreases s.len(),
{
    if s.len() == 0 || s[0] == '&' {
        0
    } else {
        1 + part_end(s.skip(1))
    }
}

proof fn lemma_part_end(s: Seq<char>)
    ensures
        0 <= part_end(s) <= s.len(),
        part_end(s) < s.len() ==> s[part_end(s)] == '&',
        forall|i: int| 0 <= i < part_end(s) ==> #[trigger] s[i] != '&',
    decreases s.len(),
{
    if s.len() > 0 && s[0] != '&' {
        let t = s.skip(1);
        lemma_part_end(t);
        assert forall|i: int| 0 <= i < part_end(s) implies #[trigger] s[i] != '&' by {
            if i > 0 {
                assert(t[i - 1] == s[i]);
            }
        }
    }
}

proof fn lemma_part_end_is(s: Seq<char>, e: int)
    requires
        0 <= e <= s.len(),
        e < s.len() ==> s[e] == '&',
        forall|i: int| 0 <= i < e ==> #[trigger] s[i] != '&',
    ensures
        part_end(s) == e,
{
    lemma_part_end(s);
    let p = part_end(s);
    if p < e {
        assert(s[p] != '&');
    } else if e < p {
        assert(s[e] != '&');
    }
}

/// The first info-hash that the parts of a magnet link name.
pub open spec fn link_hash(s: Seq<char>) -> Option<Seq<char>>
    decreases s.len(),
    via link_hash_ends
{
    let e = part_end(s);
    match part_hash(s.take(e)) {
        Some(h) => Some(h),
        None => if e < s.len() {
            link_hash(s.skip(e + 1))
        } else {
            None
        },
    }
}

#[via_fn]
proof fn link_hash_ends(s: Seq<char>) {
    lemma_part_end(s);
}

/// The info-hash that an input names: a magnet link or the hash itself.
pub open spec fn infohash_in(input: Seq<char>) -> Option<Seq<char>> {
    let s = trimmed(input);
    if begins_with(s, "magnet:"@) {
        link_hash(
            if begins_with(s, "magnet:?"@) {
                s.skip("magnet:?"@.len() as int)
            } else {
                s
            },
        )
    } else {
        hash_of(s)
    }
}

fn space(c: char) -> (r: bool)
    ensures
        r == is_space(c),
{
    ('\u{9}' <= c && c <= '\u{d}') || c == ' ' || c == '\u{85}' || c == '\u{a0}' || c == '\u{1680}'
        || ('\u{2000}' <= c && c <= '\u{200a}') || c == '\u{2028}' || c == '\u{2029}' || c
        == '\u{202f}' || c == '\u{205f}' || c == '\u{3000}'
}

/// The part of a text from `a` up to `b`.
fn piece(s: &Vec<char>, a: usize, b: usize) -> (r: Vec<char>)
    requires
        a <= b <= s@.len(),
    ensures
        r@ == s@.subrange(a as int, b as int),
{
    let mut out: Vec<char> = Vec::new();
    let mut i: usize = a;
    while i < b
        invariant
            a <= i <= b <= s@.len(),
            out@ =~= s@.subrange(a as int, i as int),
        decreases b - i,
    {
        out.push(s[i]);
        i += 1;
    }
    out
}

/// The characters of a text without white space around it.
fn trim(s: &str) -> (r: Vec<char>)
    ensures
        r@ == trimmed(s@),
{
    let chars = chars_of(s);
    let n = chars.len();
    let mut a: usize = 0;
    assert(chars@.skip(0) =~= chars@);
    while a < n && space(chars[a])
        invariant
            a <= n == chars@.len(),
            trim_front(chars@) == trim_front(chars@.skip(a as int)),
        decreases n - a,
    {
        assert(chars@.skip(a as int)[0] == chars@[a as int]);
        assert(chars@.skip(a as int).skip(1) =~= chars@.skip(a + 1));
        a += 1;
    }
    assert(trim_front(chars@) == chars@.skip(a as int)) by {
        if a < n {
            assert(chars@.skip(a as int)[0] == chars@[a as int]);
        }
    }
    let mut b: usize = n;
    assert(chars@.subrange(a as int, n as int) =~= chars@.skip(a as int));
    while b > a && space(chars[b - 1])
        invariant
            a <= b <= n == chars@.len(),
            trim_end(chars@.skip(a as int)) == trim_end(chars@.subrange(a as int, b as int)),
        decreases b,
    {
        let ghost cut = chars@.subrange(a as int, b as int);
        assert(cut.last() == chars@[b - 1]);
        assert(cut.drop_last() =~= chars@.subrange(a as int, b - 1));
        b -= 1;
    }
    assert(trim_end(chars@.skip(a as int)) == chars@.subrange(a as int, b as int)) by {
        if b > a {
            assert(chars@.subrange(a as int, b as int).last() == chars@[b - 1]);
        }
    }
    piece(&chars, a, b)
}

/// Whether a text stands at the front of another.
fn starts(s: &Vec<char>, p: &str) -> (r: bool)
    ensures
        r == begins_with(s@, p@),
{
    let q = chars_of(p);
    if q.len() > s.len() {
        return false;
    }
    let mut i: usize = 0;
    while i < q.len()
        invariant
            i <= q@.len() <= s@.len(),
            q@ == p@,
            forall|j: int| 0 <= j < i ==> s@[j] == q@[j],
        decreases q.len() - i,
    {
        if s[i] != q[i] {
            assert(s@.take(p@.len() as int)[i as int] != p@[i as int]);
            return false;
        }
        i += 1;
    }
    assert(s@.take(p@.len() as int) =~= p@);
    true
}

fn hex(c: char) -> (r: bool)
    ensures
        r == is_hex(c),
{
    ('0' <= c && c <= '9') || ('a' <= c && c <= 'f') || ('A' <= c && c <= 'F')
}

fn lower_hex(c: char) -> (r: char)
    requires
        is_hex(c),
    ensures
        r == lower(c),
{
    match c {
        'A' => 'a',
        'B' => 'b',
        'C' => 'c',
        'D' => 'd',
        'E' => 'e',
        'F' => 'f',
        _ => c,
    }
}

/// The info-hash that the part of a text from `a` up to `b` writes.
fn read_hash(s: &Vec<char>, a: usize, b: usize) -> (r: Option<String>)
    requires
        a <= b <= s@.len(),
    ensures
        match r {
            Some(h) => hash_of(s@.subrange(a as int, b as int)) == Some(h@),
            None => hash_of(s@.subrange(a as int, b as int)) is None,
        },
{
    let ghost t = s@.subrange(a as int, b as int);
    let ghost f = |c: char| lower(c);
    if b - a != 40 {
        return None;
    }
    let mut out = String::new();
    let mut i: usize = a;
    while i < b
        invariant
            a <= i <= b <= s@.len(),
            b - a == 40,
            t == s@.subrange(a as int, b as int),
            f == (|c: char| lower(c)),
            out@ =~= t.map_values(f).take(i - a),
            forall|j: int| 0 <= j < i - a ==> is_hex(#[trigger] t[j]),
        decreases b - i,
    {
        let c = s[i];
        assert(t[i - a] == c);
        if !hex(c) {
            return None;
        }
        out.push(lower_hex(c));
        i += 1;
    }
    assert(out@ =~= t.map_values(f));
    Some(out)
}

fn read_part(s: &Vec<char>, a: usize, b: usize) -> (r: Option<String>)
    requires
        a <= b <= s@.len(),
    ensures
        match r {
            Some(h) => part_hash(s@.subrange(a as int, b as int)) == Some(h@),
            None => part_hash(s@.subrange(a as int, b as int)) is None,
        },
{
    let part = piece(s, a, b);
    if starts(&part, "xt=urn:btih:") {
        proof {
            reveal_strlit("xt=urn:btih:");
        }
        let n = part.len();
        assert(part@.subrange(12, n as int) =~= part@.skip("xt=urn:btih:"@.len() as int));
        read_hash(&part, 12, n)
    } else {
        None
    }
}

/// The first info-hash that the parts of a magnet link from `from` on name.
fn read_link(s: &Vec<char>, from: usize) -> (r: Option<String>)
    requires
        from <= s@.len(),
    ensures
        match r {
            Some(h) => link_hash(s@.skip(from as int)) == Some(h@),
            None => link_hash(s@.skip(from as int)) is None,
        },
{
    let n = s.len();
    let mut a: usize = from;
    let ghost whole = link_hash(s@.skip(from as int));
    loop
        invariant
            a <= n == s@.len(),
            whole == link_hash(s@.skip(from as int)),
            link_hash(s@.skip(a as int)) == whole,
        decreases n - a,
    {
        let ghost t = s@.skip(a as int);
        let mut b: usize = a;
        while b < n && s[b] != '&'
            invariant
                a <= b <= n == s@.len(),
                t == s@.skip(a as int),
                forall|j: int| 0 <= j < b - a ==> #[trigger] t[j] != '&',
            decreases n - b,
        {
            assert(t[b - a] == s@[b as int]);
            b += 1;
        }
        proof {
            if b < n {
                assert(t[b - a] == s@[b as int]);
            }
            lemma_part_end_is(t, b - a);
            assert(t.take(b - a) =~= s@.subrange(a as int, b as int));
            if b < n {
                assert(t.skip(b - a + 1) =~= s@.skip(b + 1));
            }
        }
        match read_part(s, a, b) {
            Some(h) => {
                return Some(h);
            },
            None => {
                if b < n {
                    a = b + 1;
                } else {
                    return None;
                }
            },
        }
    }
}

/// Reads the info-hash that an input names: a magnet link or the hash itself.
pub fn parse_infohash(input: &str) -> (r: Option<String>)
    ensures
        match r {
            Some(h) => infohash_in(input@) == Some(h@),
            None => infohash_in(input@) is None,
        },
{
    let s = trim(input);
    let n = s.len();
    if starts(&s, "magnet:") {
        if starts(&s, "magnet:?") {
            proof {
                reveal_strlit("magnet:?");
            }
            read_link(&s, 8)
        } else {
            assert(s@.skip(0) =~= s@);
            read_link(&s, 0)
        }
    } else {
        assert(s@.subrange(0, n as int) =~= s@);
        read_hash(&s, 0, n)
    }
}

proof fn lemma_hex_text(b: Seq<u8>)
    ensures
        hex_text(b).len() == 2 * b.len(),
        forall|i: int|
            0 <= i < hex_text(b).len() ==> {
                let c = #[trigger] hex_text(b)[i];
                is_hex(c) && lower(c) == c && !is_space(c) && c != '&' && c != 'm'
            },
{
    let s = hex_text(b);
    assert forall|i: int| 0 <= i < s.len() implies {
        let c = #[trigger] s[i];
        is_hex(c) && lower(c) == c && !is_space(c) && c != '&' && c != 'm'
    } by {
        assert(0 <= i / 2 < b.len());
    }
}

proof fn lemma_untrimmed(s: Seq<char>)
    requires
        s.len() > 0,
        !is_space(s[0]),
        !is_space(s.last()),
    ensures
        trimmed(s) == s,
{
}

proof fn lemma_hash_of_hex(b: Seq<u8>)
    requires
        b.len() == 20,
    ensures
        hash_of(hex_text(b)) == Some(hex_text(b)),
{
    lemma_hex_text(b);
    assert(hex_text(b).map_values(|c: char| lower(c)) =~= hex_text(b));
}

/// Whatever names an info-hash, it is read as forty hexadecimal digits in lower case, which write
/// twenty bytes.
pub proof fn law_infohash_is_canonical(input: Seq<char>)
    ensures
        infohash_in(input) matches Some(h) ==> {
            &&& h.len() == 40
            &&& forall|i: int| 0 <= i < h.len() ==> is_hex(#[trigger] h[i]) && lower(h[i]) == h[i]
            &&& info_hash_of(h) is Some
        },
{
    let s = trimmed(input);
    if let Some(h) = infohash_in(input) {
        lemma_link_hash(
            if begins_with(s, "magnet:?"@) {
                s.skip("magnet:?"@.len() as int)
            } else {
                s
            },
        );
        lemma_hash_of(s);
        assert forall|i: int| 0 <= i < h.len() implies hex_value(#[trigger] h[i]) is Some by {
            assert(is_hex(h[i]));
        }
    }
}

proof fn lemma_hash_of(s: Seq<char>)
    ensures
        hash_of(s) matches Some(h) ==> h.len() == 40 && forall|i: int|
            0 <= i < h.len() ==> is_hex(#[trigger] h[i]) && lower(h[i]) == h[i],
{
    if let Some(h) = hash_of(s) {
        assert forall|i: int| 0 <= i < h.len() implies is_hex(#[trigger] h[i]) && lower(h[i])
            == h[i] by {
            assert(is_hex(s[i]));
            assert(h[i] == lower(s[i]));
        }
    }
}

proof fn lemma_link_hash(s: Seq<char>)
    ensures
        link_hash(s) matches Some(h) ==> h.len() == 40 && forall|i: int|
            0 <= i < h.len() ==> is_hex(#[trigger] h[i]) && lower(h[i]) == h[i],
    decreases s.len(),
{
    lemma_part_end(s);
    let e = part_end(s);
    lemma_hash_of(s.take(e).skip("xt=urn:btih:"@.len() as int));
    if e < s.len() {
        lemma_link_hash(s.skip(e + 1));
    }
}

/// The hexadecimal text of an info-hash names it.
pub proof fn law_hex_text_names_infohash(ih: Seq<u8>)
    requires
        ih.len() == 20,
    ensures
        infohash_in(hex_text(ih)) == Some(hex_text(ih)),
        info_hash_of(hex_text(ih)) == Some(ih),
{
    let h = hex_text(ih);
    lemma_hex_text(ih);
    lemma_hash_of_hex(ih);
    assert(!is_space(h[0]) && !is_space(h[39]));
    lemma_untrimmed(h);
    reveal_strlit("magnet:");
    if begins_with(h, "magnet:"@) {
        assert(h.take("magnet:"@.len() as int)[0] == h[0]);
        assert("magnet:"@[0] == 'm');
    }
    crate::hexcode::law_unhex_hex(ih);
}

/// A magnet link of an info-hash names it, whatever other parts follow.
pub proof fn law_magnet_link_names_infohash(ih: Seq<u8>, rest: Seq<char>)
    requires
        ih.len() == 20,
        rest.len() > 0 ==> rest[0] == '&' && !is_space(rest.last()),
    ensures
        infohash_in("magnet:?xt=urn:btih:"@ + hex_text(ih) + rest) == Some(hex_text(ih)),
{
    let h = hex_text(ih);
    let p = "magnet:?xt=urn:btih:"@;
    let s = p + h + rest;
    reveal_strlit("magnet:?xt=urn:btih:");
    reveal_strlit("magnet:");
    reveal_strlit("magnet:?");
    reveal_strlit("xt=urn:btih:");
    lemma_hex_text(ih);
    lemma_hash_of_hex(ih);
    assert(s[0] == 'm');
    if rest.len() == 0 {
        assert(s.last() == h[39]);
    } else {
        assert(s.last() == rest.last());
    }
    lemma_untrimmed(s);
    assert(s.take("magnet:"@.len() as int) =~= "magnet:"@);
    assert(s.take("magnet:?"@.len() as int) =~= "magnet:?"@);
    let t = s.skip("magnet:?"@.len() as int);
    let q = "xt=urn:btih:"@;
    assert(t =~= q + h + rest);
    let e = q.len() + 40;
    assert forall|i: int| 0 <= i < e implies #[trigger] t[i] != '&' by {
        if i >= q.len() {
            assert(t[i] == h[i - q.len()]);
        } else {
            assert(t[i] == q[i]);
        }
    }
    if e < t.len() {
        assert(t[e as int] == rest[0]);
    }
    lemma_part_end_is(t, e as int);
    let part = t.take(e as int);
    assert(part.take(q.len() as int) =~= q);
    assert(part.skip(q.len() as int) =~= h);
}

/// A text stands for the same digits as another, apart from the case of the letters.
pub open spec fn same_digits(h: Seq<char>, s: Seq<char>) -> bool {
    &&& h.len() == s.len()
    &&& forall|i: int|
        0 <= i < s.len() ==> #[trigger] h[i] == if 'A' <= s[i] <= 'F' {
            (s[i] as u32 + 32) as char
        } else {
            s[i]
        }
}

/// A hexadecimal digit in either case.
pub open spec fn is_hex_digit(c: char) -> bool {
    '0' <= c <= '9' || 'a' <= c <= 'f' || 'A' <= c <= 'F'
}

/// Forty hexadecimal digits, in whatever case, name the info-hash that they write.
pub proof fn law_forty_digits_name_infohash(s: Seq<char>)
    requires
        s.len() == 40,
        forall|i: int| 0 <= i < s.len() ==> is_hex_digit(#[trigger] s[i]),
    ensures
        infohash_in(s) is Some,
        same_digits(infohash_in(s)->0, s),
{
    assert(is_hex_digit(s[0]) && is_hex_digit(s[39]));
    lemma_untrimmed(s);
    reveal_strlit("magnet:");
    if begins_with(s, "magnet:"@) {
        assert(s.take("magnet:"@.len() as int)[0] == s[0]);
        assert("magnet:"@[0] == 'm');
    }
    assert forall|i: int| 0 <= i < s.len() implies is_hex(#[trigger] s[i]) by {
        assert(is_hex_digit(s[i]));
    }
}

/// So do they in a magnet link, whatever other parts follow.
pub proof fn law_magnet_link_in_either_case(s: Seq<char>, rest: Seq<char>)
    requires
        s.len() == 40,
        forall|i: int| 0 <= i < s.len() ==> is_hex_digit(#[trigger] s[i]),
        rest.len() > 0 ==> rest[0] == '&' && !is_space(rest.last()),
    ensures
        infohash_in("magnet:?xt=urn:btih:"@ + s + rest) is Some,
        same_digits(infohash_in("magnet:?xt=urn:btih:"@ + s + rest)->0, s),
{
    let p = "magnet:?xt=urn:btih:"@;
    let all = p + s + rest;
    reveal_strlit("magnet:?xt=urn:btih:");
    reveal_strlit("magnet:");
    reveal_strlit("magnet:?");
    reveal_strlit("xt=urn:btih:");
    assert(is_hex_digit(s[39]));
    assert(all[0] == 'm');
    if rest.len() == 0 {
        assert(all.last() == s[39]);
    } else {
        assert(all.last() == rest.last());
    }
    lemma_untrimmed(all);
    assert(all.take("magnet:"@.len() as int) =~= "magnet:"@);
    assert(all.take("magnet:?"@.len() as int) =~= "magnet:?"@);
    let t = all.skip("magnet:?"@.len() as int);
    let q = "xt=urn:btih:"@;
    assert(t =~= q + s + rest);
    let e = q.len() + 40;
    assert forall|i: int| 0 <= i < e implies #[trigger] t[i] != '&' by {
        if i >= q.len() {
            assert(t[i] == s[i - q.len()]);
            assert(is_hex_digit(s[i - q.len()]));
        } else {
            assert(t[i] == q[i]);
        }
    }
    if e < t.len() {
        assert(t[e as int] == rest[0]);
    }
    lemma_part_end_is(t, e as int);
    let part = t.take(e as int);
    assert(part.take(q.len() as int) =~= q);
    assert(part.skip(q.len() as int) =~= s);
    assert forall|i: int| 0 <= i < s.len() implies is_hex(#[trigger] s[i]) by {
        assert(is_hex_digit(s[i]));
    }
}

/// A part of a magnet link that does not name an info-hash makes no difference to what the parts
/// after it name.
pub proof fn law_other_parts_make_no_difference(part: Seq<char>, rest: Seq<char>)
    requires
        forall|i: int| 0 <= i < part.len() ==> #[trigger] part[i] != '&',
        part.len() < 12 || part.take(12) != "xt=urn:btih:"@,
        rest.len() > 0,
        !is_space(rest.last()),
    ensures
        infohash_in("magnet:?"@ + part + seq!['&'] + rest) == infohash_in("magnet:?"@ + rest),
{
    let p = "magnet:?"@;
    let a = p + part + seq!['&'] + rest;
    let b = p + rest;
    reveal_strlit("magnet:");
    reveal_strlit("magnet:?");
    reveal_strlit("xt=urn:btih:");
    assert(a[0] == 'm' && b[0] == 'm');
    assert(a.last() == rest.last() && b.last() == rest.last());
    lemma_untrimmed(a);
    lemma_untrimmed(b);
    assert(a.take("magnet:"@.len() as int) =~= "magnet:"@);
    assert(b.take("magnet:"@.len() as int) =~= "magnet:"@);
    assert(a.take("magnet:?"@.len() as int) =~= "magnet:?"@);
    assert(b.take("magnet:?"@.len() as int) =~= "magnet:?"@);
    let t = a.skip(p.len() as int);
    assert(t =~= part + seq!['&'] + rest);
    assert(b.skip(p.len() as int) =~= rest);
    let e = part.len() as int;
    assert forall|i: int| 0 <= i < e implies #[trigger] t[i] != '&' by {
        assert(t[i] == part[i]);
    }
    assert(t[e] == '&');
    lemma_part_end_is(t, e);
    assert(t.take(e) =~= part);
    assert(t.skip(e + 1) =~= rest);
}

proof fn lemma_trim_front_more(a: Seq<char>, s: Seq<char>)
    requires
        forall|i: int| 0 <= i < a.len() ==> is_space(#[trigger] a[i]),
    ensures
        trim_front(a + s) == trim_front(s),
    decreases a.len(),
{
    if a.len() == 0 {
        assert(a + s =~= s);
    } else {
        assert(is_space(a[0]));
        assert((a + s).skip(1) =~= a.skip(1) + s);
        assert forall|i: int| 0 <= i < a.skip(1).len() implies is_space(
            #[trigger] a.skip(1)[i],
        ) by {
            assert(is_space(a[i + 1]));
        }
        lemma_trim_front_more(a.skip(1), s);
    }
}

proof fn lemma_trim_end_more(s: Seq<char>, b: Seq<char>)
    requires
        forall|i: int| 0 <= i < b.len() ==> is_space(#[trigger] b[i]),
    ensures
        trim_end(s + b) == trim_end(s),
    decreases b.len(),
{
    if b.len() == 0 {
        assert(s + b =~= s);
    } else {
        assert(is_space(b[b.len() - 1]));
        assert((s + b).last() == b.last());
        assert((s + b).drop_last() =~= s + b.drop_last());
        assert forall|i: int| 0 <= i < b.drop_last().len() implies is_space(
            #[trigger] b.drop_last()[i],
        ) by {
            assert(is_space(b[i]));
        }
        lemma_trim_end_more(s, b.drop_last());
    }
}

/// Spaces around what is typed make no difference.
pub proof fn law_spaces_make_no_difference(a: Seq<char>, s: Seq<char>, b: Seq<char>)
    requires
        s.len() > 0,
        !is_space(s[0]),
        forall|i: int| 0 <= i < a.len() ==> is_space(#[trigger] a[i]),
        forall|i: int| 0 <= i < b.len() ==> is_space(#[trigger] b[i]),
    ensures
        infohash_in(a + s + b) == infohash_in(s),
{
    lemma_trim_front_more(a, s + b);
    assert(a + s + b =~= a + (s + b));
    assert((s + b)[0] == s[0]);
    assert(trim_front(s + b) == s + b);
    lemma_trim_end_more(s, b);
}

/// A text holds digits somewhere.
pub open spec fn holds_digits(s: Seq<char>, h: Seq<char>) -> bool {
    exists|i: int, j: int|
        0 <= i && j == i + 40 && j <= s.len() && #[trigger] same_digits(h, s.subrange(i, j))
}

proof fn lemma_holds_more(s: Seq<char>, a: int, b: int, h: Seq<char>)
    requires
        0 <= a <= b <= s.len(),
        holds_digits(s.subrange(a, b), h),
    ensures
        holds_digits(s, h),
{
    let t = s.subrange(a, b);
    let (i, j) = choose|i: int, j: int|
        0 <= i && j == i + 40 && j <= t.len() && #[trigger] same_digits(h, t.subrange(i, j));
    assert(t.subrange(i, j) =~= s.subrange(a + i, a + j));
    assert(same_digits(h, s.subrange(a + i, a + j)));
}

proof fn lemma_hash_stands(s: Seq<char>)
    ensures
        hash_of(s) matches Some(h) ==> holds_digits(s, h),
{
    if let Some(h) = hash_of(s) {
        assert(s.subrange(0, 40) =~= s);
        assert(same_digits(h, s.subrange(0, 40)));
    }
}

proof fn lemma_link_stands(s: Seq<char>)
    ensures
        link_hash(s) matches Some(h) ==> holds_digits(s, h),
    decreases s.len(),
{
    lemma_part_end(s);
    let e = part_end(s);
    let n = "xt=urn:btih:"@.len() as int;
    let part = s.take(e);
    match part_hash(part) {
        Some(h) => {
            lemma_hash_stands(part.skip(n));
            assert(part.skip(n) =~= s.subrange(n, e));
            lemma_holds_more(s, n, e, h);
        },
        None => {
            if e < s.len() {
                lemma_link_stands(s.skip(e + 1));
                if let Some(h) = link_hash(s.skip(e + 1)) {
                    assert(s.skip(e + 1) =~= s.subrange(e + 1, s.len() as int));
                    lemma_holds_more(s, e + 1, s.len() as int, h);
                }
            }
        },
    }
}

proof fn lemma_trimmed_part(s: Seq<char>)
    ensures
        exists|a: int, b: int| 0 <= a <= b <= s.len() && #[trigger] s.subrange(a, b) == trimmed(s),
{
    lemma_trim_front_part(s);
    let a = choose|a: int| 0 <= a <= s.len() && #[trigger] s.skip(a) == trim_front(s);
    let t = s.skip(a);
    lemma_trim_end_part(t);
    let b = choose|b: int| 0 <= b <= t.len() && #[trigger] t.take(b) == trim_end(t);
    assert(s.subrange(a, a + b) =~= t.take(b));
}

proof fn lemma_trim_front_part(s: Seq<char>)
    ensures
        exists|a: int| 0 <= a <= s.len() && #[trigger] s.skip(a) == trim_front(s),
    decreases s.len(),
{
    if s.len() > 0 && is_space(s[0]) {
        lemma_trim_front_part(s.skip(1));
        let t = s.skip(1);
        let a = choose|a: int| 0 <= a <= t.len() && #[trigger] t.skip(a) == trim_front(t);
        assert(s.skip(a + 1) =~= t.skip(a));
    } else {
        assert(s.skip(0) =~= s);
    }
}

proof fn lemma_trim_end_part(s: Seq<char>)
    ensures
        exists|b: int| 0 <= b <= s.len() && #[trigger] s.take(b) == trim_end(s),
    decreases s.len(),
{
    if s.len() > 0 && is_space(s.last()) {
        let t = s.drop_last();
        lemma_trim_end_part(t);
        let b = choose|b: int| 0 <= b <= t.len() && #[trigger] t.take(b) == trim_end(t);
        assert(s.take(b) =~= t.take(b));
    } else {
        assert(s.take(s.len() as int) =~= s);
    }
}

/// An info-hash that is read stands in what was typed, digit for digit.
pub proof fn law_infohash_stands_in_input(input: Seq<char>)
    ensures
        infohash_in(input) matches Some(h) ==> holds_digits(input, h),
{
    if let Some(h) = infohash_in(input) {
        let s = trimmed(input);
        lemma_hash_stands(s);
        lemma_link_stands(s);
        let n = "magnet:?"@.len() as int;
        if begins_with(s, "magnet:?"@) {
            lemma_link_stands(s.skip(n));
            assert(s.skip(n) =~= s.subrange(n, s.len() as int));
            if link_hash(s.skip(n)) == Some(h) {
                lemma_holds_more(s, n, s.len() as int, h);
            }
        }
        assert(holds_digits(s, h));
        lemma_trimmed_part(input);
        let (a, b) = choose|a: int, b: int|
            0 <= a <= b <= input.len() && #[trigger] input.subrange(a, b) == s;
        lemma_holds_more(input, a, b, h);
    }
}

// ---------------------------------------------------------------------------
// Pages
// ---------------------------------------------------------------------------

/// The page that is asked for: the first where none is.
pub fn page_number(page: Option<u32>) -> (r: u32)
    ensures
        r == match page {
            Some(p) => if p == 0 {
                1
            } else {
                p
            },
            None => 1,
        },
{
    match page {
        Some(p) => if p == 0 {
            1
        } else {
            p
        },
        None => 1,
    }
}

/// The rows of a page: fifteen where none are asked for, else as many as asked for, within bounds.
pub fn rows_per_page(page_size: Option<u32>) -> (r: u32)
    ensures
        r == match page_size {
            Some(n) => if n < 1 {
                1
            } else if n > 200 {
                200
            } else {
                n
            },
            None => 15,
        },
        1 <= r <= 200,
{
    match page_size {
        Some(n) => if n < 1 {
            1
        } else if n > 200 {
            200
        } else {
            n
        },
        None => 15,
    }
}

/// How many pages so many rows fill.
pub open spec fn pages_of(total: nat, page_size: nat) -> nat {
    ((total + page_size - 1) / page_size as int) as nat
}

/// How many pages so many rows fill.
pub fn total_pages(total: u32, page_size: u32) -> (r: u32)
    requires
        page_size >= 1,
        total + page_size - 1 <= u32::MAX,
    ensures
        r == pages_of(total as nat, page_size as nat),
{
    (total + (page_size - 1)) / page_size
}

/// The pages have room for all rows, and none is without a row.
pub proof fn law_pages_hold_all_rows(total: nat, page_size: nat)
    requires
        page_size >= 1,
    ensures
        total <= pages_of(total, page_size) * page_size,
        total > 0 ==> (pages_of(total, page_size) - 1) * page_size < total,
        total == 0 ==> pages_of(total, page_size) == 0,
{
    let n = total + page_size - 1;
    let q = n / page_size as int;
    vstd::arithmetic::div_mod::lemma_fundamental_div_mod(n, page_size as int);
    assert(page_size * q == q * page_size) by (nonlinear_arith);
    assert((q - 1) * page_size == q * page_size - page_size) by (nonlinear_arith);
    assert(q >= 0) by (nonlinear_arith)
        requires
            q == n / page_size as int,
            n >= 0,
            page_size >= 1,
    ;
    if total == 0 {
        assert(q == 0) by (nonlinear_arith)
            requires
                q == n / page_size as int,
                0 <= n < page_size,
        ;
    }
}

// ---------------------------------------------------------------------------
// Files
// ---------------------------------------------------------------------------

/// The members of an item: their names, and their values as far as these are integers.
pub open spec fn member_list(s: Seq<(String, Option<i64>)>) -> Seq<(Seq<char>, Option<i64>)> {
    Seq::new(s.len(), |i: int| (s[i].0@, s[i].1))
}

/// What a list of items stands for.
pub open spec fn item_list(s: Seq<Vec<(String, Option<i64>)>>) -> Seq<
    Seq<(Seq<char>, Option<i64>)>,
> {
    Seq::new(s.len(), |i: int| member_list(s[i]@))
}

/// The items that a JSON text lists, each with its members; none where the text is no list. An item
/// that is no object has no members.
pub uninterp spec fn listed_items(files: Seq<char>) -> Option<
    Seq<Seq<(Seq<char>, Option<i64>)>>,
>;

/// `serde_json::from_str` reads a JSON text as a list of values; it fails where the text is no such
/// list. The members of an object keep their names, and of their values those that are integers of
/// 64 bits are kept, as `Value::as_i64` tells; a value that is no object has no members.
#[verifier::external_body]
fn read_items(files: &str) -> (r: Option<Vec<Vec<(String, Option<i64>)>>>)
    ensures
        match r {
            Some(l) => listed_items(files@) == Some(item_list(l@)),
            None => listed_items(files@) is None,
        },
{
    let values: Vec<serde_json::Value> = serde_json::from_str(files).ok()?;
    let members = |v| match v {
        serde_json::Value::Object(m) => m.into_iter().map(|(k, n)| (k, n.as_i64())).collect(),
        serde_json::Value::Array(_) => Vec::new(),
        serde_json::Value::String(_) => Vec::new(),
        serde_json::Value::Number(_) => Vec::new(),
        serde_json::Value::Bool(_) => Vec::new(),
        serde_json::Value::Null => Vec::new(),
    };
    Some(values.into_iter().map(members).collect())
}

/// The length of a file: the integer that its item has under `length`, where it has one.
pub open spec fn length_in(item: Seq<(Seq<char>, Option<i64>)>) -> Option<i64>
    decreases item.len(),
{
    if item.len() == 0 {
        None
    } else if item[0].0 == "length"@ {
        item[0].1
    } else {
        length_in(item.skip(1))
    }
}

/// The lengths of files, one for each item.
pub open spec fn lengths_of(items: Seq<Seq<(Seq<char>, Option<i64>)>>) -> Seq<Option<i64>> {
    Seq::new(items.len(), |i: int| length_in(items[i]))
}

/// The length of a file by the members of its item.
pub fn length_of(item: &Vec<(String, Option<i64>)>) -> (r: Option<i64>)
    ensures
        r == length_in(member_list(item@)),
{
    let ghost m = member_list(item@);
    let mut i: usize = 0;
    assert(m.skip(0) =~= m);
    while i < item.len()
        invariant
            i <= item@.len(),
            m == member_list(item@),
            length_in(m) == length_in(m.skip(i as int)),
        decreases item.len() - i,
    {
        assert(m.skip(i as int)[0] == m[i as int]);
        if same_text(item[i].0.as_str(), "length") {
            return item[i].1;
        }
        assert(m.skip(i as int).skip(1) =~= m.skip(i + 1));
        i += 1;
    }
    None
}

/// The lengths of files added up; a file without a length counts nothing.
pub open spec fn total_of(s: Seq<Option<i64>>) -> int
    decreases s.len(),
{
    if s.len() == 0 {
        0
    } else {
        total_of(s.drop_last()) + match s.last() {
            Some(n) => n as int,
            None => 0,
        }
    }
}

/// The lengths can be added up, one after another.
pub open spec fn can_add_up(s: Seq<Option<i64>>) -> bool {
    forall|i: int| 0 <= i <= s.len() ==> i64::MIN <= total_of(#[trigger] s.take(i)) <= i64::MAX
}

/// The lengths of files added up.
pub fn total_size(lengths: &Vec<Option<i64>>) -> (r: i64)
    requires
        can_add_up(lengths@),
    ensures
        r == total_of(lengths@),
{
    let mut sum: i64 = 0;
    let mut i: usize = 0;
    while i < lengths.len()
        invariant
            i <= lengths@.len(),
            can_add_up(lengths@),
            sum == total_of(lengths@.take(i as int)),
        decreases lengths.len() - i,
    {
        proof {
            assert(lengths@.take(i + 1).drop_last() =~= lengths@.take(i as int));
            assert(lengths@.take(i + 1).last() == lengths@[i as int]);
        }
        if let Some(n) = lengths[i] {
            sum = sum + n;
        }
        i += 1;
    }
    assert(lengths@.take(i as int) =~= lengths@);
    sum
}

fn fits(lengths: &Vec<Option<i64>>) -> (r: bool)
    ensures
        r == can_add_up(lengths@),
{
    let mut sum: i64 = 0;
    let mut i: usize = 0;
    while i < lengths.len()
        invariant
            i <= lengths@.len(),
            sum == total_of(lengths@.take(i as int)),
            forall|j: int|
                0 <= j <= i ==> i64::MIN <= total_of(#[trigger] lengths@.take(j)) <= i64::MAX,
        decreases lengths.len() - i,
    {
        proof {
            assert(lengths@.take(i + 1).drop_last() =~= lengths@.take(i as int));
            assert(lengths@.take(i + 1).last() == lengths@[i as int]);
        }
        if let Some(n) = lengths[i] {
            match sum.checked_add(n) {
                Some(s) => {
                    sum = s;
                },
                None => {
                    assert(!(i64::MIN <= total_of(lengths@.take(i + 1)) <= i64::MAX));
                    return false;
                },
            }
        }
        i += 1;
    }
    true
}

/// How many files there are, and their lengths added up, where both can be counted.
pub open spec fn summary_of(items: Seq<Seq<(Seq<char>, Option<i64>)>>) -> Option<(nat, int)> {
    if items.len() > u32::MAX || !can_add_up(lengths_of(items)) {
        None
    } else {
        Some((items.len(), total_of(lengths_of(items))))
    }
}

/// What a summary stands for.
pub open spec fn summary_model(r: Option<(u32, i64)>) -> Option<(nat, int)> {
    match r {
        Some((count, total)) => Some((count as nat, total as int)),
        None => None,
    }
}

/// Counts files and adds up their lengths, by the members of their items.
pub fn sum_up(items: &Vec<Vec<(String, Option<i64>)>>) -> (r: Option<(u32, i64)>)
    ensures
        summary_model(r) == summary_of(item_list(items@)),
{
    let ghost all = lengths_of(item_list(items@));
    let mut lengths: Vec<Option<i64>> = Vec::new();
    let mut i: usize = 0;
    while i < items.len()
        invariant
            i <= items@.len(),
            all == lengths_of(item_list(items@)),
            lengths@ =~= all.take(i as int),
        decreases items.len() - i,
    {
        let n = length_of(&items[i]);
        assert(all[i as int] == n);
        lengths.push(n);
        i += 1;
    }
    assert(lengths@ =~= all);
    if lengths.len() > 0xffff_ffff || !fits(&lengths) {
        return None;
    }
    Some((lengths.len() as u32, total_size(&lengths)))
}

/// The items of the files that a JSON text lists; none where it is no list.
pub open spec fn items_in(files: Seq<char>) -> Seq<Seq<(Seq<char>, Option<i64>)>> {
    match listed_items(files) {
        Some(l) => l,
        None => Seq::empty(),
    }
}

/// The length of a file is what stands under `length`, whatever other members its item has; without
/// such a member it has none.
pub proof fn law_length_is_what_is_named_so(item: Seq<(Seq<char>, Option<i64>)>, i: int)
    requires
        forall|j: int, k: int|
            0 <= j < k < item.len() ==> (#[trigger] item[j]).0 != (#[trigger] item[k]).0,
    ensures
        0 <= i < item.len() && item[i].0 == "length"@ ==> length_in(item) == item[i].1,
        (forall|j: int| 0 <= j < item.len() ==> (#[trigger] item[j]).0 != "length"@) ==> length_in(
            item,
        ) is None,
    decreases item.len(),
{
    if item.len() > 0 {
        let rest = item.skip(1);
        assert forall|j: int, k: int| 0 <= j < k < rest.len() implies (#[trigger] rest[j]).0 != (
        #[trigger] rest[k]).0 by {
            assert(rest[j] == item[j + 1] && rest[k] == item[k + 1]);
        }
        law_length_is_what_is_named_so(rest, i - 1);
        if 0 < i < item.len() {
            assert(rest[i - 1] == item[i]);
            assert(item[0].0 != item[i].0);
        }
        if forall|j: int| 0 <= j < item.len() ==> (#[trigger] item[j]).0 != "length"@ {
            assert forall|j: int| 0 <= j < rest.len() implies (#[trigger] rest[j]).0
                != "length"@ by {
                assert(rest[j] == item[j + 1]);
            }
        }
    }
}

/// One more file adds one to the count and its length, where it has one, to the total. No files come
/// to nothing.
pub proof fn law_every_file_is_summed_up(
    items: Seq<Seq<(Seq<char>, Option<i64>)>>,
    item: Seq<(Seq<char>, Option<i64>)>,
    count: nat,
    total: int,
)
    requires
        summary_of(items) == Some((count, total)),
        items.len() < u32::MAX,
    ensures
        ({
            let more = total + match length_in(item) {
                Some(n) => n as int,
                None => 0,
            };
            summary_of(items.push(item)) == if i64::MIN <= more <= i64::MAX {
                Some((count + 1, more))
            } else {
                None
            }
        }),
        summary_of(Seq::empty()) == Some((0nat, 0int)),
{
    let s = lengths_of(items);
    let t = lengths_of(items.push(item));
    assert(t =~= s.push(length_in(item)));
    assert(t.drop_last() =~= s);
    assert forall|i: int| 0 <= i <= s.len() implies #[trigger] t.take(i) == s.take(i) by {
        assert(t.take(i) =~= s.take(i));
    }
    assert(t.take(t.len() as int) =~= t);
    if can_add_up(t) {
        assert(i64::MIN <= total_of(t.take(t.len() as int)) <= i64::MAX);
    }
    assert forall|i: int| 0 <= i < t.len() implies i64::MIN <= total_of(#[trigger] t.take(i))
        <= i64::MAX by {
        assert(t.take(i) == s.take(i));
    }
    let none: Seq<Seq<(Seq<char>, Option<i64>)>> = Seq::empty();
    assert(lengths_of(none) =~= Seq::empty());
    assert forall|i: int| 0 <= i <= lengths_of(none).len() implies i64::MIN <= total_of(
        #[trigger] lengths_of(none).take(i),
    ) <= i64::MAX by {
        assert(lengths_of(none).take(i).len() == 0);
    }
}

/// Counts the files that a JSON text lists and adds up their lengths.
pub fn summarize(files: &str) -> (r: Option<(u32, i64)>)
    ensures
        summary_model(r) == summary_of(items_in(files@)),
{
    let items = match read_items(files) {
        Some(l) => l,
        None => Vec::new(),
    };
    assert(item_list(items@) =~= items_in(files@));
    sum_up(&items)
}

// ---------------------------------------------------------------------------
// Access
// ---------------------------------------------------------------------------

/// A request is let through with the access key, and with nothing else.
pub fn may_pass(presented: Option<&str>, secret_key: &str) -> (r: bool)
    ensures
        r == match presented {
            Some(k) => k@ == secret_key@,
            None => false,
        },
{
    match presented {
        Some(k) => same_text(k, secret_key),
        None => false,
    }
}

/// Whether a key that was typed in is the access key; none counts as an empty one.
pub fn key_is_right(typed: Option<&str>, secret_key: &str) -> (r: bool)
    ensures
        r == match typed {
            Some(k) => k@ == secret_key@,
            None => secret_key@.len() == 0,
        },
{
    match typed {
        Some(k) => same_text(k, secret_key),
        None => secret_key.as_bytes().len() == 0,
    }
}

// ---------------------------------------------------------------------------
// Queries
// ---------------------------------------------------------------------------

/// What a query is answered.
pub enum QueryReply {
    /// It names no info-hash.
    Invalid,
    /// The torrent is stored.
    Found(TorrentEntry),
    /// The torrent is not stored; it is looked for.
    Searching(String),
}

/// Answers a query by the info-hash that it names and the torrent that is stored under it.
pub fn answer_query(infohash: Option<String>, stored: Option<TorrentEntry>) -> (r: QueryReply)
    ensures
        match (infohash, stored) {
            (None, _) => r is Invalid,
            (Some(_), Some(e)) => r == QueryReply::Found(e),
            (Some(h), None) => r == QueryReply::Searching(h),
        },
{
    match infohash {
        None => QueryReply::Invalid,
        Some(h) => match stored {
            Some(e) => QueryReply::Found(e),
            None => QueryReply::Searching(h),
        },
    }
}

} // verus!
