//! The torrents that are stored, and how they are looked up.

use vstd::prelude::*;
use vstd::string::*;
use crate::text::chars_of;

verus! {

/// A torrent that is stored: its info-hash, its name, its files as JSON, and when it was stored, in
/// seconds of Unix time.
pub struct TorrentEntry {
    pub infohash: String,
    pub name: String,
    pub files: String,
    pub created_at: i64,
}

/// What a stored torrent stands for.
pub struct EntryModel {
    pub infohash: Seq<char>,
    pub name: Seq<char>,
    pub files: Seq<char>,
    pub created_at: i64,
}

impl View for TorrentEntry {
    type V = EntryModel;

    open spec fn view(&self) -> EntryModel {
        EntryModel {
            infohash: self.infohash@,
            name: self.name@,
            files: self.files@,
            created_at: self.created_at,
        }
    }
}

impl Clone for TorrentEntry {
    fn clone(&self) -> (r: Self)
        ensures
            r@ == self@,
    {
        TorrentEntry {
            infohash: self.infohash.clone(),
            name: self.name.clone(),
            files: self.files.clone(),
            created_at: self.created_at,
        }
    }
}

/// How many rows stand before a page; the first page has the number one, and number zero means it
/// too.
pub open spec fn rows_before(page: u32, page_size: u32) -> nat {
    if page == 0 {
        0
    } else {
        ((page - 1) * page_size) as nat
    }
}

/// How many rows stand before a page, where that can be counted.
pub fn page_offset(page: u32, page_size: u32) -> (r: Option<u32>)
    ensures
        match r {
            Some(n) => n == rows_before(page, page_size),
            None => rows_before(page, page_size) > u32::MAX,
        },
{
    let before: u32 = if page == 0 {
        0
    } else {
        page - 1
    };
    proof {
        assert(before * page_size <= 0xffff_ffff * 0xffff_ffff) by (nonlinear_arith)
            requires
                0 <= before <= 0xffff_ffff,
                0 <= page_size <= 0xffff_ffff,
        ;
        assert(0 * page_size == 0) by (nonlinear_arith);
    }
    let product: u64 = before as u64 * page_size as u64;
    if product > 0xffff_ffff {
        None
    } else {
        Some(product as u32)
    }
}

/// Pages stand one behind the other: each begins where the one before it ends.
pub proof fn law_pages_follow_each_other(page: u32, page_size: u32)
    requires
        1 <= page < u32::MAX,
    ensures
        rows_before((page + 1) as u32, page_size) == rows_before(page, page_size) + page_size,
        rows_before(1, page_size) == 0,
{
    assert(page * page_size == (page - 1) * page_size + page_size) by (nonlinear_arith);
    assert(0 * page_size == 0) by (nonlinear_arith);
}

/// A character that does not stand for itself in a pattern: it stands for others, or makes the next
/// one stand for itself.
pub open spec fn is_special(c: char) -> bool {
    c == '%' || c == '_' || c == '\\'
}

/// A text in which the characters that do not stand for themselves have a backslash in front.
pub open spec fn escaped(s: Seq<char>) -> Seq<char>
    decreases s.len(),
{
    if s.len() == 0 {
        Seq::empty()
    } else {
        let front = escaped(s.drop_last());
        if is_special(s.last()) {
            front.push('\\').push(s.last())
        } else {
            front.push(s.last())
        }
    }
}

/// The pattern that finds a text anywhere in a name.
pub open spec fn pattern_of(s: Seq<char>) -> Seq<char> {
    seq!['%'] + escaped(s) + seq!['%']
}

/// The pattern that finds a text anywhere in a name. The backslash is its escape character.
pub fn search_pattern(search: &str) -> (r: String)
    ensures
        r@ == pattern_of(search@),
{
    let chars = chars_of(search);
    let ghost s = search@;
    let mut out = String::new();
    out.push('%');
    let mut i: usize = 0;
    assert(out@ =~= seq!['%'] + escaped(s.take(0)));
    while i < chars.len()
        invariant
            i <= chars@.len(),
            s == chars@,
            out@ == seq!['%'] + escaped(s.take(i as int)),
        decreases chars.len() - i,
    {
        proof {
            assert(s.take(i + 1).drop_last() =~= s.take(i as int));
            assert(s.take(i + 1).last() == s[i as int]);
        }
        let c = chars[i];
        if c == '%' || c == '_' || c == '\\' {
            out.push('\\');
        }
        out.push(c);
        assert(out@ =~= seq!['%'] + escaped(s.take(i + 1)));
        i += 1;
    }
    assert(s.take(i as int) =~= s);
    out.push('%');
    assert(out@ =~= pattern_of(s));
    out
}

// ---------------------------------------------------------------------------
// What a pattern fits
// ---------------------------------------------------------------------------

/// A letter of the Latin alphabet in lower case; any other character as it is.
pub open spec fn folded(c: char) -> char {
    if 'A' <= c <= 'Z' {
        (c as u32 + 32) as char
    } else {
        c
    }
}

/// A pattern fits a text: `%` stands for any characters, `_` for any one, a character behind a
/// backslash for itself, and every other character for itself. Latin letters are not told apart by
/// their case.
pub open spec fn fits_pattern(p: Seq<char>, t: Seq<char>) -> bool
    decreases p.len(), t.len(),
{
    if p.len() == 0 {
        t.len() == 0
    } else if p[0] == '%' {
        fits_pattern(p.skip(1), t) || (t.len() > 0 && fits_pattern(p, t.skip(1)))
    } else if p[0] == '_' {
        t.len() > 0 && fits_pattern(p.skip(1), t.skip(1))
    } else if p[0] == '\\' {
        p.len() > 1 && t.len() > 0 && folded(t[0]) == folded(p[1]) && fits_pattern(
            p.skip(2),
            t.skip(1),
        )
    } else {
        t.len() > 0 && folded(t[0]) == folded(p[0]) && fits_pattern(p.skip(1), t.skip(1))
    }
}

/// A text stands at a place of another, but for the case of Latin letters.
pub open spec fn stands_at(t: Seq<char>, s: Seq<char>, i: int) -> bool {
    &&& 0 <= i
    &&& i + s.len() <= t.len()
    &&& forall|j: int| 0 <= j < s.len() ==> folded(t[i + j]) == folded(#[trigger] s[j])
}

proof fn lemma_escaped_front(s: Seq<char>)
    requires
        s.len() > 0,
    ensures
        escaped(s) == (if is_special(s[0]) {
            seq!['\\', s[0]]
        } else {
            seq![s[0]]
        }) + escaped(s.skip(1)),
    decreases s.len(),
{
    let head = if is_special(s[0]) {
        seq!['\\', s[0]]
    } else {
        seq![s[0]]
    };
    if s.len() == 1 {
        assert(escaped(s.drop_last()) =~= Seq::empty());
        assert(escaped(s.skip(1)) =~= Seq::empty());
        assert(escaped(s) =~= head + escaped(s.skip(1)));
    } else {
        lemma_escaped_front(s.drop_last());
        assert(s.drop_last().skip(1) =~= s.skip(1).drop_last());
        assert(s.drop_last()[0] == s[0]);
        assert(s.skip(1).last() == s.last());
        assert(escaped(s) =~= head + escaped(s.skip(1)));
    }
}

proof fn lemma_any_fits(t: Seq<char>)
    ensures
        fits_pattern(seq!['%'], t),
    decreases t.len(),
{
    let p = seq!['%'];
    assert(p.skip(1) =~= Seq::empty());
    if t.len() > 0 {
        lemma_any_fits(t.skip(1));
    } else {
        assert(fits_pattern(p.skip(1), t));
    }
}

proof fn lemma_fits_at_front(s: Seq<char>, t: Seq<char>)
    ensures
        fits_pattern(escaped(s) + seq!['%'], t) == stands_at(t, s, 0),
    decreases s.len(),
{
    let p = escaped(s) + seq!['%'];
    if s.len() == 0 {
        assert(p =~= seq!['%']);
        lemma_any_fits(t);
    } else {
        lemma_escaped_front(s);
        let rest = s.skip(1);
        let q = escaped(rest) + seq!['%'];
        if is_special(s[0]) {
            assert(p.skip(2) =~= q);
        } else {
            assert(p.skip(1) =~= q);
        }
        if t.len() > 0 {
            lemma_fits_at_front(rest, t.skip(1));
            if stands_at(t, s, 0) {
                assert(folded(t[0]) == folded(s[0]));
                assert forall|j: int| 0 <= j < rest.len() implies folded(t.skip(1)[0 + j])
                    == folded(#[trigger] rest[j]) by {
                    assert(rest[j] == s[j + 1]);
                    assert(folded(t[0 + (j + 1)]) == folded(s[j + 1]));
                }
            }
            if stands_at(t.skip(1), rest, 0) && folded(t[0]) == folded(s[0]) {
                assert forall|j: int| 0 <= j < s.len() implies folded(t[0 + j]) == folded(
                    #[trigger] s[j],
                ) by {
                    if j > 0 {
                        assert(rest[j - 1] == s[j]);
                        assert(t.skip(1)[0 + (j - 1)] == t[j]);
                    }
                }
            }
        }
    }
}

proof fn lemma_fits_anywhere(q: Seq<char>, t: Seq<char>)
    ensures
        fits_pattern(seq!['%'] + q, t) == exists|i: int|
            0 <= i <= t.len() && fits_pattern(q, #[trigger] t.skip(i)),
    decreases t.len(),
{
    let p = seq!['%'] + q;
    assert(p.skip(1) =~= q);
    assert(t.skip(0) =~= t);
    if t.len() > 0 {
        let u = t.skip(1);
        lemma_fits_anywhere(q, u);
        if fits_pattern(p, u) {
            let i = choose|i: int| 0 <= i <= u.len() && fits_pattern(q, #[trigger] u.skip(i));
            assert(u.skip(i) =~= t.skip(i + 1));
        }
        if exists|i: int| 0 <= i <= t.len() && fits_pattern(q, #[trigger] t.skip(i)) {
            let i = choose|i: int| 0 <= i <= t.len() && fits_pattern(q, #[trigger] t.skip(i));
            if i > 0 {
                assert(u.skip(i - 1) =~= t.skip(i));
            }
        }
    } else {
        if exists|i: int| 0 <= i <= t.len() && fits_pattern(q, #[trigger] t.skip(i)) {
            let i = choose|i: int| 0 <= i <= t.len() && fits_pattern(q, #[trigger] t.skip(i));
            assert(i == 0);
        }
    }
}

/// The pattern of a text fits exactly the names that hold the text somewhere, whatever characters
/// it is made of.
pub proof fn law_search_finds_text(s: Seq<char>, name: Seq<char>)
    ensures
        fits_pattern(pattern_of(s), name) == exists|i: int| stands_at(name, s, i),
{
    let q = escaped(s) + seq!['%'];
    assert(pattern_of(s) =~= seq!['%'] + q);
    lemma_fits_anywhere(q, name);
    assert forall|i: int| 0 <= i <= name.len() implies fits_pattern(q, #[trigger] name.skip(i))
        == stands_at(name, s, i) by {
        lemma_fits_at_front(s, name.skip(i));
        lemma_stands_shifted(name, s, i);
    }
    if fits_pattern(pattern_of(s), name) {
        let i = choose|i: int| 0 <= i <= name.len() && fits_pattern(q, #[trigger] name.skip(i));
        assert(stands_at(name, s, i));
    }
    if exists|i: int| stands_at(name, s, i) {
        let i = choose|i: int| stands_at(name, s, i);
        assert(fits_pattern(q, name.skip(i)));
    }
}

proof fn lemma_stands_shifted(t: Seq<char>, s: Seq<char>, i: int)
    requires
        0 <= i <= t.len(),
    ensures
        stands_at(t.skip(i), s, 0) == stands_at(t, s, i),
{
    let u = t.skip(i);
    if stands_at(u, s, 0) {
        assert forall|j: int| 0 <= j < s.len() implies folded(t[i + j]) == folded(
            #[trigger] s[j],
        ) by {
            assert(u[0 + j] == t[i + j]);
        }
    }
    if stands_at(t, s, i) {
        assert forall|j: int| 0 <= j < s.len() implies folded(u[0 + j]) == folded(
            #[trigger] s[j],
        ) by {
            assert(u[0 + j] == t[i + j]);
        }
    }
}

} // verus!
